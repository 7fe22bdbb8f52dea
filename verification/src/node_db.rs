//! A content-addressed store of encoded trie nodes: the Keccak-256 hash of an
//! encoding maps to the encoding.
use vstd::prelude::*;

use crate::crypto::{keccak256, spec_keccak256};
use crate::mpt::{child_view, spec_decode_node, MptNode, NodeRef, NodeView};
use crate::mpt_trie::opt_view;
use crate::mpt_trie::bytes_eq;
use crate::trie_facts::{good_node, lemma_decode_well_formed, max_len, sound};

verus! {

/// The encoding stored under `h` among `entries`, the latest entry winning.
pub open spec fn lookup_entry(entries: Seq<(NodeRef, Vec<u8>)>, h: Seq<u8>) -> Option<Seq<u8>>
    decreases entries.len(),
{
    if entries.len() == 0 {
        None
    } else if entries.last().0@ == h {
        Some(entries.last().1@)
    } else {
        lookup_entry(entries.drop_last(), h)
    }
}

/// Keccak-256 gives distinct digests for distinct members of `s`.
pub open spec fn keccak_injective_on(s: Set<Seq<u8>>) -> bool {
    forall|a: Seq<u8>, b: Seq<u8>|
        #![trigger s.contains(a), s.contains(b)]
        s.contains(a) && s.contains(b) && spec_keccak256(a) == spec_keccak256(b) ==> a == b
}

/// The hashes of `entries`, in order.
pub open spec fn entry_keys(entries: Seq<(NodeRef, Vec<u8>)>) -> Seq<Seq<u8>> {
    entries.map_values(|e: (NodeRef, Vec<u8>)| e.0@)
}

/// A content-addressed store of encoded nodes.
///
/// Beside the entries, the store remembers (as ghost state) every encoding
/// ever written to it, so that "no two written encodings share a hash" can be
/// stated: under that condition no entry is ever replaced by a different one.
#[derive(Clone)]
pub struct MptNodeDb {
    nodes: Vec<(NodeRef, Vec<u8>)>,
    written: Ghost<Set<Seq<u8>>>,
}

impl View for MptNodeDb {
    type V = Map<Seq<u8>, Seq<u8>>;

    /// Each stored hash mapped to the encoding stored under it.
    closed spec fn view(&self) -> Map<Seq<u8>, Seq<u8>> {
        Map::new(
            |h: Seq<u8>| lookup_entry(self.nodes@, h) is Some,
            |h: Seq<u8>| lookup_entry(self.nodes@, h)->Some_0,
        )
    }
}

proof fn lemma_lookup_some(entries: Seq<(NodeRef, Vec<u8>)>, h: Seq<u8>) -> (i: int)
    requires
        lookup_entry(entries, h) is Some,
    ensures
        0 <= i < entries.len(),
        entries[i].0@ == h,
        lookup_entry(entries, h) == Some(entries[i].1@),
    decreases entries.len(),
{
    if entries.last().0@ == h {
        entries.len() - 1
    } else {
        lemma_lookup_some(entries.drop_last(), h)
    }
}

/// With distinct hashes, each entry is what a lookup of its hash finds.
proof fn lemma_lookup_distinct(entries: Seq<(NodeRef, Vec<u8>)>, i: int)
    requires
        0 <= i < entries.len(),
        forall|a: int, b: int|
            0 <= a < b < entries.len() ==> (#[trigger] entries[a]).0@ != (#[trigger] entries[b]).0@,
    ensures
        lookup_entry(entries, entries[i].0@) == Some(entries[i].1@),
    decreases entries.len(),
{
    if i < entries.len() - 1 {
        let rest = entries.drop_last();
        assert(entries[i].0@ != entries[entries.len() - 1].0@);
        assert forall|a: int, b: int| 0 <= a < b < rest.len() implies (#[trigger] rest[a]).0@ != (
        #[trigger] rest[b]).0@ by {
            assert(rest[a] == entries[a] && rest[b] == entries[b]);
        }
        lemma_lookup_distinct(rest, i);
        assert(rest[i] == entries[i]);
    }
}

proof fn lemma_lookup_push(entries: Seq<(NodeRef, Vec<u8>)>, e: (NodeRef, Vec<u8>), h: Seq<u8>)
    ensures
        lookup_entry(entries.push(e), h) == if e.0@ == h {
            Some(e.1@)
        } else {
            lookup_entry(entries, h)
        },
{
    assert(entries.push(e).drop_last() =~= entries);
}

/// Replacing the last entry with hash `e.0` by `e` is inserting `e`.
proof fn lemma_lookup_update(
    entries: Seq<(NodeRef, Vec<u8>)>,
    j: int,
    e: (NodeRef, Vec<u8>),
    h: Seq<u8>,
)
    requires
        0 <= j < entries.len(),
        entries[j].0@ == e.0@,
        forall|k: int| j < k < entries.len() ==> (#[trigger] entries[k]).0@ != e.0@,
    ensures
        lookup_entry(entries.update(j, e), h) == if e.0@ == h {
            Some(e.1@)
        } else {
            lookup_entry(entries, h)
        },
    decreases entries.len(),
{
    let updated = entries.update(j, e);
    if j == entries.len() - 1 {
        assert(updated.drop_last() =~= entries.drop_last());
    } else {
        assert(updated.drop_last() =~= entries.drop_last().update(j, e));
        assert(entries.last() == entries[entries.len() - 1]);
        lemma_lookup_update(entries.drop_last(), j, e, h);
    }
}

/// Entries that agree hash by hash and encoding by encoding look up alike.
proof fn lemma_lookup_same(a: Seq<(NodeRef, Vec<u8>)>, b: Seq<(NodeRef, Vec<u8>)>, h: Seq<u8>)
    requires
        a.len() == b.len(),
        forall|i: int| 0 <= i < a.len() ==> (#[trigger] a[i]).0 == b[i].0 && a[i].1@ == b[i].1@,
    ensures
        lookup_entry(a, h) == lookup_entry(b, h),
    decreases a.len(),
{
    if a.len() > 0 {
        assert(a.last() == a[a.len() - 1]);
        assert(b.last() == b[b.len() - 1]);
        lemma_lookup_same(a.drop_last(), b.drop_last(), h);
    }
}

/// The keys of a lookup map are the hashes that occur among the entries.
proof fn lemma_lookup_dom(entries: Seq<(NodeRef, Vec<u8>)>, h: Seq<u8>)
    ensures
        (lookup_entry(entries, h) is Some) == entry_keys(entries).contains(h),
    decreases entries.len(),
{
    if entries.len() > 0 {
        lemma_lookup_dom(entries.drop_last(), h);
        let keys = entry_keys(entries);
        let rest = entry_keys(entries.drop_last());
        assert(keys =~= rest.push(entries.last().0@));
        if entries.last().0@ == h {
            assert(keys[keys.len() - 1] == h);
        }
        if rest.contains(h) {
            let k = choose|k: int| 0 <= k < rest.len() && rest[k] == h;
            assert(keys[k] == h);
        }
        if keys.contains(h) && entries.last().0@ != h {
            let k = choose|k: int| 0 <= k < keys.len() && keys[k] == h;
            assert(rest[k] == h);
        }
    }
}

impl MptNodeDb {
    /// The store's invariant: hashes are distinct, each is the Keccak-256
    /// hash of its encoding, and each encoding was recorded as written.
    pub closed spec fn inv(self) -> bool {
        &&& forall|a: int, b: int|
            0 <= a < b < self.nodes@.len() ==> (#[trigger] self.nodes@[a]).0@ != (
            #[trigger] self.nodes@[b]).0@
        &&& forall|i: int|
            0 <= i < self.nodes@.len() ==> (#[trigger] self.nodes@[i]).0@ == spec_keccak256(
                self.nodes@[i].1@,
            )
        &&& forall|i: int|
            0 <= i < self.nodes@.len() ==> self.written@.contains((#[trigger] self.nodes@[i]).1@)
    }

    /// No two distinct encodings ever written to this store share a hash.
    pub closed spec fn collision_free(self) -> bool {
        keccak_injective_on(self.written@)
    }

    /// Every encoding ever written to `self` was written to `other` too.
    pub closed spec fn written_within(self, other: Self) -> bool {
        self.written@.subset_of(other.written@)
    }

    /// A store has written what it has written.
    pub proof fn lemma_written_within_refl(self)
        ensures
            self.written_within(self),
    {
    }

    /// What `a` wrote, `b` wrote, and what `b` wrote, `c` wrote: so `c` wrote
    /// what `a` wrote, and a `c` free of collisions makes `a` free of them.
    pub proof fn lemma_written_within_trans(a: Self, b: Self, c: Self)
        requires
            a.written_within(b),
            b.written_within(c),
        ensures
            a.written_within(c),
            c.collision_free() ==> a.collision_free(),
    {
        if c.collision_free() {
            assert forall|x: Seq<u8>, y: Seq<u8>|
                a.written@.contains(x) && a.written@.contains(y) && spec_keccak256(x)
                    == spec_keccak256(y) implies x == y by {
                assert(c.written@.contains(x) && c.written@.contains(y));
            }
        }
    }

    /// The number of stored entries.
    pub closed spec fn spec_len(self) -> nat {
        self.nodes@.len()
    }

    /// Every stored encoding hashes to the hash it is stored under.
    pub proof fn lemma_content_addressed(self, h: Seq<u8>)
        requires
            self.inv(),
            self@.contains_key(h),
        ensures
            spec_keccak256(self@[h]) == h,
    {
        let i = lemma_lookup_some(self.nodes@, h);
    }

    /// The store holds as many entries as its view has keys.
    pub proof fn lemma_len(self)
        requires
            self.inv(),
        ensures
            self@.dom().finite(),
            self@.dom().len() == self.spec_len(),
    {
        let keys = entry_keys(self.nodes@);
        assert forall|h: Seq<u8>| self@.dom().contains(h) == keys.to_set().contains(h) by {
            lemma_lookup_dom(self.nodes@, h);
        }
        assert(self@.dom() =~= keys.to_set());
        assert(keys.no_duplicates()) by {
            assert forall|a: int, b: int|
                0 <= a < keys.len() && 0 <= b < keys.len() && a != b implies keys[a] != keys[b] by {
                if a < b {
                    assert(self.nodes@[a].0@ != self.nodes@[b].0@);
                } else {
                    assert(self.nodes@[b].0@ != self.nodes@[a].0@);
                }
            }
        }
        keys.unique_seq_to_set();
    }

    /// An empty store.
    pub fn new() -> (db: Self)
        ensures
            db@ == Map::<Seq<u8>, Seq<u8>>::empty(),
            db.inv(),
            db.spec_len() == 0,
            db.collision_free(),
    {
        let db = MptNodeDb { nodes: Vec::new(), written: Ghost(Set::empty()) };
        assert(db@ =~= Map::<Seq<u8>, Seq<u8>>::empty());
        db
    }

    /// The index of the last entry stored under `hash`.
    fn find(&self, hash: &NodeRef) -> (index: Option<usize>)
        ensures
            match index {
                Some(i) => {
                    &&& i < self.nodes@.len()
                    &&& self.nodes@[i as int].0@ == hash@
                    &&& forall|k: int| i < k < self.nodes@.len() ==> (#[trigger] self.nodes@[k]).0@ != hash@
                    &&& lookup_entry(self.nodes@, hash@) == Some(self.nodes@[i as int].1@)
                },
                None => lookup_entry(self.nodes@, hash@) is None,
            },
    {
        let mut i = self.nodes.len();
        assert(self.nodes@.take(i as int) =~= self.nodes@);
        while i > 0
            invariant
                i <= self.nodes@.len(),
                lookup_entry(self.nodes@, hash@) == lookup_entry(self.nodes@.take(i as int), hash@),
                forall|k: int| i <= k < self.nodes@.len() ==> (#[trigger] self.nodes@[k]).0@ != hash@,
            decreases i,
        {
            let ghost prefix = self.nodes@.take(i as int);
            assert(prefix.drop_last() =~= self.nodes@.take(i - 1));
            if hash_eq(&self.nodes[i - 1].0, hash) {
                return Some(i - 1);
            }
            i = i - 1;
        }
        None
    }

    /// Encodes `node` and stores the encoding under its Keccak-256 hash,
    /// replacing what was stored under that hash; returns the hash.
    pub fn put(&mut self, node: &MptNode) -> (hash: NodeRef)
        requires
            old(self).inv(),
            node@.has_nibble_paths(),
        ensures
            final(self).inv(),
            hash@ == spec_keccak256(node@.encoding()),
            final(self)@ == old(self)@.insert(hash@, node@.encoding()),
            node@.fits() ==> spec_decode_node(node@.encoding()) == Some(node@.normalize()),
            old(self).written_within(*final(self)),
            final(self).collision_free() ==> old(self).collision_free(),
            final(self).collision_free() ==> old(self)@.submap_of(final(self)@),
    {
        let encoded = node.encode();
        let hash = keccak256(encoded.as_slice());
        let ghost old_nodes = self.nodes@;
        let ghost entry = (hash, encoded);
        let found = self.find(&hash);
        self.written = Ghost(self.written@.insert(encoded@));
        match found {
            Some(j) => {
                self.nodes.set(j, (hash, encoded));
                proof {
                    assert(self.nodes@ == old_nodes.update(j as int, entry));
                    assert forall|h: Seq<u8>|
                        lookup_entry(self.nodes@, h) == (if hash@ == h {
                            Some(entry.1@)
                        } else {
                            lookup_entry(old_nodes, h)
                        }) by {
                        lemma_lookup_update(old_nodes, j as int, entry, h);
                    }
                }
            },
            None => {
                proof {
                    assert forall|i: int| 0 <= i < old_nodes.len() implies (#[trigger] old_nodes[i]).0@
                        != hash@ by {
                        if old_nodes[i].0@ == hash@ {
                            lemma_lookup_dom(old_nodes, hash@);
                            assert(entry_keys(old_nodes)[i] == hash@);
                        }
                    }
                }
                self.nodes.push((hash, encoded));
                proof {
                    assert forall|h: Seq<u8>|
                        lookup_entry(self.nodes@, h) == (if hash@ == h {
                            Some(entry.1@)
                        } else {
                            lookup_entry(old_nodes, h)
                        }) by {
                        lemma_lookup_push(old_nodes, entry, h);
                    }
                }
            },
        }
        proof {
            assert(self@ =~= old(self)@.insert(hash@, encoded@));
            if self.collision_free() {
                assert forall|a: Seq<u8>, b: Seq<u8>|
                    old(self).written@.contains(a) && old(self).written@.contains(b) && spec_keccak256(a)
                        == spec_keccak256(b) implies a == b by {
                    assert(self.written@.contains(a) && self.written@.contains(b));
                }
                assert forall|h: Seq<u8>| #[trigger] old(self)@.contains_key(h) implies self@.contains_key(h)
                    && self@[h] == old(self)@[h] by {
                    if h == hash@ {
                        let i = lemma_lookup_some(old_nodes, h);
                        assert(self.written@.contains(old_nodes[i].1@));
                        assert(self.written@.contains(encoded@));
                    }
                }
            }
        }
        hash
    }

    /// The encoding stored under `hash`, if any.
    pub fn get_encoded(&self, hash: NodeRef) -> (encoded: Option<&[u8]>)
        ensures
            match encoded {
                Some(e) => self@.contains_key(hash@) && self@[hash@] == e@,
                None => !self@.contains_key(hash@),
            },
    {
        match self.find(&hash) {
            Some(i) => Some(self.nodes[i].1.as_slice()),
            None => None,
        }
    }

    /// The node stored under `hash`, decoded; `None` when nothing is stored
    /// there or the stored bytes do not decode.
    pub fn get(&self, hash: NodeRef) -> (node: Option<MptNode>)
        ensures
            match node {
                Some(n) => self@.contains_key(hash@) && spec_decode_node(self@[hash@]) == Some(n@),
                None => !self@.contains_key(hash@) || spec_decode_node(self@[hash@]) is None,
            },
    {
        match self.get_encoded(hash) {
            Some(encoded) => MptNode::decode(encoded),
            None => None,
        }
    }

    /// Whether `node`, a well-formed node, may stand in a sound store with
    /// this store's keys: its references stored here, its extension path
    /// and leaf value not empty, and its contents within `max_len()`.
    fn is_good_node(&self, node: &MptNode) -> (ok: bool)
        requires
            node@.well_formed(),
        ensures
            ok == good_node(self@, node@),
    {
        let limit: u64 = 0xffff_fc00;
        match node {
            MptNode::Branch { children, value } => {
                let ghost cs = children@.map_values(|c: Option<NodeRef>| child_view(c));
                assert(node@ == (NodeView::Branch { children: cs, value: opt_view(*value) }));
                let mut i: usize = 0;
                while i < 16
                    invariant
                        i <= 16,
                        children@.len() == 16,
                        cs == children@.map_values(|c: Option<NodeRef>| child_view(c)),
                        node@ == (NodeView::Branch { children: cs, value: opt_view(*value) }),
                        forall|j: int|
                            0 <= j < i ==> (#[trigger] cs[j] matches Some(c) ==> self@.contains_key(c)),
                    decreases 16 - i,
                {
                    assert(cs[i as int] == child_view(children@[i as int]));
                    match children[i] {
                        Some(c) => {
                            if !self.contains(c) {
                                assert(cs[i as int] == Some(c@));
                                assert(!(cs[i as int] matches Some(x) ==> self@.contains_key(x)));
                                return false;
                            }
                        },
                        None => {},
                    }
                    i = i + 1;
                }
                match value {
                    Some(v) => (v.len() as u64) < limit,
                    None => true,
                }
            },
            MptNode::Leaf { path, value } => {
                let half = (path.len() / 2) as u64;
                let len = value.len() as u64;
                len > 0 && half < limit && len < limit - half
            },
            MptNode::Extension { path, child } => {
                let half = (path.len() / 2) as u64;
                path.len() > 0 && half < limit && self.contains(*child)
            },
        }
    }

    /// Checks the store entry by entry and records each stored encoding as
    /// written. True when the hashes are distinct, each is the Keccak-256
    /// hash of its encoding, and each encoding decodes to a node that may
    /// stand in a sound store and of which it is the encoding; then the
    /// store holds its invariant and is sound. The entries do not change.
    pub fn check_well_kept(&mut self) -> (ok: bool)
        ensures
            final(self)@ == old(self)@,
            final(self).spec_len() == old(self).spec_len(),
            old(self).written_within(*final(self)),
            final(self).collision_free() ==> old(self).collision_free(),
            ok ==> final(self).inv() && sound(final(self)@),
            old(self).inv() && sound(old(self)@) ==> ok,
    {
        let ghost stored = Set::new(
            |e: Seq<u8>| exists|i: int| 0 <= i < self.nodes@.len() && (#[trigger] self.nodes@[i]).1@ == e,
        );
        self.written = Ghost(self.written@.union(stored));
        let ghost nodes0 = self.nodes@;
        let ghost written1 = self.written@;
        proof {
            assert(old(self).written_within(*self));
            if self.collision_free() {
                assert forall|a: Seq<u8>, b: Seq<u8>|
                    old(self).written@.contains(a) && old(self).written@.contains(b)
                        && spec_keccak256(a) == spec_keccak256(b) implies a == b by {
                    assert(self.written@.contains(a) && self.written@.contains(b));
                }
            }
            assert forall|i: int| 0 <= i < self.nodes@.len() implies self.written@.contains(
                (#[trigger] self.nodes@[i]).1@,
            ) by {
                assert(stored.contains(self.nodes@[i].1@));
            }
        }
        let n = self.nodes.len();
        let mut i: usize = 0;
        while i < n
            invariant
                n == self.nodes@.len(),
                i <= n,
                self.nodes@ == nodes0,
                self.written@ == written1,
                self@ == old(self)@,
                self.spec_len() == old(self).spec_len(),
                self.nodes@ == old(self).nodes@,
                old(self).written_within(*self),
                self.collision_free() ==> old(self).collision_free(),
                forall|a: int, b: int| 0 <= a < b < i ==> (#[trigger] self.nodes@[a]).0@ != (
                    #[trigger] self.nodes@[b]).0@,
                forall|j: int|
                    0 <= j < i ==> (#[trigger] self.nodes@[j]).0@ == spec_keccak256(
                        self.nodes@[j].1@,
                    ),
                forall|j: int|
                    0 <= j < i ==> (spec_decode_node((#[trigger] self.nodes@[j]).1@) matches Some(
                        node,
                    ) && good_node(self@, node) && self.nodes@[j].1@ == node.encoding()),
            decreases n - i,
        {
            proof {
                if old(self).inv() && sound(old(self)@) {
                    lemma_lookup_distinct(self.nodes@, i as int);
                    assert(self@.contains_key(self.nodes@[i as int].0@));
                }
            }
            let hash = keccak256(self.nodes[i].1.as_slice());
            if !hash_eq(&hash, &self.nodes[i].0) {
                return false;
            }
            let mut j: usize = 0;
            while j < i
                invariant
                    n == self.nodes@.len(),
                    j <= i < n,
                    self@ == old(self)@,
                    self.spec_len() == old(self).spec_len(),
                    self.nodes@ == old(self).nodes@,
                    old(self).written_within(*self),
                    self.collision_free() ==> old(self).collision_free(),
                    forall|a: int| 0 <= a < j ==> (#[trigger] self.nodes@[a]).0@ != self.nodes@[i as int].0@,
                decreases i - j,
            {
                if hash_eq(&self.nodes[j].0, &self.nodes[i].0) {
                    proof {
                        if old(self).inv() {
                            assert(self.nodes@[j as int].0@ != self.nodes@[i as int].0@);
                        }
                    }
                    return false;
                }
                j = j + 1;
            }
            let node = match MptNode::decode(self.nodes[i].1.as_slice()) {
                Some(node) => node,
                None => return false,
            };
            proof {
                lemma_decode_well_formed(self.nodes@[i as int].1@);
            }
            if !self.is_good_node(&node) {
                return false;
            }
            let encoded = node.encode();
            if !bytes_eq(encoded.as_slice(), self.nodes[i].1.as_slice()) {
                return false;
            }
            i = i + 1;
        }
        proof {
            assert forall|h: Seq<u8>| #[trigger] self@.contains_key(h) implies (spec_decode_node(
                self@[h],
            ) matches Some(x) && good_node(self@, x) && self@[h] == x.encoding()) by {
                let k = lemma_lookup_some(self.nodes@, h);
                assert(self.nodes@[k] == self.nodes@[k]);
            }
        }
        true
    }

    /// Whether anything is stored under `hash`.
    pub fn contains(&self, hash: NodeRef) -> (found: bool)
        ensures
            found == self@.contains_key(hash@),
    {
        self.find(&hash).is_some()
    }

    /// A copy of the store, entry by entry, with the same record of writes.
    pub fn duplicate(&self) -> (d: Self)
        ensures
            d@ == self@,
            d.inv() == self.inv(),
            d.collision_free() == self.collision_free(),
            d.spec_len() == self.spec_len(),
            d.written_within(*self),
            self.written_within(d),
    {
        let mut nodes: Vec<(NodeRef, Vec<u8>)> = Vec::new();
        for i in 0..self.nodes.len()
            invariant
                nodes@.len() == i,
                i <= self.nodes@.len(),
                forall|j: int|
                    0 <= j < i ==> (#[trigger] nodes@[j]).0 == self.nodes@[j].0 && nodes@[j].1@
                        == self.nodes@[j].1@,
        {
            let hash = self.nodes[i].0;
            let encoded = crate::nibbles::copy_bytes(self.nodes[i].1.as_slice());
            nodes.push((hash, encoded));
        }
        let d = MptNodeDb { nodes, written: Ghost(self.written@) };
        proof {
            assert forall|h: Seq<u8>| lookup_entry(d.nodes@, h) == lookup_entry(self.nodes@, h) by {
                lemma_lookup_same(d.nodes@, self.nodes@, h);
            }
            assert(d@ =~= self@);
            assert(d.written@ =~= self.written@);
            assert forall|i: int| 0 <= i < d.nodes@.len() implies (#[trigger] d.nodes@[i]).0@ == self.nodes@[i].0@
                && d.nodes@[i].1@ == self.nodes@[i].1@ by {}
            if self.inv() {
                assert forall|a: int, b: int|
                    0 <= a < b < d.nodes@.len() implies (#[trigger] d.nodes@[a]).0@ != (
                    #[trigger] d.nodes@[b]).0@ by {
                    assert(self.nodes@[a].0@ != self.nodes@[b].0@);
                }
            }
            if d.inv() {
                assert forall|a: int, b: int|
                    0 <= a < b < self.nodes@.len() implies (#[trigger] self.nodes@[a]).0@ != (
                    #[trigger] self.nodes@[b]).0@ by {
                    assert(d.nodes@[a].0@ != d.nodes@[b].0@);
                }
                assert forall|i: int| 0 <= i < self.nodes@.len() implies (#[trigger] self.nodes@[i]).0@
                    == spec_keccak256(self.nodes@[i].1@) by {
                    assert(d.nodes@[i].0@ == spec_keccak256(d.nodes@[i].1@));
                }
                assert forall|i: int| 0 <= i < self.nodes@.len() implies self.written@.contains(
                    (#[trigger] self.nodes@[i]).1@,
                ) by {
                    assert(d.written@.contains(d.nodes@[i].1@));
                }
            }
        }
        d
    }

    /// The number of stored nodes.
    pub fn len(&self) -> (n: usize)
        requires
            self.inv(),
        ensures
            n == self@.len(),
            n == self.spec_len(),
    {
        proof {
            self.lemma_len();
        }
        self.nodes.len()
    }

    /// The number of stored entries, as the walk's fuel.
    pub(crate) fn entry_count(&self) -> (n: usize)
        ensures
            n == self.spec_len(),
    {
        self.nodes.len()
    }

    /// Whether the store is empty.
    pub fn is_empty(&self) -> (empty: bool)
        requires
            self.inv(),
        ensures
            empty == (self@.len() == 0),
    {
        proof {
            self.lemma_len();
        }
        self.nodes.len() == 0
    }
}

impl Default for MptNodeDb {
    /// The same as `MptNodeDb::new()`.
    fn default() -> (d: Self)
        ensures
            d@ == Map::<Seq<u8>, Seq<u8>>::empty(),
            d.inv(),
            d.spec_len() == 0,
            d.collision_free(),
    {
        MptNodeDb::new()
    }
}

/// Compares two hashes byte by byte.
pub(crate) fn hash_eq(a: &NodeRef, b: &NodeRef) -> (eq: bool)
    ensures
        eq == (a@ == b@),
{
    let mut i: usize = 0;
    while i < 32
        invariant
            i <= 32,
            forall|j: int| 0 <= j < i ==> a@[j] == b@[j],
        decreases 32 - i,
    {
        if a[i] != b[i] {
            return false;
        }
        i = i + 1;
    }
    assert(a@ =~= b@);
    true
}

} // verus!
