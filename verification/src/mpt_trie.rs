//! The Merkle Patricia Trie over a node store: lookup, inclusion proofs,
//! proof verification and insertion.
use vstd::prelude::*;

use crate::canonical::{
    canon_at, canonical_branch, canonical_node, is_branch_at, lemma_canon_branch,
    lemma_canon_branch_stored, lemma_canon_extension, lemma_canon_leaf, lemma_canon_parts,
    lemma_canon_replace_child, lemma_canon_set_value, lemma_canon_unique, lemma_canon_witness,
    lemma_canonical_node_stable, lemma_canonical_stable,
};
use crate::crypto::{keccak256, spec_keccak256};
use crate::mpt::{child_view, opt_bytes, spec_decode_node, MptNode, NodeRef, NodeView};
use crate::nibbles::{
    bytes_to_nibbles, common_prefix_len, copy_bytes, is_nibble_path, prefix_to_vec, slice_to_vec,
    spec_nibbles, Nibble,
};
use crate::node_db::{hash_eq, MptNodeDb};
use crate::trie_facts::{
    good_node, lemma_decode_well_formed, lemma_first_rest, lemma_good_fits, lemma_nibbles_injective,
    lemma_put_sound, lemma_split_eq, lemma_starts_split, lemma_walk_fuel, lemma_walk_put,
    lemma_walk_stable, lemma_walk_unfold, max_len, node_sem, sound,
};

verus! {

/// `prefix` is a prefix of `path`.
pub open spec fn starts_with(path: Seq<u8>, prefix: Seq<u8>) -> bool {
    prefix.len() <= path.len() && path.take(prefix.len() as int) == prefix
}

/// The child reference in the slot of `nibble`; a value above 15 selects no slot.
pub open spec fn child_at(children: Seq<Option<Seq<u8>>>, nibble: u8) -> Option<Seq<u8>> {
    if nibble < 16 {
        children[nibble as int]
    } else {
        None
    }
}

/// The value that a walk from the node stored under `h` along the nibble
/// path `path` reaches in the store `m`: a branch's value where the path
/// ends at a branch, a leaf's value where the rest of the path equals the
/// leaf's path, `None` where a node is missing or undecodable, a child slot
/// is empty or a path diverges. Following an extension with an empty path
/// consumes one unit of `fuel`.
pub open spec fn walk(m: Map<Seq<u8>, Seq<u8>>, h: Seq<u8>, path: Seq<u8>, fuel: nat) -> Option<
    Seq<u8>,
>
    decreases path.len(), fuel,
{
    if !m.contains_key(h) {
        None
    } else {
        match spec_decode_node(m[h]) {
            Some(NodeView::Branch { children, value }) => if path.len() == 0 {
                value
            } else {
                match child_at(children, path[0]) {
                    Some(c) => walk(m, c, path.skip(1), fuel),
                    None => None,
                }
            },
            Some(NodeView::Leaf { path: p, value }) => if p == path {
                Some(value)
            } else {
                None
            },
            Some(NodeView::Extension { path: p, child }) => if starts_with(path, p) {
                if p.len() == 0 {
                    if fuel == 0 {
                        None
                    } else {
                        walk(m, child, path, (fuel - 1) as nat)
                    }
                } else {
                    walk(m, child, path.skip(p.len() as int), fuel)
                }
            } else {
                None
            },
            None => None,
        }
    }
}

/// `first` followed by the nodes of `rest`, if there is a rest.
pub open spec fn prepend(first: Seq<Seq<u8>>, rest: Option<Seq<Seq<u8>>>) -> Option<Seq<Seq<u8>>> {
    match rest {
        Some(r) => Some(first + r),
        None => None,
    }
}

/// The encodings of the nodes that the walk for `path` visits, when the walk
/// reaches a value (a branch without a value at the path's end gives `None`).
pub open spec fn walk_proof(m: Map<Seq<u8>, Seq<u8>>, h: Seq<u8>, path: Seq<u8>, fuel: nat) -> Option<
    Seq<Seq<u8>>,
>
    decreases path.len(), fuel,
{
    if !m.contains_key(h) {
        None
    } else {
        let e = m[h];
        match spec_decode_node(e) {
            Some(NodeView::Branch { children, value }) => if path.len() == 0 {
                if value is Some {
                    Some(seq![e])
                } else {
                    None
                }
            } else {
                match child_at(children, path[0]) {
                    Some(c) => prepend(seq![e], walk_proof(m, c, path.skip(1), fuel)),
                    None => None,
                }
            },
            Some(NodeView::Leaf { path: p, .. }) => if p == path {
                Some(seq![e])
            } else {
                None
            },
            Some(NodeView::Extension { path: p, child }) => if starts_with(path, p) {
                if p.len() == 0 {
                    if fuel == 0 {
                        None
                    } else {
                        prepend(seq![e], walk_proof(m, child, path, (fuel - 1) as nat))
                    }
                } else {
                    prepend(seq![e], walk_proof(m, child, path.skip(p.len() as int), fuel))
                }
            } else {
                None
            },
            None => None,
        }
    }
}

/// Whether `proof` leads from the hash `h` along `path` to `expected`: each
/// node hashes to the reference that led to it and decodes, the walk follows
/// the path, and the last node holds `expected` where the path ends.
pub open spec fn verify_rest(h: Seq<u8>, path: Seq<u8>, expected: Seq<u8>, nodes: Seq<Seq<u8>>) -> bool
    decreases nodes.len(),
{
    if nodes.len() == 0 {
        false
    } else if spec_keccak256(nodes[0]) != h {
        false
    } else {
        match spec_decode_node(nodes[0]) {
            Some(NodeView::Branch { children, value }) => if path.len() == 0 {
                nodes.len() == 1 && value == Some(expected)
            } else {
                match child_at(children, path[0]) {
                    Some(c) => verify_rest(c, path.skip(1), expected, nodes.skip(1)),
                    None => false,
                }
            },
            Some(NodeView::Leaf { path: p, value }) => nodes.len() == 1 && path == p && expected
                == value,
            Some(NodeView::Extension { path: p, child }) => if starts_with(path, p) {
                verify_rest(child, path.skip(p.len() as int), expected, nodes.skip(1))
            } else {
                false
            },
            None => false,
        }
    }
}

/// What `verify_mpt_proof` answers.
pub open spec fn spec_verify_mpt_proof(
    root: Seq<u8>,
    key: Seq<u8>,
    expected: Seq<u8>,
    nodes: Seq<Seq<u8>>,
) -> bool {
    verify_rest(root, spec_nibbles(key), expected, nodes)
}

/// The encoded nodes of an inclusion nodes, from the root down.
pub type ProofNodes = Vec<Vec<u8>>;

/// The byte strings of a list of byte vectors.
pub open spec fn bytes_list_view(v: Seq<Vec<u8>>) -> Seq<Seq<u8>> {
    v.map_values(|x: Vec<u8>| x@)
}

/// An optional byte vector as an optional sequence.
pub open spec fn opt_view(v: Option<Vec<u8>>) -> Option<Seq<u8>> {
    match v {
        Some(x) => Some(x@),
        None => None,
    }
}

/// The 32 zero bytes that stand for the root of an empty trie.
pub open spec fn empty_root() -> Seq<u8> {
    Seq::new(32, |i: int| 0u8)
}

/// Each node of `nodes` whose hash `m` stores is the encoding stored there.
pub open spec fn nodes_agree(m: Map<Seq<u8>, Seq<u8>>, nodes: Seq<Seq<u8>>) -> bool {
    forall|i: int|
        0 <= i < nodes.len() && m.contains_key(spec_keccak256(nodes[i])) ==> m[spec_keccak256(
            nodes[i],
        )] == #[trigger] nodes[i]
}

/// A proof that leads from a stored node along `path` to `expected`, and
/// whose nodes agree with the store where their hashes are stored, follows
/// the store's own nodes: the walk from that node reaches `expected`.
proof fn lemma_verify_rest_sound(
    m: Map<Seq<u8>, Seq<u8>>,
    h: Seq<u8>,
    path: Seq<u8>,
    expected: Seq<u8>,
    nodes: Seq<Seq<u8>>,
)
    requires
        sound(m),
        m.contains_key(h),
        verify_rest(h, path, expected, nodes),
        nodes_agree(m, nodes),
    ensures
        walk(m, h, path, 0) == Some(expected),
    decreases nodes.len(),
{
    assert(m[spec_keccak256(nodes[0])] == nodes[0]);
    let rest = nodes.skip(1);
    assert forall|i: int|
        0 <= i < rest.len() && m.contains_key(spec_keccak256(rest[i])) implies m[spec_keccak256(
        rest[i],
    )] == #[trigger] rest[i] by {
        assert(rest[i] == nodes[i + 1]);
    }
    match spec_decode_node(nodes[0]) {
        Some(NodeView::Branch { children, value }) => {
            if path.len() > 0 {
                let c = child_at(children, path[0])->Some_0;
                assert(children[path[0] as int] matches Some(x) ==> m.contains_key(x));
                lemma_verify_rest_sound(m, c, path.skip(1), expected, rest);
            }
        },
        Some(NodeView::Extension { path: p, child }) => {
            lemma_verify_rest_sound(m, child, path.skip(p.len() as int), expected, rest);
        },
        _ => {},
    }
}

/// The nodes that a walk visits, checked against the hashes that lead to
/// them, verify the value that the walk reaches.
proof fn lemma_walk_proof_verifies(db: MptNodeDb, h: Seq<u8>, path: Seq<u8>, fuel: nat)
    requires
        db.inv(),
        walk_proof(db@, h, path, fuel) is Some,
    ensures
        walk(db@, h, path, fuel) is Some,
        verify_rest(h, path, walk(db@, h, path, fuel)->Some_0, walk_proof(db@, h, path, fuel)->Some_0),
    decreases path.len(), fuel,
{
    let m = db@;
    let e = m[h];
    db.lemma_content_addressed(h);
    let nodes = walk_proof(m, h, path, fuel)->Some_0;
    assert(nodes[0] == e);
    match spec_decode_node(e) {
        Some(NodeView::Branch { children, value }) => {
            if path.len() > 0 {
                let c = children[path[0] as int]->Some_0;
                lemma_walk_proof_verifies(db, c, path.skip(1), fuel);
                assert(nodes.skip(1) =~= walk_proof(m, c, path.skip(1), fuel)->Some_0);
            }
        },
        Some(NodeView::Leaf { .. }) => {},
        Some(NodeView::Extension { path: p, child }) => {
            if p.len() == 0 {
                lemma_walk_proof_verifies(db, child, path, (fuel - 1) as nat);
                assert(path.skip(0) =~= path);
                assert(nodes.skip(1) =~= walk_proof(m, child, path, (fuel - 1) as nat)->Some_0);
            } else {
                lemma_walk_proof_verifies(db, child, path.skip(p.len() as int), fuel);
                assert(nodes.skip(1) =~= walk_proof(m, child, path.skip(p.len() as int), fuel)->Some_0);
            }
        },
        None => {},
    }
}

/// `b` is `a` after some writes: `b` keeps the invariant and everything `a`
/// wrote, its keys include `a`'s, and where no two written encodings share
/// a hash, `b` agrees with `a` on `a`'s keys.
pub open spec fn db_step(a: MptNodeDb, b: MptNodeDb) -> bool {
    &&& b.inv()
    &&& a.written_within(b)
    &&& (b.collision_free() ==> a.collision_free())
    &&& (b.collision_free() ==> a@.submap_of(b@))
    &&& a@.dom().subset_of(b@.dom())
}

/// A store is a step from itself.
pub(crate) proof fn lemma_db_step_refl(a: MptNodeDb)
    requires
        a.inv(),
    ensures
        db_step(a, a),
{
    a.lemma_written_within_refl();
    assert(a@.submap_of(a@));
}

/// Two steps make a step.
pub(crate) proof fn lemma_db_step_trans(a: MptNodeDb, b: MptNodeDb, c: MptNodeDb)
    requires
        db_step(a, b),
        db_step(b, c),
    ensures
        db_step(a, c),
{
    MptNodeDb::lemma_written_within_trans(a, b, c);
    if c.collision_free() {
        assert(a@.submap_of(c@));
    }
}

/// What a walk from an optional node finds for `q`: nothing from no node.
pub open spec fn sub_walk(m: Map<Seq<u8>, Seq<u8>>, h: Option<Seq<u8>>, q: Seq<u8>) -> Option<Seq<u8>> {
    match h {
        Some(h) => walk(m, h, q, 0),
        None => None,
    }
}

/// `found`, except that `path` finds `value`.
pub open spec fn updated(found: Option<Seq<u8>>, q: Seq<u8>, path: Seq<u8>, value: Seq<u8>) -> Option<
    Seq<u8>,
> {
    if q == path {
        Some(value)
    } else {
        found
    }
}

/// What a leaf holding `value` at `path` finds for `q`.
pub open spec fn leaf_sem(path: Seq<u8>, value: Seq<u8>, q: Seq<u8>) -> Option<Seq<u8>> {
    if q == path {
        Some(value)
    } else {
        None
    }
}

/// Whether an insertion along `path` from the optional node `h` finds each
/// node it must rewrite stored and decodable.
pub open spec fn insert_path_ok(
    m: Map<Seq<u8>, Seq<u8>>,
    h: Option<Seq<u8>>,
    path: Seq<u8>,
    fuel: nat,
) -> bool
    decreases path.len(), fuel,
{
    match h {
        None => true,
        Some(h) => m.contains_key(h) && match spec_decode_node(m[h]) {
            Some(NodeView::Branch { children, .. }) => path.len() == 0 || insert_path_ok(
                m,
                child_at(children, path[0]),
                path.skip(1),
                fuel,
            ),
            Some(NodeView::Leaf { .. }) => true,
            Some(NodeView::Extension { path: p, child }) => if starts_with(path, p) {
                if p.len() == 0 {
                    fuel > 0 && insert_path_ok(m, Some(child), path, (fuel - 1) as nat)
                } else {
                    insert_path_ok(m, Some(child), path.skip(p.len() as int), fuel)
                }
            } else {
                true
            },
            None => false,
        },
    }
}

/// A nibble path and a value that a leaf can hold: the value not empty,
/// and the value with the packed path within `max_len()`.
pub open spec fn insertable(path: Seq<u8>, value: Seq<u8>) -> bool {
    0 < value.len() && path.len() / 2 + value.len() < max_len()
}

/// In a sound store, an insertion from a stored node (or from none) finds
/// every node it needs.
proof fn lemma_sound_insert_ok(m: Map<Seq<u8>, Seq<u8>>, h: Option<Seq<u8>>, path: Seq<u8>, fuel: nat)
    requires
        sound(m),
        h matches Some(x) ==> m.contains_key(x),
    ensures
        insert_path_ok(m, h, path, fuel),
    decreases path.len(),
{
    if let Some(x) = h {
        match spec_decode_node(m[x]) {
            Some(NodeView::Branch { children, .. }) => {
                if path.len() > 0 {
                    let c = child_at(children, path[0]);
                    if path[0] < 16 {
                        assert(children[path[0] as int] matches Some(y) ==> m.contains_key(y));
                    }
                    lemma_sound_insert_ok(m, c, path.skip(1), fuel);
                }
            },
            Some(NodeView::Extension { path: p, child }) => {
                if starts_with(path, p) {
                    lemma_sound_insert_ok(m, Some(child), path.skip(p.len() as int), fuel);
                }
            },
            _ => {},
        }
    }
}

/// Where a walk reaches a value, the walk's nodes form a proof.
proof fn lemma_walk_has_proof(m: Map<Seq<u8>, Seq<u8>>, h: Seq<u8>, path: Seq<u8>, fuel: nat)
    requires
        walk(m, h, path, fuel) is Some,
    ensures
        walk_proof(m, h, path, fuel) is Some,
    decreases path.len(), fuel,
{
    match spec_decode_node(m[h]) {
        Some(NodeView::Branch { children, .. }) => {
            if path.len() > 0 {
                lemma_walk_has_proof(m, child_at(children, path[0])->Some_0, path.skip(1), fuel);
            }
        },
        Some(NodeView::Extension { path: p, child }) => {
            if p.len() == 0 {
                lemma_walk_has_proof(m, child, path, (fuel - 1) as nat);
            } else {
                lemma_walk_has_proof(m, child, path.skip(p.len() as int), fuel);
            }
        },
        _ => {},
    }
}

/// A Merkle Patricia Trie: a node store and the hash of the root node, if any.
#[derive(Clone)]
pub struct MptTrie {
    db: MptNodeDb,
    root: Option<NodeRef>,
}

impl View for MptTrie {
    type V = Map<Seq<u8>, Seq<u8>>;

    /// Each key that a lookup finds, mapped to the value found.
    closed spec fn view(&self) -> Map<Seq<u8>, Seq<u8>> {
        Map::new(|k: Seq<u8>| self.lookup(k) is Some, |k: Seq<u8>| self.lookup(k)->Some_0)
    }
}

/// Whether `nibbles[pos..]` equals `path`.
fn rest_equals(nibbles: &[u8], pos: usize, path: &[u8]) -> (eq: bool)
    requires
        pos <= nibbles@.len(),
    ensures
        eq == (nibbles@.skip(pos as int) == path@),
{
    let ghost rest = nibbles@.skip(pos as int);
    if nibbles.len() - pos != path.len() {
        assert(rest.len() != path@.len());
        return false;
    }
    let mut i: usize = 0;
    while i < path.len()
        invariant
            pos <= nibbles@.len(),
            rest == nibbles@.skip(pos as int),
            nibbles@.len() - pos == path@.len(),
            nibbles@.len() <= usize::MAX,
            i <= path@.len(),
            forall|j: int| 0 <= j < i ==> rest[j] == path@[j],
        decreases path@.len() - i,
    {
        if nibbles[pos + i] != path[i] {
            assert(rest[i as int] != path@[i as int]);
            return false;
        }
        i = i + 1;
    }
    assert(rest =~= path@);
    true
}

/// Whether `path` is a prefix of `nibbles[pos..]`.
fn rest_starts_with(nibbles: &[u8], pos: usize, path: &[u8]) -> (yes: bool)
    requires
        pos <= nibbles@.len(),
    ensures
        yes == starts_with(nibbles@.skip(pos as int), path@),
{
    let ghost rest = nibbles@.skip(pos as int);
    if nibbles.len() - pos < path.len() {
        return false;
    }
    let mut i: usize = 0;
    while i < path.len()
        invariant
            pos <= nibbles@.len(),
            rest == nibbles@.skip(pos as int),
            path@.len() <= rest.len(),
            nibbles@.len() <= usize::MAX,
            i <= path@.len(),
            forall|j: int| 0 <= j < i ==> rest[j] == path@[j],
        decreases path@.len() - i,
    {
        if nibbles[pos + i] != path[i] {
            assert(rest.take(path@.len() as int)[i as int] != path@[i as int]);
            return false;
        }
        i = i + 1;
    }
    assert(rest.take(path@.len() as int) =~= path@);
    true
}

impl MptTrie {
    /// What a lookup of `key` finds: nothing in an empty trie, else the walk
    /// from the root along the key's nibbles, with as much fuel as there are
    /// stored nodes.
    pub closed spec fn lookup(self, key: Seq<u8>) -> Option<Seq<u8>> {
        match self.root {
            Some(r) => walk(self.db@, r@, spec_nibbles(key), self.db.spec_len()),
            None => None,
        }
    }

    /// What a lookup and a proof are, and how the view reads them: the walk
    /// and its nodes from the root (none in an empty trie) along the key's
    /// nibbles, with as much fuel as there are stored nodes.
    pub proof fn lemma_lookup_def(self, key: Seq<u8>)
        ensures
            self.lookup(key) == match self.root_ref() {
                Some(r) => walk(self.store()@, r, spec_nibbles(key), self.store().spec_len()),
                None => None,
            },
            self.proof_of(key) == match self.root_ref() {
                Some(r) => walk_proof(self.store()@, r, spec_nibbles(key), self.store().spec_len()),
                None => None,
            },
            self@.contains_key(key) == (self.lookup(key) is Some),
            self@.contains_key(key) ==> Some(self@[key]) == self.lookup(key),
    {
    }

    /// The inclusion proof that `prove` returns for `key`.
    pub closed spec fn proof_of(self, key: Seq<u8>) -> Option<Seq<Seq<u8>>> {
        match self.root {
            Some(r) => walk_proof(self.db@, r@, spec_nibbles(key), self.db.spec_len()),
            None => None,
        }
    }

    /// The trie is well kept: its store holds its invariant and is sound, and
    /// the root, if any, is stored.
    pub closed spec fn wf(self) -> bool {
        &&& self.db.inv()
        &&& sound(self.db@)
        &&& self.root matches Some(r) ==> self.db@.contains_key(r@)
    }

    /// What being well kept means for the trie's store and root.
    pub proof fn lemma_wf_def(self)
        ensures
            self.wf() == (self.store().inv() && sound(self.store()@) && (self.root_ref() matches Some(
                r,
            ) ==> self.store()@.contains_key(r))),
    {
    }

    /// An insertion of `key` finds every node it has to rewrite.
    pub closed spec fn can_insert(self, key: Seq<u8>) -> bool {
        &&& self.db.inv()
        &&& insert_path_ok(self.db@, self.root_ref(), spec_nibbles(key), self.db.spec_len())
    }

    /// The trie is well kept and canonical: its root node, if any, is
    /// canonical, and every nibble path that reaches a value spells a key.
    pub closed spec fn canonical(self) -> bool {
        &&& self.wf()
        &&& self.root matches Some(r) ==> canonical_node(self.db@, r@)
        &&& forall|q: Seq<u8>| #[trigger]
            sub_walk(self.db@, self.root_ref(), q) is Some ==> exists|k: Seq<u8>|
                spec_nibbles(k) == q
    }

    /// A canonical trie is well kept.
    pub proof fn lemma_canonical_wf(self)
        requires
            self.canonical(),
        ensures
            self.wf(),
    {
    }

    /// What a walk from the root of a canonical trie finds is what a
    /// lookup of the key that the walk's path spells finds.
    proof fn lemma_canonical_walk(self, q: Seq<u8>) -> (k: Seq<u8>)
        requires
            self.canonical(),
            sub_walk(self.db@, self.root_ref(), q) is Some,
        ensures
            spec_nibbles(k) == q,
            self@.contains_key(k),
            Some(self@[k]) == sub_walk(self.db@, self.root_ref(), q),
    {
        let k = choose|k: Seq<u8>| spec_nibbles(k) == q;
        let r = self.root->Some_0;
        lemma_walk_fuel(self.db@, r@, q, self.db.spec_len());
        assert(self.lookup(k) == sub_walk(self.db@, self.root_ref(), q));
        k
    }

    /// Canonical tries that hold the same keys and values have the same
    /// root hash, whatever order their entries were inserted in.
    pub proof fn lemma_canonical_same_root(a: Self, b: Self)
        requires
            a.canonical(),
            b.canonical(),
            a@ == b@,
        ensures
            a.root_ref() == b.root_ref(),
            a.spec_root_hash() == b.spec_root_hash(),
    {
        MptTrie::lemma_canonical_root_side(a, b);
        MptTrie::lemma_canonical_root_side(b, a);
        if let (Some(r1), Some(r2)) = (a.root, b.root) {
            let m1 = a.db@;
            let m2 = b.db@;
            assert forall|q: Seq<u8>| #[trigger] walk(m1, r1@, q, 0) == walk(m2, r2@, q, 0) by {
                if walk(m1, r1@, q, 0) is Some {
                    let k = a.lemma_canonical_walk(q);
                    assert(b@.contains_key(k));
                    let k2 = b.lemma_canonical_walk_of(k);
                } else if walk(m2, r2@, q, 0) is Some {
                    let k = b.lemma_canonical_walk(q);
                    assert(a@.contains_key(k));
                    let k2 = a.lemma_canonical_walk_of(k);
                }
            }
            let d1 = choose|d: nat| canon_at(m1, r1@, d);
            let d2 = choose|d: nat| canon_at(m2, r2@, d);
            lemma_canon_unique(a.db, b.db, r1@, r2@, d1, d2);
            assert(r1 =~= r2);
        }
    }

    /// A lookup in a canonical trie is a walk from its root along the key's
    /// nibbles.
    proof fn lemma_canonical_walk_of(self, k: Seq<u8>) -> (q: Seq<u8>)
        requires
            self.canonical(),
        ensures
            q == spec_nibbles(k),
            self.lookup(k) == sub_walk(self.db@, self.root_ref(), q),
            self@.contains_key(k) == (self.lookup(k) is Some),
            self@.contains_key(k) ==> self.lookup(k) == Some(self@[k]),
    {
        if let Some(r) = self.root {
            lemma_walk_fuel(self.db@, r@, spec_nibbles(k), self.db.spec_len());
        }
        spec_nibbles(k)
    }

    /// A canonical trie with a root holds a value, so it is not equal to an
    /// empty one.
    proof fn lemma_canonical_root_side(a: Self, b: Self)
        requires
            a.canonical(),
            b.canonical(),
            a@ == b@,
        ensures
            a.root is Some ==> b.root is Some,
    {
        if let Some(r1) = a.root {
            let d = choose|d: nat| canon_at(a.db@, r1@, d);
            let q = lemma_canon_witness(a.db@, r1@, d);
            let k = a.lemma_canonical_walk(q);
            assert(b@.contains_key(k));
            let q2 = b.lemma_canonical_walk_of(k);
        }
    }

    /// Any key can be inserted into a well-kept trie.
    pub proof fn lemma_wf_can_insert(self, key: Seq<u8>)
        requires
            self.wf(),
        ensures
            self.can_insert(key),
    {
        lemma_sound_insert_ok(self.db@, self.root_ref(), spec_nibbles(key), self.db.spec_len());
    }

    /// `a` and `b` hold the same entries, record the same writes and have the
    /// same root.
    pub closed spec fn same_trie(a: Self, b: Self) -> bool {
        &&& a.db@ == b.db@
        &&& a.db.inv() == b.db.inv()
        &&& a.db.collision_free() == b.db.collision_free()
        &&& a.db.spec_len() == b.db.spec_len()
        &&& a.root == b.root
    }

    /// Tries that are the same answer every question alike.
    pub proof fn lemma_same_trie(a: Self, b: Self)
        requires
            Self::same_trie(a, b),
        ensures
            a@ == b@,
            a.wf() == b.wf(),
            a.root_ref() == b.root_ref(),
            a.spec_root_hash() == b.spec_root_hash(),
            a.store().inv() == b.store().inv(),
            a.store().collision_free() == b.store().collision_free(),
            forall|k: Seq<u8>| #[trigger] a.can_insert(k) == b.can_insert(k),
            forall|k: Seq<u8>| #[trigger] a.proof_of(k) == b.proof_of(k),
    {
        assert(a@ =~= b@);
    }

    /// A trie reopened from another's store and root reads as that trie: the
    /// same keys and values, the same proofs and the same root hash.
    pub proof fn lemma_reopen(a: Self, b: Self)
        requires
            a.store() == b.store(),
            a.root_ref() == b.root_ref(),
        ensures
            a@ == b@,
            a.wf() == b.wf(),
            a.spec_root_hash() == b.spec_root_hash(),
            forall|k: Seq<u8>| #[trigger] a.proof_of(k) == b.proof_of(k),
    {
        if let (Some(x), Some(y)) = (a.root, b.root) {
            assert(x =~= y);
        }
        assert(a.root == b.root);
        assert(a@ =~= b@);
    }

    /// A copy of the trie.
    pub fn duplicate(&self) -> (d: Self)
        ensures
            Self::same_trie(d, *self),
    {
        MptTrie { db: self.db.duplicate(), root: self.root }
    }

    /// The hash of the root node, if the trie is not empty.
    pub closed spec fn root_ref(self) -> Option<Seq<u8>> {
        match self.root {
            Some(r) => Some(r@),
            None => None,
        }
    }

    /// The root hash as `root_hash` reports it.
    pub open spec fn spec_root_hash(self) -> Seq<u8> {
        match self.root_ref() {
            Some(r) => r,
            None => empty_root(),
        }
    }

    /// The node store.
    pub closed spec fn store(self) -> MptNodeDb {
        self.db
    }

    /// The proof that `prove` gives for a key verifies, against the trie's
    /// root hash, the value that `get` gives for that key.
    pub proof fn lemma_prove_then_verify(self, key: Seq<u8>)
        requires
            self.store().inv(),
            self.proof_of(key) is Some,
        ensures
            self@.contains_key(key),
            spec_verify_mpt_proof(self.spec_root_hash(), key, self@[key], self.proof_of(key)->Some_0),
    {
        let r = self.root->Some_0;
        lemma_walk_proof_verifies(self.db, r@, spec_nibbles(key), self.db.spec_len());
    }

    /// A proof that verifies against the root of a well-kept, nonempty trie,
    /// and whose nodes agree with the trie's store wherever their hashes are
    /// stored, proves the value that the trie holds for the key.
    pub proof fn lemma_verify_then_holds(self, key: Seq<u8>, value: Seq<u8>, nodes: Seq<Seq<u8>>)
        requires
            self.wf(),
            self.root_ref() is Some,
            spec_verify_mpt_proof(self.spec_root_hash(), key, value, nodes),
            nodes_agree(self.store()@, nodes),
        ensures
            self@.contains_key(key),
            self@[key] == value,
    {
        let r = self.root->Some_0;
        lemma_verify_rest_sound(self.db@, r@, spec_nibbles(key), value, nodes);
        lemma_walk_fuel(self.db@, r@, spec_nibbles(key), self.db.spec_len());
        assert(self.lookup(key) == Some(value));
    }

    /// Two values that proofs verify for one key against the root of a
    /// well-kept, nonempty trie, each proof agreeing with the trie's store,
    /// are the same value.
    pub proof fn lemma_verified_values_agree(
        self,
        key: Seq<u8>,
        a: Seq<u8>,
        pa: Seq<Seq<u8>>,
        b: Seq<u8>,
        pb: Seq<Seq<u8>>,
    )
        requires
            self.wf(),
            self.root_ref() is Some,
            spec_verify_mpt_proof(self.spec_root_hash(), key, a, pa),
            nodes_agree(self.store()@, pa),
            spec_verify_mpt_proof(self.spec_root_hash(), key, b, pb),
            nodes_agree(self.store()@, pb),
        ensures
            a == b,
    {
        self.lemma_verify_then_holds(key, a, pa);
        self.lemma_verify_then_holds(key, b, pb);
    }

    /// Encodes and stores a node, returning its hash.
    fn put_node(&mut self, node: &MptNode) -> (hash: NodeRef)
        requires
            old(self).db.inv(),
            node@.has_nibble_paths(),
        ensures
            final(self).root == old(self).root,
            db_step(old(self).db, final(self).db),
            final(self).db@.contains_key(hash@),
            hash@ == spec_keccak256(node@.encoding()),
            good_node(old(self).db@, node@) ==> spec_decode_node(final(self).db@[hash@]) == Some(
                node@.normalize(),
            ),
            sound(old(self).db@) && good_node(old(self).db@, node@) ==> sound(final(self).db@),
            sound(old(self).db@) && good_node(old(self).db@, node@) && final(self).db.collision_free()
                ==> forall|q: Seq<u8>| #[trigger]
                walk(final(self).db@, hash@, q, 0) == node_sem(old(self).db@, node@, q),
    {
        let hash = self.db.put(node);
        proof {
            let m = old(self).db@;
            if good_node(m, node@) {
                lemma_good_fits(m, node@);
            }
            if sound(m) && good_node(m, node@) {
                lemma_good_fits(m, node@);
                lemma_put_sound(m, node@, hash@, node@.encoding());
                if self.db.collision_free() {
                    assert forall|q: Seq<u8>| #[trigger]
                        walk(self.db@, hash@, q, 0) == node_sem(m, node@, q) by {
                        lemma_walk_put(m, self.db@, node@, hash@, q);
                    }
                }
            }
        }
        hash
    }

    /// Puts an extension with the shared path in front of `child`, unless
    /// the shared path is empty.
    fn wrap_shared_path(&mut self, shared_path: &[Nibble], child: NodeRef) -> (r: NodeRef)
        requires
            old(self).db.inv(),
            is_nibble_path(shared_path@),
        ensures
            final(self).root == old(self).root,
            db_step(old(self).db, final(self).db),
            old(self).db@.contains_key(child@) ==> final(self).db@.contains_key(r@),
            sound(old(self).db@) && old(self).db@.contains_key(child@) && shared_path@.len() / 2
                < max_len() ==> sound(final(self).db@),
            sound(old(self).db@) && old(self).db@.contains_key(child@) && shared_path@.len() / 2
                < max_len() && final(self).db.collision_free() ==> forall|q: Seq<u8>| #[trigger]
                walk(final(self).db@, r@, q, 0) == (if starts_with(q, shared_path@) {
                    walk(old(self).db@, child@, q.skip(shared_path@.len() as int), 0)
                } else {
                    None
                }),
            sound(old(self).db@) && shared_path@.len() / 2 < max_len() && final(self).db.collision_free()
                && canonical_node(old(self).db@, child@) && is_branch_at(old(self).db@, child@)
                ==> canonical_node(final(self).db@, r@),
    {
        if shared_path.len() == 0 {
            proof {
                assert forall|q: Seq<u8>| #[trigger] q.skip(0) == q && starts_with(q, shared_path@) by {
                    assert(q.skip(0) =~= q);
                    assert(q.take(0) =~= shared_path@);
                }
                lemma_db_step_refl(self.db);
            }
            child
        } else {
            let node = MptNode::extension(copy_bytes(shared_path), child);
            let r = self.put_node(&node);
            proof {
                let m0 = old(self).db@;
                if sound(m0) && shared_path@.len() / 2 < max_len() && self.db.collision_free()
                    && canonical_node(m0, child@) && is_branch_at(m0, child@) {
                    assert(good_node(m0, node@));
                    lemma_canonical_stable(m0, self.db@, child@);
                    lemma_canon_extension(self.db@, r@);
                }
            }
            r
        }
    }

    /// Hangs `value` off a branch under construction: as the branch's value
    /// when `path` is empty, else as a leaf in the slot of `path`'s first
    /// nibble.
    fn attach_value_to_branch(
        &mut self,
        children: &mut [Option<NodeRef>; 16],
        branch_value: &mut Option<Vec<u8>>,
        path: &[Nibble],
        value: Vec<u8>,
    )
        requires
            old(self).db.inv(),
            is_nibble_path(path@),
        ensures
            final(self).root == old(self).root,
            db_step(old(self).db, final(self).db),
            path@.len() == 0 ==> final(children)@ == old(children)@ && opt_view(*final(branch_value))
                == Some(value@) && final(self).db == old(self).db,
            path@.len() > 0 ==> {
                &&& opt_view(*final(branch_value)) == opt_view(*old(branch_value))
                &&& forall|i: int|
                    0 <= i < 16 && i != path@[0] ==> #[trigger] final(children)@[i] == old(children)@[i]
                &&& final(children)@[path@[0] as int] is Some
                &&& final(self).db@.contains_key(final(children)@[path@[0] as int]->Some_0@)
            },
            0 < path@.len() && sound(old(self).db@) && insertable(path@, value@) ==> sound(
                final(self).db@,
            ),
            0 < path@.len() && insertable(path@, value@) ==> canonical_node(
                final(self).db@,
                final(children)@[path@[0] as int]->Some_0@,
            ),
            0 < path@.len() && sound(old(self).db@) && insertable(path@, value@)
                && final(self).db.collision_free() ==> forall|q: Seq<u8>| #[trigger]
                walk(final(self).db@, final(children)@[path@[0] as int]->Some_0@, q, 0) == leaf_sem(
                    path@.skip(1),
                    value@,
                    q,
                ),
    {
        if path.len() == 0 {
            *branch_value = Some(value);
            proof {
                lemma_db_step_refl(self.db);
            }
            return;
        }
        let index = path[0] as usize;
        assert(path@[0] < 16);
        let ghost value_view = value@;
        let leaf = MptNode::leaf(slice_to_vec(path, 1), value);
        proof {
            assert(is_nibble_path(path@.skip(1))) by {
                assert forall|i: int| 0 <= i < path@.skip(1).len() implies #[trigger] path@.skip(1)[i] < 16 by {
                    assert(path@.skip(1)[i] == path@[i + 1]);
                }
            }
        }
        let hash = self.put_node(&leaf);
        proof {
            if insertable(path@, value_view) {
                assert(good_node(old(self).db@, leaf@));
                lemma_canon_leaf(self.db@, hash@);
            }
        }
        let ghost before = children@;
        children[index] = Some(hash);
        assert(children@ == before.update(index as int, Some(hash)));
    }

    /// Puts a branch that holds two values at two paths that part at the
    /// branch (one of them may end there).
    fn make_branch_from_two_paths(
        &mut self,
        old_path: &[Nibble],
        old_value: Vec<u8>,
        new_path: &[Nibble],
        new_value: Vec<u8>,
    ) -> (r: NodeRef)
        requires
            old(self).db.inv(),
            is_nibble_path(old_path@),
            is_nibble_path(new_path@),
            old_path@ != new_path@,
            old_path@.len() > 0 && new_path@.len() > 0 ==> old_path@[0] != new_path@[0],
        ensures
            final(self).root == old(self).root,
            db_step(old(self).db, final(self).db),
            final(self).db@.contains_key(r@),
            sound(old(self).db@) && insertable(old_path@, old_value@) && insertable(
                new_path@,
                new_value@,
            ) ==> sound(
                final(self).db@,
            ),
            sound(old(self).db@) && insertable(old_path@, old_value@) && insertable(
                new_path@,
                new_value@,
            ) && final(self).db.collision_free()
                ==> canonical_node(final(self).db@, r@) && is_branch_at(final(self).db@, r@),
            sound(old(self).db@) && insertable(old_path@, old_value@) && insertable(
                new_path@,
                new_value@,
            ) && final(self).db.collision_free()
                ==> forall|q: Seq<u8>| #[trigger]
                walk(final(self).db@, r@, q, 0) == updated(
                    leaf_sem(old_path@, old_value@, q),
                    q,
                    new_path@,
                    new_value@,
                ),
    {
        let ghost ov = old_value@;
        let ghost nv = new_value@;
        let mut children: [Option<NodeRef>; 16] = [None; 16];
        let mut branch_value: Option<Vec<u8>> = None;
        let ghost m0 = self.db;
        self.attach_value_to_branch(&mut children, &mut branch_value, old_path, old_value);
        let ghost m1 = self.db;
        let ghost children1 = children@;
        let ghost value1 = opt_view(branch_value);
        self.attach_value_to_branch(&mut children, &mut branch_value, new_path, new_value);
        let ghost m2 = self.db;
        let node = MptNode::Branch { children, value: branch_value };
        let r = self.put_node(&node);
        proof {
            lemma_db_step_trans(m0, m1, m2);
            lemma_db_step_trans(m0, m2, self.db);
            let op = old_path@;
            let np = new_path@;
            if sound(m0@) && insertable(op, ov) && insertable(np, nv) {
                assert(sound(m1@));
                assert(sound(m2@));
                let cv = node@->Branch_children;
                assert forall|i: int| 0 <= i < 16 implies (#[trigger] cv[i] matches Some(c)
                    ==> m2@.contains_key(c)) by {
                    assert(cv[i] == child_view(children@[i]));
                    if op.len() > 0 && i == op[0] {
                        assert(children@[i] == children1[i]);
                    }
                }
                assert(good_node(m2@, node@));
                if self.db.collision_free() {
                    assert(m2.collision_free());
                    assert(m1.collision_free());
                    assert(m1@.submap_of(m2@));
                    assert(m2@.submap_of(self.db@));
                    let nn = node@.normalize();
                    let ncs = nn->Branch_children;
                    assert forall|i: int| 0 <= i < 16 implies (#[trigger] ncs[i] matches Some(c)
                        ==> canonical_node(self.db@, c)) by {
                        assert(ncs[i] == cv[i]);
                        assert(cv[i] == child_view(children@[i]));
                        if let Some(c) = ncs[i] {
                            if op.len() > 0 && i == op[0] && !(np.len() > 0 && i == np[0]) {
                                assert(children@[i] == children1[i]);
                                lemma_canonical_stable(m1@, m2@, c);
                            }
                            lemma_canonical_stable(m2@, self.db@, c);
                        }
                    }
                    if op.len() > 0 {
                        assert(ncs[op[0] as int] is Some);
                    }
                    if np.len() > 0 {
                        assert(ncs[np[0] as int] is Some);
                    }
                    if op.len() == 0 {
                        assert(value1 == Some(ov));
                        assert(np.len() > 0) by {
                            if np.len() == 0 {
                                assert(op =~= np);
                            }
                        }
                        assert(opt_view(branch_value) == Some(ov));
                        assert(opt_bytes(node@->Branch_value) == ov);
                        assert(nn->Branch_value is Some);
                        assert(crate::canonical::branch_parts(ncs, nn->Branch_value));
                    } else if np.len() == 0 {
                        assert(opt_bytes(node@->Branch_value) == nv);
                        assert(nn->Branch_value is Some);
                        assert(crate::canonical::branch_parts(ncs, nn->Branch_value));
                    } else {
                        let a = op[0] as int;
                        let b = np[0] as int;
                        assert(ncs[a] is Some && ncs[b] is Some && a != b);
                        assert(crate::canonical::branch_parts(ncs, nn->Branch_value));
                    }
                    assert(canonical_branch(self.db@, ncs, nn->Branch_value));
                    lemma_canon_branch(self.db@, r@);
                    assert forall|q: Seq<u8>| #[trigger]
                        walk(self.db@, r@, q, 0) == updated(leaf_sem(op, ov, q), q, np, nv) by {
                        assert(walk(self.db@, r@, q, 0) == node_sem(m2@, node@, q));
                        if q.len() == 0 {
                            assert(opt_bytes(node@->Branch_value) == (if np.len() == 0 {
                                nv
                            } else if op.len() == 0 {
                                ov
                            } else {
                                Seq::<u8>::empty()
                            }));
                            if op.len() > 0 {
                                assert(q != op);
                            } else {
                                assert(q =~= op);
                            }
                            if np.len() > 0 {
                                assert(q != np);
                            } else {
                                assert(q =~= np);
                            }
                        }
                        if q.len() > 0 {
                            let i = q[0] as int;
                            if op.len() > 0 {
                                lemma_first_rest(q, op);
                            }
                            if np.len() > 0 {
                                lemma_first_rest(q, np);
                            }
                            if op.len() > 0 && q[0] == op[0] {
                                let la = children1[i]->Some_0@;
                                assert(children@[i] == children1[i]);
                                lemma_walk_stable(m1@, m2@, la, q.skip(1));
                                assert(walk(m1@, la, q.skip(1), 0) == leaf_sem(op.skip(1), ov, q.skip(1)));
                                assert(child_at(node@->Branch_children, q[0]) == Some(la));
                                assert(q != np);
                                assert(walk(self.db@, r@, q, 0) == leaf_sem(op, ov, q));
                            } else if np.len() > 0 && q[0] == np[0] {
                                let lb = children@[i]->Some_0@;
                                assert(child_at(node@->Branch_children, q[0]) == Some(lb));
                                assert(walk(m2@, lb, q.skip(1), 0) == leaf_sem(np.skip(1), nv, q.skip(1)));
                                assert(q != op);
                                assert(walk(self.db@, r@, q, 0) == updated(None, q, np, nv));
                            } else {
                                assert(child_at(node@->Branch_children, q[0]) is None);
                                assert(q != op);
                                assert(q != np);
                            }
                            if op.len() == 0 {
                                assert(q != op);
                            }
                            if np.len() == 0 {
                                assert(q != np);
                            }
                        }
                    }
                }
            }
        }
        r
    }

    /// Rewrites a leaf to hold `new_value` at `new_path` besides its own
    /// value: in place when the paths agree, else as a branch where they
    /// part, behind an extension for the part they share.
    fn insert_into_leaf(
        &mut self,
        existing_path: Vec<Nibble>,
        existing_value: Vec<u8>,
        new_path: &[Nibble],
        new_value: Vec<u8>,
    ) -> (r: NodeRef)
        requires
            old(self).db.inv(),
            is_nibble_path(existing_path@),
            is_nibble_path(new_path@),
        ensures
            final(self).root == old(self).root,
            db_step(old(self).db, final(self).db),
            final(self).db@.contains_key(r@),
            sound(old(self).db@) && insertable(existing_path@, existing_value@) && insertable(
                new_path@,
                new_value@,
            ) ==> sound(final(self).db@),
            sound(old(self).db@) && insertable(existing_path@, existing_value@) && insertable(
                new_path@,
                new_value@,
            ) && final(self).db.collision_free() ==> forall|q: Seq<u8>| #[trigger]
                walk(final(self).db@, r@, q, 0) == updated(
                    leaf_sem(existing_path@, existing_value@, q),
                    q,
                    new_path@,
                    new_value@,
                ),
            sound(old(self).db@) && insertable(existing_path@, existing_value@) && insertable(
                new_path@,
                new_value@,
            ) && final(self).db.collision_free() ==> canonical_node(final(self).db@, r@),
            leaf_sem(existing_path@, existing_value@, new_path@) == Some(new_value@) ==> r@
                == spec_keccak256(
                (NodeView::Leaf { path: existing_path@, value: existing_value@ }).encoding(),
            ),
    {
        let ghost ep = existing_path@;
        let ghost ev = existing_value@;
        let ghost np = new_path@;
        let ghost nv = new_value@;
        let ghost m0 = self.db;
        let shared = common_prefix_len(existing_path.as_slice(), new_path);
        proof {
            if ep == np && shared < ep.len() {
                assert(ep[shared as int] == np[shared as int]);
            }
        }
        if shared == existing_path.len() && shared == new_path.len() {
            assert(ep.take(shared as int) =~= ep);
            assert(np.take(shared as int) =~= np);
            let node = MptNode::leaf(existing_path, new_value);
            let r = self.put_node(&node);
            proof {
                if insertable(ep, ev) && insertable(np, nv) {
                    assert(good_node(m0@, node@));
                    lemma_canon_leaf(self.db@, r@);
                }
            }
            return r;
        }
        let old_rest = slice_to_vec(existing_path.as_slice(), shared);
        let new_rest = slice_to_vec(new_path, shared);
        proof {
            assert(is_nibble_path(old_rest@)) by {
                assert forall|i: int| 0 <= i < old_rest@.len() implies #[trigger] old_rest@[i] < 16 by {
                    assert(old_rest@[i] == ep[i + shared]);
                }
            }
            assert(is_nibble_path(new_rest@)) by {
                assert forall|i: int| 0 <= i < new_rest@.len() implies #[trigger] new_rest@[i] < 16 by {
                    assert(new_rest@[i] == np[i + shared]);
                }
            }
            if old_rest@.len() > 0 && new_rest@.len() > 0 {
                assert(old_rest@[0] == ep[shared as int]);
                assert(new_rest@[0] == np[shared as int]);
            }
            if old_rest@.len() == 0 {
                assert(new_rest@.len() > 0);
            }
        }
        let branch_hash = self.make_branch_from_two_paths(
            old_rest.as_slice(),
            existing_value,
            new_rest.as_slice(),
            new_value,
        );
        let ghost m1 = self.db;
        let prefix = prefix_to_vec(existing_path.as_slice(), shared);
        proof {
            assert(is_nibble_path(prefix@)) by {
                assert forall|i: int| 0 <= i < prefix@.len() implies #[trigger] prefix@[i] < 16 by {
                    assert(prefix@[i] == ep[i]);
                }
            }
        }
        let r = self.wrap_shared_path(prefix.as_slice(), branch_hash);
        proof {
            lemma_db_step_trans(m0, m1, self.db);
            if sound(m0@) && insertable(ep, ev) && insertable(np, nv) && self.db.collision_free() {
                assert(canonical_node(m1@, branch_hash@) && is_branch_at(m1@, branch_hash@));
                assert forall|q: Seq<u8>| #[trigger]
                    walk(self.db@, r@, q, 0) == updated(leaf_sem(ep, ev, q), q, np, nv) by {
                    lemma_split_eq(q, np, shared as int);
                    lemma_split_eq(q, ep, shared as int);
                    if starts_with(q, prefix@) {
                        assert(walk(self.db@, r@, q, 0) == walk(m1@, branch_hash@, q.skip(shared as int), 0));
                    }
                }
            }
        }
        r
    }

    /// Rewrites a branch: `value` becomes its value when `path` ends here,
    /// else it goes into the child in the slot of `path`'s first nibble.
    fn insert_into_branch(
        &mut self,
        children: &mut [Option<NodeRef>; 16],
        branch_value: Option<Vec<u8>>,
        path: &[Nibble],
        value: Vec<u8>,
        Ghost(fuel): Ghost<nat>,
    ) -> (r: NodeRef)
        requires
            old(self).db.inv(),
            is_nibble_path(path@),
            path@.len() > 0 ==> insert_path_ok(
                old(self).db@,
                child_view(old(children)@[path@[0] as int]),
                path@.skip(1),
                fuel,
            ),
        ensures
            final(self).root == old(self).root,
            db_step(old(self).db, final(self).db),
            final(self).db@.contains_key(r@),
            sound(old(self).db@) && good_node(
                old(self).db@,
                (MptNode::Branch { children: *old(children), value: branch_value })@,
            ) && insertable(path@, value@) ==> sound(final(self).db@),
            sound(old(self).db@) && good_node(
                old(self).db@,
                (MptNode::Branch { children: *old(children), value: branch_value })@,
            ) && insertable(path@, value@) && final(self).db.collision_free() ==> forall|q: Seq<u8>|
                #[trigger] walk(final(self).db@, r@, q, 0) == updated(
                    node_sem(
                        old(self).db@,
                        (MptNode::Branch { children: *old(children), value: branch_value })@,
                        q,
                    ),
                    q,
                    path@,
                    value@,
                ),
            sound(old(self).db@) && good_node(
                old(self).db@,
                (MptNode::Branch { children: *old(children), value: branch_value })@,
            ) && insertable(path@, value@) && final(self).db.collision_free() ==> is_branch_at(
                final(self).db@,
                r@,
            ),
            sound(old(self).db@) && good_node(
                old(self).db@,
                (MptNode::Branch { children: *old(children), value: branch_value })@,
            ) && insertable(path@, value@) && final(self).db.collision_free() && canonical_branch(
                old(self).db@,
                (MptNode::Branch { children: *old(children), value: branch_value })@->Branch_children,
                (MptNode::Branch { children: *old(children), value: branch_value })@.normalize()->Branch_value,
            ) ==> canonical_node(final(self).db@, r@),
            sound(old(self).db@) && good_node(
                old(self).db@,
                (MptNode::Branch { children: *old(children), value: branch_value })@,
            ) && node_sem(
                old(self).db@,
                (MptNode::Branch { children: *old(children), value: branch_value })@,
                path@,
            ) == Some(value@) ==> r@ == spec_keccak256(
                (MptNode::Branch { children: *old(children), value: branch_value })@.encoding(),
            ),
        decreases path@.len(), fuel, 0nat,
    {
        let ghost m0 = self.db;
        let ghost b0 = (MptNode::Branch { children: *children, value: branch_value })@;
        let ghost old_children = children@;
        let mut branch_value = branch_value;
        if path.len() == 0 {
            branch_value = Some(value);
            let node = MptNode::Branch { children: *children, value: branch_value };
            let r = self.put_node(&node);
            proof {
                if node_sem(m0@, b0, path@) == Some(value@) {
                    assert(node@ =~~= b0);
                }
                if sound(m0@) && good_node(m0@, b0) && insertable(path@, value@) {
                    assert(good_node(m0@, node@));
                    if self.db.collision_free() {
                        assert forall|q: Seq<u8>| #[trigger]
                            walk(self.db@, r@, q, 0) == updated(node_sem(m0@, b0, q), q, path@, value@) by {
                            if q.len() == 0 {
                                assert(q =~= path@);
                            }
                        }
                        if canonical_branch(m0@, b0->Branch_children, b0.normalize()->Branch_value) {
                            lemma_canon_set_value(
                                m0@,
                                self.db@,
                                b0->Branch_children,
                                b0.normalize()->Branch_value,
                                node@,
                                r@,
                            );
                        }
                    }
                }
            }
            return r;
        }
        let child_index = path[0] as usize;
        assert(path@[0] < 16);
        let rest = slice_to_vec(path, 1);
        proof {
            assert(is_nibble_path(rest@)) by {
                assert forall|i: int| 0 <= i < rest@.len() implies #[trigger] rest@[i] < 16 by {
                    assert(rest@[i] == path@[i + 1]);
                }
            }
        }
        let ghost old_child = children[child_index as int];
        let new_child = self.insert_at(children[child_index], rest.as_slice(), value, Ghost(fuel));
        let ghost m1 = self.db;
        children[child_index] = Some(new_child);
        let node = MptNode::Branch { children: *children, value: branch_value };
        let r = self.put_node(&node);
        proof {
            if sound(m0@) && good_node(m0@, b0) && node_sem(m0@, b0, path@) == Some(value@) {
                assert(child_at(b0->Branch_children, path@[0]) == child_view(old_child));
                assert(rest@ == path@.skip(1));
                assert(new_child =~= old_child->Some_0);
                assert(children@ =~= old_children);
                assert(node@ =~~= b0);
            }
            lemma_db_step_trans(m0, m1, self.db);
            if sound(m0@) && good_node(m0@, b0) && insertable(path@, value@) {
                let cv = node@->Branch_children;
                assert forall|i: int| 0 <= i < 16 implies (#[trigger] cv[i] matches Some(c)
                    ==> m1@.contains_key(c)) by {
                    assert(cv[i] == child_view(children@[i]));
                    if i != child_index {
                        assert(children@[i] == old_children[i]);
                        assert(b0->Branch_children[i] == child_view(old_children[i]));
                    }
                }
                assert(good_node(m1@, node@));
                if self.db.collision_free() {
                    assert(m1.collision_free());
                    if canonical_branch(m0@, b0->Branch_children, b0.normalize()->Branch_value) {
                        assert forall|i: int| 0 <= i < 16 && i != child_index implies #[trigger] cv[i]
                            == b0->Branch_children[i] by {
                            assert(cv[i] == child_view(children@[i]));
                            assert(children@[i] == old_children[i]);
                            assert(b0->Branch_children[i] == child_view(old_children[i]));
                        }
                        assert(cv[child_index as int] == Some(new_child@));
                        lemma_canon_replace_child(
                            m0@,
                            m1@,
                            self.db@,
                            b0->Branch_children,
                            b0.normalize()->Branch_value,
                            node@,
                            child_index as int,
                            r@,
                        );
                    }
                    assert forall|q: Seq<u8>| #[trigger]
                        walk(self.db@, r@, q, 0) == updated(node_sem(m0@, b0, q), q, path@, value@) by {
                        if q.len() == 0 {
                            assert(q != path@);
                        } else {
                            lemma_first_rest(q, path@);
                            if q[0] == path@[0] {
                                assert(child_at(cv, q[0]) == Some(new_child@));
                            } else if q[0] < 16 {
                                let i = q[0] as int;
                                assert(children@[i] == old_children[i]);
                                assert(b0->Branch_children[i] == child_view(old_children[i]));
                                if let Some(c) = child_at(cv, q[0]) {
                                    assert(b0->Branch_children[i] matches Some(x) ==> m0@.contains_key(x));
                                    lemma_walk_stable(m0@, m1@, c, q.skip(1));
                                }
                            }
                        }
                    }
                }
            }
        }
        r
    }

    /// Rewrites an extension: when `new_path` runs through its whole path,
    /// the insertion goes on into its child; else the extension splits into
    /// a branch where the paths part, behind an extension for what they share.
    #[verifier::rlimit(80)]
    #[verifier::spinoff_prover]
    fn insert_into_extension(
        &mut self,
        extension_path: Vec<Nibble>,
        child: NodeRef,
        new_path: &[Nibble],
        new_value: Vec<u8>,
        Ghost(fuel): Ghost<nat>,
    ) -> (r: NodeRef)
        requires
            old(self).db.inv(),
            is_nibble_path(extension_path@),
            is_nibble_path(new_path@),
            starts_with(new_path@, extension_path@) ==> if extension_path@.len() == 0 {
                fuel > 0 && insert_path_ok(old(self).db@, Some(child@), new_path@, (fuel - 1) as nat)
            } else {
                insert_path_ok(
                    old(self).db@,
                    Some(child@),
                    new_path@.skip(extension_path@.len() as int),
                    fuel,
                )
            },
        ensures
            final(self).root == old(self).root,
            db_step(old(self).db, final(self).db),
            final(self).db@.contains_key(r@),
            sound(old(self).db@) && good_node(
                old(self).db@,
                NodeView::Extension { path: extension_path@, child: child@ },
            ) && insertable(new_path@, new_value@) ==> sound(final(self).db@),
            sound(old(self).db@) && good_node(
                old(self).db@,
                NodeView::Extension { path: extension_path@, child: child@ },
            ) && insertable(new_path@, new_value@) && final(self).db.collision_free() ==> forall|
                q: Seq<u8>,
            | #[trigger]
                walk(final(self).db@, r@, q, 0) == updated(
                    node_sem(
                        old(self).db@,
                        NodeView::Extension { path: extension_path@, child: child@ },
                        q,
                    ),
                    q,
                    new_path@,
                    new_value@,
                ),
            sound(old(self).db@) && good_node(
                old(self).db@,
                NodeView::Extension { path: extension_path@, child: child@ },
            ) && insertable(new_path@, new_value@) && final(self).db.collision_free()
                && canonical_node(old(self).db@, child@) && is_branch_at(old(self).db@, child@)
                ==> canonical_node(final(self).db@, r@),
            sound(old(self).db@) && good_node(
                old(self).db@,
                NodeView::Extension { path: extension_path@, child: child@ },
            ) && node_sem(
                old(self).db@,
                NodeView::Extension { path: extension_path@, child: child@ },
                new_path@,
            ) == Some(new_value@) ==> r@ == spec_keccak256(
                (NodeView::Extension { path: extension_path@, child: child@ }).encoding(),
            ),
        decreases new_path@.len(), fuel, 0nat,
    {
        let ghost ep = extension_path@;
        let ghost np = new_path@;
        let ghost nv = new_value@;
        let ghost m0 = self.db;
        let ghost e0 = NodeView::Extension { path: ep, child: child@ };
        let shared = common_prefix_len(extension_path.as_slice(), new_path);
        proof {
            if starts_with(np, ep) && shared < ep.len() {
                assert(np.take(ep.len() as int)[shared as int] == ep[shared as int]);
            }
        }
        if shared == extension_path.len() {
            assert(ep.take(shared as int) =~= ep);
            let rest = slice_to_vec(new_path, shared);
            proof {
                assert(is_nibble_path(rest@)) by {
                    assert forall|i: int| 0 <= i < rest@.len() implies #[trigger] rest@[i] < 16 by {
                        assert(rest@[i] == np[i + shared]);
                    }
                }
                if ep.len() == 0 {
                    assert(rest@ =~= np);
                }
            }
            let new_child = self.insert_at(
                Some(child),
                rest.as_slice(),
                new_value,
                Ghost(
                    if ep.len() == 0 {
                        (fuel - 1) as nat
                    } else {
                        fuel
                    },
                ),
            );
            let ghost m1 = self.db;
            let node = MptNode::extension(extension_path, new_child);
            let r = self.put_node(&node);
            proof {
                if sound(m0@) && good_node(m0@, e0) && node_sem(m0@, e0, np) == Some(nv) {
                    assert(new_child =~= child);
                }
                lemma_db_step_trans(m0, m1, self.db);
                if sound(m0@) && good_node(m0@, e0) && insertable(np, nv) {
                    assert(good_node(m1@, node@));
                    if self.db.collision_free() {
                        assert(m1.collision_free());
                        if canonical_node(m0@, child@) && is_branch_at(m0@, child@) {
                            lemma_canonical_stable(m1@, self.db@, new_child@);
                            lemma_canon_extension(self.db@, r@);
                        }
                        assert forall|q: Seq<u8>| #[trigger]
                            walk(self.db@, r@, q, 0) == updated(node_sem(m0@, e0, q), q, np, nv) by {
                            lemma_split_eq(q, np, shared as int);
                        }
                    }
                }
            }
            return r;
        }
        let ghost pre = ep.take(shared as int);
        let ghost erest = ep.skip(shared + 1);
        let ghost nrest = np.skip(shared as int);
        let mut children: [Option<NodeRef>; 16] = [None; 16];
        let mut branch_value: Option<Vec<u8>> = None;
        let old_remaining = slice_to_vec(extension_path.as_slice(), shared);
        let old_child_index = old_remaining[0] as usize;
        assert(old_remaining@[0] == ep[shared as int]);
        assert(ep[shared as int] < 16);
        let tail = slice_to_vec(old_remaining.as_slice(), 1);
        proof {
            assert(tail@ =~= erest);
            assert(is_nibble_path(tail@)) by {
                assert forall|i: int| 0 <= i < tail@.len() implies #[trigger] tail@[i] < 16 by {
                    assert(tail@[i] == ep[i + shared + 1]);
                }
            }
        }
        let old_child = self.wrap_shared_path(tail.as_slice(), child);
        let ghost ma = self.db;
        children[old_child_index] = Some(old_child);
        let ghost children_a = children@;
        let new_rest = slice_to_vec(new_path, shared);
        proof {
            assert(new_rest@ == nrest);
            assert(is_nibble_path(nrest)) by {
                assert forall|i: int| 0 <= i < nrest.len() implies #[trigger] nrest[i] < 16 by {
                    assert(nrest[i] == np[i + shared]);
                }
            }
            if nrest.len() > 0 {
                assert(nrest[0] == np[shared as int]);
            }
        }
        self.attach_value_to_branch(&mut children, &mut branch_value, new_rest.as_slice(), new_value);
        let ghost mb = self.db;
        let branch = MptNode::Branch { children, value: branch_value };
        let branch_hash = self.put_node(&branch);
        let ghost mc = self.db;
        let prefix = prefix_to_vec(extension_path.as_slice(), shared);
        proof {
            assert(prefix@ == pre);
            assert(is_nibble_path(prefix@)) by {
                assert forall|i: int| 0 <= i < prefix@.len() implies #[trigger] prefix@[i] < 16 by {
                    assert(prefix@[i] == ep[i]);
                }
            }
        }
        let r = self.wrap_shared_path(prefix.as_slice(), branch_hash);
        proof {
            lemma_db_step_trans(m0, ma, mb);
            lemma_db_step_trans(m0, mb, mc);
            lemma_db_step_trans(m0, mc, self.db);
            let es = ep[shared as int];
            if sound(m0@) && good_node(m0@, e0) && insertable(np, nv) {
                assert(sound(ma@));
                assert(sound(mb@));
                let cv = branch@->Branch_children;
                assert forall|i: int| 0 <= i < 16 implies (#[trigger] cv[i] matches Some(c)
                    ==> mb@.contains_key(c)) by {
                    assert(cv[i] == child_view(children@[i]));
                    if i == es {
                        if nrest.len() > 0 {
                            assert(children@[i] == children_a[i]);
                        }
                    }
                }
                assert(good_node(mb@, branch@));
                assert(sound(mc@));
                if self.db.collision_free() {
                    assert(mc.collision_free());
                    assert(mb.collision_free());
                    assert(ma.collision_free());
                    assert(ma@.submap_of(mb@));
                    if canonical_node(m0@, child@) && is_branch_at(m0@, child@) {
                        assert(canonical_node(mc@, branch_hash@) && is_branch_at(mc@, branch_hash@)) by {
                            let bn = branch@.normalize();
                            let ncs = bn->Branch_children;
                            lemma_canonical_node_stable(ma@, mb@, old_child@);
                            assert forall|i: int| 0 <= i < 16 implies (#[trigger] ncs[i] matches Some(c)
                                ==> canonical_node(mb@, c)) by {
                                assert(cv[i] == child_view(children@[i]));
                                if !(nrest.len() > 0 && i == nrest[0]) {
                                    assert(children@[i] == children_a[i]);
                                }
                            }
                            if nrest.len() > 0 {
                                assert(nrest[0] != es);
                                assert(children@[es as int] == children_a[es as int]);
                                assert(ncs[es as int] is Some && ncs[nrest[0] as int] is Some);
                            } else {
                                assert(children@[es as int] == children_a[es as int]);
                                assert(ncs[es as int] is Some);
                                assert(opt_bytes(branch@->Branch_value) == nv);
                                assert(bn->Branch_value is Some);
                            }
                            assert(crate::canonical::branch_parts(ncs, bn->Branch_value));
                            lemma_canon_branch_stored(mb@, mc@, bn, branch_hash@);
                        }
                    }
                    assert forall|q: Seq<u8>| #[trigger]
                        walk(self.db@, r@, q, 0) == updated(node_sem(m0@, e0, q), q, np, nv) by {
                        lemma_split_eq(q, np, shared as int);
                        lemma_starts_split(q, ep, shared as int);
                        if starts_with(q, pre) {
                            let t = q.skip(shared as int);
                            assert(walk(self.db@, r@, q, 0) == walk(mc@, branch_hash@, t, 0));
                            assert(walk(mc@, branch_hash@, t, 0) == node_sem(mb@, branch@, t));
                            if t.len() > 0 {
                                assert(t[0] == q[shared as int]);
                                assert(t.skip(1) =~= q.skip(shared + 1));
                                if nrest.len() > 0 {
                                    lemma_first_rest(t, nrest);
                                }
                                if t[0] == es {
                                    assert(children@[es as int] == children_a[es as int]);
                                    assert(child_at(cv, t[0]) == Some(old_child@));
                                    lemma_walk_stable(ma@, mb@, old_child@, t.skip(1));
                                }
                            } else {
                                if nrest.len() == 0 {
                                    assert(t =~= nrest);
                                }
                            }
                        }
                    }
                }
            }
        }
        r
    }

    /// Inserts `value` at `path` below the optional node `node_hash` and
    /// returns the hash of the rewritten node.
    fn insert_at(
        &mut self,
        node_hash: Option<NodeRef>,
        path: &[Nibble],
        value: Vec<u8>,
        Ghost(fuel): Ghost<nat>,
    ) -> (r: NodeRef)
        requires
            old(self).db.inv(),
            is_nibble_path(path@),
            insert_path_ok(old(self).db@, child_view(node_hash), path@, fuel),
        ensures
            final(self).root == old(self).root,
            db_step(old(self).db, final(self).db),
            final(self).db@.contains_key(r@),
            sound(old(self).db@) && insertable(path@, value@) ==> sound(final(self).db@),
            sound(old(self).db@) && insertable(path@, value@) && final(self).db.collision_free()
                ==> forall|q: Seq<u8>| #[trigger]
                walk(final(self).db@, r@, q, 0) == updated(
                    sub_walk(old(self).db@, child_view(node_hash), q),
                    q,
                    path@,
                    value@,
                ),
            sound(old(self).db@) && insertable(path@, value@) && final(self).db.collision_free() && (
            node_hash matches Some(h) ==> canonical_node(old(self).db@, h@)) ==> canonical_node(
                final(self).db@,
                r@,
            ),
            sound(old(self).db@) && insertable(path@, value@) && final(self).db.collision_free() && (
            node_hash matches Some(h) && is_branch_at(old(self).db@, h@)) ==> is_branch_at(
                final(self).db@,
                r@,
            ),
            sound(old(self).db@) && sub_walk(old(self).db@, child_view(node_hash), path@) == Some(
                value@,
            ) ==> node_hash == Some(r),
        decreases path@.len(), fuel, 1nat,
    {
        let ghost m0 = self.db;
        let hash = match node_hash {
            Some(h) => h,
            None => {
                let ghost value_view = value@;
                let node = MptNode::leaf(copy_bytes(path), value);
                let r = self.put_node(&node);
                proof {
                    if insertable(path@, value_view) {
                        assert(good_node(m0@, node@));
                        lemma_canon_leaf(self.db@, r@);
                    }
                }
                return r;
            },
        };
        let node = match self.db.get(hash) {
            Some(n) => n,
            None => {
                assert(false);
                return hash;
            },
        };
        proof {
            lemma_decode_well_formed(m0@[hash@]);
            m0.lemma_content_addressed(hash@);
            if sound(m0@) {
                assert(m0@.contains_key(hash@));
                assert forall|q: Seq<u8>| #[trigger] walk(m0@, hash@, q, 0) == node_sem(m0@, node@, q) by {
                    lemma_walk_unfold(m0@, hash@, q);
                }
            }
            if canonical_node(m0@, hash@) {
                lemma_canon_parts(m0@, hash@);
                if let NodeView::Branch { value: v, .. } = node@ {
                    assert(node@.normalize() =~~= node@);
                }
            }
        }
        let ghost value_view = value@;
        let r = match node {
            MptNode::Branch { mut children, value: branch_value } => {
                self.insert_into_branch(&mut children, branch_value, path, value, Ghost(fuel))
            },
            MptNode::Leaf { path: existing_path, value: existing_value } => {
                self.insert_into_leaf(existing_path, existing_value, path, value)
            },
            MptNode::Extension { path: existing_path, child } => {
                self.insert_into_extension(existing_path, child, path, value, Ghost(fuel))
            },
        };
        proof {
            if sound(m0@) && sub_walk(m0@, child_view(node_hash), path@) == Some(value_view) {
                assert(r@ == spec_keccak256(node@.encoding()));
                assert(r =~= hash);
            }
        }
        r
    }

    /// Inserts `value` under `key`, rewriting the nodes along the key's path
    /// (old nodes stay in the store) and moving the root to the new top node.
    ///
    /// On a well-kept trie, with a nonempty value and a key and value short
    /// enough, the trie stays well kept, and where no two encodings written
    /// to the store share a hash, the trie afterwards maps `key` to `value`
    /// and every other key as before.
    pub fn insert(&mut self, key: &[u8], value: Vec<u8>)
        requires
            old(self).can_insert(key@),
        ensures
            final(self).store().inv(),
            final(self).root_ref() is Some,
            old(self).store().written_within(final(self).store()),
            final(self).store().collision_free() ==> old(self).store().collision_free(),
            old(self).wf() && 0 < value@.len() && key@.len() + value@.len() < max_len()
                ==> final(self).wf(),
            old(self).wf() && 0 < value@.len() && key@.len() + value@.len() < max_len()
                && final(self).store().collision_free()
                ==> final(self)@ == old(self)@.insert(key@, value@),
            old(self).wf() && old(self)@.contains_key(key@) && old(self)@[key@] == value@
                ==> final(self).root_ref() == old(self).root_ref(),
            old(self).wf() && 0 < value@.len() && key@.len() + value@.len() < max_len()
                && final(self).store().collision_free() && !(old(self)@.contains_key(key@)
                && old(self)@[key@] == value@) ==> final(self).root_ref() != old(self).root_ref(),
            old(self).canonical() && 0 < value@.len() && key@.len() + value@.len() < max_len()
                && final(self).store().collision_free() ==> final(self).canonical(),
    {
        let ghost value_view = value@;
        let nibbles = bytes_to_nibbles(key);
        proof {
            crate::nibbles::lemma_nibbles_are_nibbles(key@);
        }
        let root = self.root;
        let fuel = Ghost(self.db.spec_len());
        let new_root = self.insert_at(root, nibbles.as_slice(), value, fuel);
        self.root = Some(new_root);
        proof {
            let m0 = old(self).db@;
            let m1 = self.db@;
            let path = spec_nibbles(key@);
            if old(self).wf() {
                if let Some(r0) = root {
                    lemma_walk_fuel(m0, r0@, path, old(self).db.spec_len());
                }
            }
            if old(self).wf() && 0 < value_view.len() && key@.len() + value_view.len() < max_len() {
                assert(insertable(path, value_view));
                if self.db.collision_free() {
                    assert forall|k: Seq<u8>|
                        #[trigger] self.lookup(k) == (if k == key@ {
                            Some(value_view)
                        } else {
                            old(self).lookup(k)
                        }) by {
                        let qk = spec_nibbles(k);
                        lemma_walk_fuel(m1, new_root@, qk, self.db.spec_len());
                        if let Some(r0) = root {
                            lemma_walk_fuel(m0, r0@, qk, old(self).db.spec_len());
                        }
                        if qk == path {
                            lemma_nibbles_injective(k, key@);
                        }
                    }
                    assert(self@ =~= old(self)@.insert(key@, value_view));
                    if old(self).canonical() {
                        assert forall|q: Seq<u8>| #[trigger]
                            sub_walk(m1, self.root_ref(), q) is Some implies exists|k: Seq<u8>|
                            spec_nibbles(k) == q by {
                            if q == path {
                                assert(spec_nibbles(key@) == q);
                            } else {
                                assert(sub_walk(m0, old(self).root_ref(), q) is Some);
                            }
                        }
                    }
                    if self.root_ref() == old(self).root_ref() {
                        let r0 = new_root@;
                        assert(root matches Some(r) && r@ == r0);
                        lemma_walk_stable(m0, m1, r0, path);
                        lemma_walk_fuel(m1, r0, path, self.db.spec_len());
                        assert(self.lookup(key@) == Some(value_view));
                        assert(self.lookup(key@) == old(self).lookup(key@));
                        assert(old(self)@.contains_key(key@) && old(self)@[key@] == value_view);
                    }
                }
            }
        }
    }

    /// Every key the trie holds a value for has a proof, and the proof
    /// verifies that value against the root hash.
    pub proof fn lemma_value_has_proof(self, key: Seq<u8>)
        requires
            self.store().inv(),
            self@.contains_key(key),
        ensures
            self.proof_of(key) is Some,
            spec_verify_mpt_proof(self.spec_root_hash(), key, self@[key], self.proof_of(key)->Some_0),
    {
        let r = self.root->Some_0;
        lemma_walk_has_proof(self.db@, r@, spec_nibbles(key), self.db.spec_len());
        self.lemma_prove_then_verify(key);
    }

    /// An empty trie.
    pub fn new() -> (trie: Self)
        ensures
            trie@ == Map::<Seq<u8>, Seq<u8>>::empty(),
            trie.wf(),
            trie.canonical(),
            trie.root_ref() is None,
            trie.store().inv(),
            trie.store()@ == Map::<Seq<u8>, Seq<u8>>::empty(),
            trie.store().spec_len() == 0,
            trie.store().collision_free(),
    {
        let trie = MptTrie { db: MptNodeDb::new(), root: None };
        assert(trie@ =~= Map::<Seq<u8>, Seq<u8>>::empty());
        trie
    }

    /// Checks the store (see `MptNodeDb::check_well_kept`) and that it holds
    /// the root: true for every well-kept trie, and a trie that passes is
    /// well kept. Its contents, root and entries do not change.
    pub fn check_well_kept(&mut self) -> (ok: bool)
        ensures
            final(self)@ == old(self)@,
            final(self).root_ref() == old(self).root_ref(),
            final(self).store()@ == old(self).store()@,
            final(self).store().spec_len() == old(self).store().spec_len(),
            old(self).store().written_within(final(self).store()),
            final(self).store().collision_free() ==> old(self).store().collision_free(),
            old(self).wf() ==> ok,
            ok ==> final(self).wf(),
    {
        let checked = self.db.check_well_kept();
        proof {
            assert(self@ =~= old(self)@);
        }
        if !checked {
            return false;
        }
        match self.root {
            Some(r) => self.db.contains(r),
            None => true,
        }
    }

    /// A trie over an existing store, rooted at `root`.
    pub fn from_root(db: MptNodeDb, root: NodeRef) -> (trie: Self)
        ensures
            trie.store() == db,
            trie.root_ref() == Some(root@),
    {
        MptTrie { db, root: Some(root) }
    }

    /// The store and the root hash, taken apart.
    pub fn into_parts(self) -> (parts: (MptNodeDb, Option<NodeRef>))
        ensures
            parts.0 == self.store(),
            self.root_ref() == (match parts.1 {
                Some(r) => Some(r@),
                None => None,
            }),
    {
        (self.db, self.root)
    }

    /// The root hash; an empty trie reports 32 zero bytes.
    pub fn root_hash(&self) -> (hash: NodeRef)
        ensures
            hash@ == self.spec_root_hash(),
    {
        match self.root {
            Some(r) => r,
            None => {
                let zero: NodeRef = [0u8; 32];
                assert(zero@ =~= empty_root());
                zero
            },
        }
    }

    /// Looks `key` up: follows branch slots by nibble, extension paths and
    /// a leaf's remaining path, from the root.
    pub fn get(&self, key: &[u8]) -> (value: Option<Vec<u8>>)
        ensures
            opt_view(value) == self.lookup(key@),
            match value {
                Some(v) => self@.contains_key(key@) && self@[key@] == v@,
                None => !self@.contains_key(key@),
            },
    {
        let nibbles = bytes_to_nibbles(key);
        let mut current = match self.root {
            Some(r) => r,
            None => return None,
        };
        let ghost m = self.db@;
        let ghost target = self.lookup(key@);
        let mut pos: usize = 0;
        let mut fuel: usize = self.db.entry_count();
        let total: usize = nibbles.len();
        assert(nibbles@.skip(0) =~= nibbles@);
        loop
            invariant
                m == self.db@,
                pos <= nibbles@.len(),
                total == nibbles@.len(),
                nibbles@ == spec_nibbles(key@),
                target == self.lookup(key@),
                target == walk(m, current@, nibbles@.skip(pos as int), fuel as nat),
            decreases nibbles@.len() - pos, fuel,
        {
            let ghost rest = nibbles@.skip(pos as int);
            let node = match self.db.get(current) {
                Some(n) => n,
                None => return None,
            };
            match node {
                MptNode::Branch { children, value } => {
                    if pos == nibbles.len() {
                        return value;
                    }
                    let nibble = nibbles[pos];
                    assert(nibble == rest[0]);
                    assert(nibble < 16);
                    match children[nibble as usize] {
                        Some(c) => {
                            assert(child_view(children@[nibble as int]) == Some(c@));
                            assert(rest.skip(1) =~= nibbles@.skip(pos + 1));
                            current = c;
                            pos = pos + 1;
                        },
                        None => {
                            assert(child_view(children@[nibble as int]) is None);
                            return None;
                        },
                    }
                },
                MptNode::Leaf { path, value } => {
                    if rest_equals(nibbles.as_slice(), pos, path.as_slice()) {
                        return Some(value);
                    } else {
                        return None;
                    }
                },
                MptNode::Extension { path, child } => {
                    if !rest_starts_with(nibbles.as_slice(), pos, path.as_slice()) {
                        return None;
                    }
                    if path.len() == 0 {
                        if fuel == 0 {
                            return None;
                        }
                        fuel = fuel - 1;
                    }
                    assert(path@.len() <= rest.len());
                    assert(rest.skip(path@.len() as int) =~= nibbles@.skip(pos + path@.len()));
                    current = child;
                    pos = pos + path.len();
                },
            }
        }
    }

    /// The encodings of the nodes from the root to the one that holds the
    /// value of `key`, or `None` when the trie holds no value for `key`.
    pub fn prove(&self, key: &[u8]) -> (nodes: Option<ProofNodes>)
        ensures
            match nodes {
                Some(p) => self.proof_of(key@) == Some(bytes_list_view(p@)),
                None => self.proof_of(key@) is None,
            },
    {
        let nibbles = bytes_to_nibbles(key);
        let mut current = match self.root {
            Some(r) => r,
            None => return None,
        };
        let ghost m = self.db@;
        let ghost target = self.proof_of(key@);
        let mut pos: usize = 0;
        let mut fuel: usize = self.db.entry_count();
        let mut visited: Vec<Vec<u8>> = Vec::new();
        let total: usize = nibbles.len();
        assert(nibbles@.skip(0) =~= nibbles@);
        assert(bytes_list_view(visited@) =~= Seq::<Seq<u8>>::empty());
        loop
            invariant
                m == self.db@,
                pos <= nibbles@.len(),
                total == nibbles@.len(),
                nibbles@ == spec_nibbles(key@),
                target == self.proof_of(key@),
                target == prepend(
                    bytes_list_view(visited@),
                    walk_proof(m, current@, nibbles@.skip(pos as int), fuel as nat),
                ),
            decreases nibbles@.len() - pos, fuel,
        {
            let ghost rest = nibbles@.skip(pos as int);
            let ghost before = bytes_list_view(visited@);
            let encoded = match self.db.get_encoded(current) {
                Some(e) => e,
                None => return None,
            };
            let node = match MptNode::decode(encoded) {
                Some(n) => n,
                None => return None,
            };
            visited.push(copy_bytes(encoded));
            assert(bytes_list_view(visited@) =~= before + seq![encoded@]);
            match node {
                MptNode::Branch { children, value } => {
                    if pos == nibbles.len() {
                        if value.is_some() {
                            return Some(visited);
                        } else {
                            return None;
                        }
                    }
                    let nibble = nibbles[pos];
                    assert(nibble == rest[0]);
                    assert(nibble < 16);
                    match children[nibble as usize] {
                        Some(c) => {
                            assert(child_view(children@[nibble as int]) == Some(c@));
                            assert(rest.skip(1) =~= nibbles@.skip(pos + 1));
                            current = c;
                            pos = pos + 1;
                        },
                        None => {
                            assert(child_view(children@[nibble as int]) is None);
                            return None;
                        },
                    }
                },
                MptNode::Leaf { path, .. } => {
                    if rest_equals(nibbles.as_slice(), pos, path.as_slice()) {
                        return Some(visited);
                    } else {
                        return None;
                    }
                },
                MptNode::Extension { path, child } => {
                    if !rest_starts_with(nibbles.as_slice(), pos, path.as_slice()) {
                        return None;
                    }
                    if path.len() == 0 {
                        if fuel == 0 {
                            return None;
                        }
                        fuel = fuel - 1;
                    }
                    assert(path@.len() <= rest.len());
                    assert(rest.skip(path@.len() as int) =~= nibbles@.skip(pos + path@.len()));
                    current = child;
                    pos = pos + path.len();
                },
            }
        }
    }
}

impl Default for MptTrie {
    /// The same as `MptTrie::new()`.
    fn default() -> (d: Self)
        ensures
            d@ == Map::<Seq<u8>, Seq<u8>>::empty(),
            d.wf(),
            d.root_ref() is None,
            d.store().collision_free(),
    {
        MptTrie::new()
    }
}

/// Checks an inclusion proof: the nodes must hash, one after the other, to
/// `root` and to the references that lead along the nibbles of `key`, and
/// the last node must hold `expected_value` where the path ends.
pub fn verify_mpt_proof(
    root: NodeRef,
    key: &[u8],
    expected_value: &[u8],
    nodes: &[Vec<u8>],
) -> (ok: bool)
    ensures
        ok == spec_verify_mpt_proof(root@, key@, expected_value@, bytes_list_view(nodes@)),
{
    let nibbles = bytes_to_nibbles(key);
    let ghost all = bytes_list_view(nodes@);
    let ghost target = spec_verify_mpt_proof(root@, key@, expected_value@, all);
    let mut expected_hash = root;
    let mut pos: usize = 0;
    let mut index: usize = 0;
    let total: usize = nibbles.len();
    assert(nibbles@.skip(0) =~= nibbles@);
    assert(all.skip(0) =~= all);
    while index < nodes.len()
        invariant
            pos <= nibbles@.len(),
            total == nibbles@.len(),
            index <= nodes@.len(),
            nibbles@ == spec_nibbles(key@),
            all == bytes_list_view(nodes@),
            target == spec_verify_mpt_proof(root@, key@, expected_value@, all),
            target == verify_rest(
                expected_hash@,
                nibbles@.skip(pos as int),
                expected_value@,
                all.skip(index as int),
            ),
        decreases nodes@.len() - index,
    {
        let ghost rest = nibbles@.skip(pos as int);
        let ghost remaining = all.skip(index as int);
        let encoded = nodes[index].as_slice();
        assert(remaining.len() == nodes@.len() - index);
        assert(remaining[0] == encoded@);
        assert(remaining.skip(1) =~= all.skip(index + 1));
        let actual = keccak256(encoded);
        if !hash_eq(&actual, &expected_hash) {
            assert(spec_keccak256(remaining[0]) != expected_hash@);
            return false;
        }
        let node = match MptNode::decode(encoded) {
            Some(n) => n,
            None => return false,
        };
        let is_last = index == nodes.len() - 1;
        match node {
            MptNode::Branch { children, value } => {
                if pos == nibbles.len() {
                    return is_last && match &value {
                        Some(v) => bytes_eq(v.as_slice(), expected_value),
                        None => false,
                    };
                }
                let nibble = nibbles[pos];
                assert(nibble == rest[0]);
                assert(nibble < 16);
                match children[nibble as usize] {
                    Some(c) => {
                        assert(child_view(children@[nibble as int]) == Some(c@));
                        assert(rest.skip(1) =~= nibbles@.skip(pos + 1));
                        expected_hash = c;
                        pos = pos + 1;
                    },
                    None => {
                        assert(child_view(children@[nibble as int]) is None);
                        return false;
                    },
                }
            },
            MptNode::Extension { path, child } => {
                if !rest_starts_with(nibbles.as_slice(), pos, path.as_slice()) {
                    return false;
                }
                assert(path@.len() <= rest.len());
                assert(rest.skip(path@.len() as int) =~= nibbles@.skip(pos + path@.len()));
                expected_hash = child;
                pos = pos + path.len();
            },
            MptNode::Leaf { path, value } => {
                return is_last && rest_equals(nibbles.as_slice(), pos, path.as_slice()) && bytes_eq(
                    expected_value,
                    value.as_slice(),
                );
            },
        }
        index = index + 1;
    }
    false
}

/// Compares two byte strings.
pub(crate) fn bytes_eq(a: &[u8], b: &[u8]) -> (eq: bool)
    ensures
        eq == (a@ == b@),
{
    if a.len() != b.len() {
        return false;
    }
    let mut i: usize = 0;
    while i < a.len()
        invariant
            a@.len() == b@.len(),
            i <= a@.len(),
            forall|j: int| 0 <= j < i ==> a@[j] == b@[j],
        decreases a@.len() - i,
    {
        if a[i] != b[i] {
            return false;
        }
        i = i + 1;
    }
    assert(a@ =~= b@);
    true
}

} // verus!
