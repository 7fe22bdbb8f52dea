//! A Merkle radix trie made of branch nodes only: one branch per nibble of
//! the key, the value in the branch where the key ends.
use vstd::prelude::*;

use crate::crypto::{keccak256, spec_keccak256};
use crate::mpt::{
    child_view, nonempty_or_none, opt_bytes, spec_decode_node, MptNode, NodeRef, NodeView,
};
use crate::mpt_trie::{
    bytes_eq, bytes_list_view, child_at, db_step, empty_root, lemma_db_step_refl, lemma_db_step_trans,
    nodes_agree,
    opt_view, updated, ProofNodes,
};
use crate::nibbles::{bytes_to_nibbles, copy_bytes, is_nibble_path, spec_nibbles};
use crate::node_db::{hash_eq, MptNodeDb};
use crate::trie_facts::{
    good_node, lemma_good_fits, lemma_nibbles_injective, lemma_put_sound, max_len, sound,
};

verus! {

/// A branch node: sixteen child slots and the value of a key ending here.
#[derive(Debug, Clone)]
struct BranchNode {
    children: [Option<NodeRef>; 16],
    value: Option<Vec<u8>>,
}

impl BranchNode {
    /// The node as a trie node.
    spec fn node_view(self) -> NodeView {
        (MptNode::Branch { children: self.children, value: self.value })@
    }

    /// A branch with no children and no value.
    fn new() -> (node: Self)
        ensures
            node.children@ == Seq::new(16, |i: int| None::<NodeRef>),
            node.value is None,
    {
        let node = BranchNode { children: [None; 16], value: None };
        assert(node.children@ =~= Seq::new(16, |i: int| None::<NodeRef>));
        node
    }

    /// RLP-encodes the branch: sixteen child references (empty for none)
    /// and the value (empty for none).
    fn encode(&self) -> (encoded: Vec<u8>)
        ensures
            encoded@ == self.node_view().encoding(),
            self.node_view().fits() ==> spec_decode_node(encoded@) == Some(
                self.node_view().normalize(),
            ),
    {
        let node = MptNode::Branch { children: self.children, value: clone_value(&self.value) };
        node.encode()
    }

    /// Decodes a branch; `None` unless the bytes are a seventeen-item node
    /// that decodes.
    fn decode(bytes: &[u8]) -> (node: Option<Self>)
        ensures
            match node {
                Some(n) => spec_decode_node(bytes@) == Some(n.node_view()),
                None => !(spec_decode_node(bytes@) matches Some(NodeView::Branch { .. })),
            },
    {
        match MptNode::decode(bytes) {
            Some(MptNode::Branch { children, value }) => Some(BranchNode { children, value }),
            _ => None,
        }
    }
}

/// A copy of an optional byte vector.
fn clone_value(value: &Option<Vec<u8>>) -> (out: Option<Vec<u8>>)
    ensures
        opt_view(out) == opt_view(*value),
{
    match value {
        Some(v) => Some(copy_bytes(v.as_slice())),
        None => None,
    }
}

/// The value that a walk from the branch stored under `h` along `path`
/// reaches in `m`: the value of the branch where the path ends, following
/// one child per nibble; `None` where a node is missing, is not a branch, or
/// a child slot is empty.
pub open spec fn radix_walk(m: Map<Seq<u8>, Seq<u8>>, h: Seq<u8>, path: Seq<u8>) -> Option<Seq<u8>>
    decreases path.len(),
{
    if !m.contains_key(h) {
        None
    } else {
        match spec_decode_node(m[h]) {
            Some(NodeView::Branch { children, value }) => if path.len() == 0 {
                value
            } else {
                match child_at(children, path[0]) {
                    Some(c) => radix_walk(m, c, path.skip(1)),
                    None => None,
                }
            },
            _ => None,
        }
    }
}

/// The encodings that `prove` collects along `path` from the node under `h`:
/// one branch per nibble, then the node where the path ends (not decoded).
pub open spec fn radix_proof(m: Map<Seq<u8>, Seq<u8>>, h: Seq<u8>, path: Seq<u8>) -> Option<
    Seq<Seq<u8>>,
>
    decreases path.len(),
{
    if !m.contains_key(h) {
        None
    } else if path.len() == 0 {
        Some(seq![m[h]])
    } else {
        match spec_decode_node(m[h]) {
            Some(NodeView::Branch { children, .. }) => match child_at(children, path[0]) {
                Some(c) => match radix_proof(m, c, path.skip(1)) {
                    Some(rest) => Some(seq![m[h]] + rest),
                    None => None,
                },
                None => None,
            },
            _ => None,
        }
    }
}

/// Whether `nodes` leads from `h` along `path` to a branch holding `expected`:
/// each node hashes to the reference that led to it and decodes as a branch.
pub open spec fn radix_verify_from(
    h: Seq<u8>,
    path: Seq<u8>,
    expected: Seq<u8>,
    nodes: Seq<Seq<u8>>,
) -> bool
    decreases path.len(),
{
    if nodes.len() == 0 || spec_keccak256(nodes[0]) != h {
        false
    } else {
        match spec_decode_node(nodes[0]) {
            Some(NodeView::Branch { children, value }) => if path.len() == 0 {
                value == Some(expected)
            } else {
                match child_at(children, path[0]) {
                    Some(c) => radix_verify_from(c, path.skip(1), expected, nodes.skip(1)),
                    None => false,
                }
            },
            _ => false,
        }
    }
}

/// What `verify_proof` answers: the proof has one node per nibble plus one,
/// and leads from `root` to `expected`.
pub open spec fn spec_verify_proof(
    root: Seq<u8>,
    key: Seq<u8>,
    expected: Seq<u8>,
    nodes: Seq<Seq<u8>>,
) -> bool {
    nodes.len() == spec_nibbles(key).len() + 1 && radix_verify_from(
        root,
        spec_nibbles(key),
        expected,
        nodes,
    )
}

/// Whether an insertion along `path` from the optional node `h` finds each
/// node it rewrites stored and decodable as a branch.
pub open spec fn radix_insert_ok(m: Map<Seq<u8>, Seq<u8>>, h: Option<Seq<u8>>, path: Seq<u8>) -> bool
    decreases path.len(),
{
    match h {
        None => true,
        Some(h) => m.contains_key(h) && match spec_decode_node(m[h]) {
            Some(NodeView::Branch { children, .. }) => path.len() == 0 || radix_insert_ok(
                m,
                child_at(children, path[0]),
                path.skip(1),
            ),
            _ => false,
        },
    }
}

/// What a walk from an optional node finds: nothing from no node.
pub open spec fn radix_sub(m: Map<Seq<u8>, Seq<u8>>, h: Option<Seq<u8>>, q: Seq<u8>) -> Option<Seq<u8>> {
    match h {
        Some(h) => radix_walk(m, h, q),
        None => None,
    }
}

/// A walk from a stored node of a sound store reads the same in any
/// extension of the store.
proof fn lemma_radix_stable(m: Map<Seq<u8>, Seq<u8>>, m2: Map<Seq<u8>, Seq<u8>>, h: Seq<u8>, q: Seq<u8>)
    requires
        sound(m),
        m.submap_of(m2),
        m.contains_key(h),
    ensures
        radix_walk(m2, h, q) == radix_walk(m, h, q),
    decreases q.len(),
{
    assert(m2[h] == m[h]);
    if let Some(NodeView::Branch { children, .. }) = spec_decode_node(m[h]) {
        if q.len() > 0 {
            if let Some(c) = child_at(children, q[0]) {
                assert(children[q[0] as int] matches Some(c) ==> m.contains_key(c));
                lemma_radix_stable(m, m2, c, q.skip(1));
            }
        }
    }
}

/// In a sound store, an insertion from a stored branch (or none) finds
/// every node it needs, provided every stored node on the way is a branch.
proof fn lemma_radix_insert_ok_branch_only(m: Map<Seq<u8>, Seq<u8>>, h: Option<Seq<u8>>, q: Seq<u8>)
    requires
        sound(m),
        h matches Some(x) ==> m.contains_key(x),
        branches_only(m),
    ensures
        radix_insert_ok(m, h, q),
    decreases q.len(),
{
    if let Some(x) = h {
        if let Some(NodeView::Branch { children, .. }) = spec_decode_node(m[x]) {
            if q.len() > 0 {
                if q[0] < 16 {
                    assert(children[q[0] as int] matches Some(y) ==> m.contains_key(y));
                }
                lemma_radix_insert_ok_branch_only(m, child_at(children, q[0]), q.skip(1));
            }
        }
    }
}

/// Where a walk reaches a value, the nodes it visits form a proof of that
/// value, one node per nibble plus one.
proof fn lemma_radix_proof_verifies(db: MptNodeDb, h: Seq<u8>, path: Seq<u8>)
    requires
        db.inv(),
        radix_walk(db@, h, path) is Some,
    ensures
        radix_proof(db@, h, path) is Some,
        radix_proof(db@, h, path)->Some_0.len() == path.len() + 1,
        radix_verify_from(h, path, radix_walk(db@, h, path)->Some_0, radix_proof(db@, h, path)->Some_0),
    decreases path.len(),
{
    let m = db@;
    db.lemma_content_addressed(h);
    if path.len() > 0 {
        if let Some(NodeView::Branch { children, .. }) = spec_decode_node(m[h]) {
            let c = child_at(children, path[0])->Some_0;
            lemma_radix_proof_verifies(db, c, path.skip(1));
            let nodes = radix_proof(m, h, path)->Some_0;
            assert(nodes.skip(1) =~= radix_proof(m, c, path.skip(1))->Some_0);
        }
    }
}

/// The branch stored under `h` is canonical within `depth` levels: it holds
/// a value or a child, over canonical children.
pub open spec fn radix_canon_at(m: Map<Seq<u8>, Seq<u8>>, h: Seq<u8>, depth: nat) -> bool
    decreases depth,
{
    m.contains_key(h) && match spec_decode_node(m[h]) {
        Some(NodeView::Branch { children, value }) => depth > 0 && (value is Some || exists|i: int|
            0 <= i < 16 && #[trigger] children[i] is Some) && forall|i: int|
            0 <= i < 16 ==> (#[trigger] children[i] matches Some(c) ==> radix_canon_at(
                m,
                c,
                (depth - 1) as nat,
            )),
        _ => false,
    }
}

/// The branch stored under `h` is canonical at some depth.
pub open spec fn radix_canonical(m: Map<Seq<u8>, Seq<u8>>, h: Seq<u8>) -> bool {
    exists|d: nat| radix_canon_at(m, h, d)
}

/// More depth does no harm.
proof fn lemma_radix_deeper(m: Map<Seq<u8>, Seq<u8>>, h: Seq<u8>, depth: nat, more: nat)
    requires
        radix_canon_at(m, h, depth),
        depth <= more,
    ensures
        radix_canon_at(m, h, more),
    decreases depth,
{
    let children = spec_decode_node(m[h])->Some_0->Branch_children;
    assert forall|i: int| 0 <= i < 16 implies (#[trigger] children[i] matches Some(c)
        ==> radix_canon_at(m, c, (more - 1) as nat)) by {
        if let Some(c) = children[i] {
            lemma_radix_deeper(m, c, (depth - 1) as nat, (more - 1) as nat);
        }
    }
}

/// Canonical branches of a sound store stay canonical in any extension of it.
proof fn lemma_radix_canon_stable(
    m: Map<Seq<u8>, Seq<u8>>,
    m2: Map<Seq<u8>, Seq<u8>>,
    h: Seq<u8>,
    depth: nat,
)
    requires
        sound(m),
        m.submap_of(m2),
        radix_canon_at(m, h, depth),
    ensures
        radix_canon_at(m2, h, depth),
    decreases depth,
{
    assert(m.contains_key(h));
    assert(m2.contains_key(h) && m2[h] == m[h]);
    let children = spec_decode_node(m[h])->Some_0->Branch_children;
    assert forall|i: int| 0 <= i < 16 implies (#[trigger] children[i] matches Some(c)
        ==> radix_canon_at(m2, c, (depth - 1) as nat)) by {
        if let Some(c) = children[i] {
            lemma_radix_canon_stable(m, m2, c, (depth - 1) as nat);
        }
    }
}

/// A canonical branch of a sound store is canonical in any extension of it.
proof fn lemma_radix_canonical_stable(
    m: Map<Seq<u8>, Seq<u8>>,
    m2: Map<Seq<u8>, Seq<u8>>,
    h: Seq<u8>,
)
    requires
        sound(m),
        m.submap_of(m2),
        radix_canonical(m, h),
    ensures
        radix_canonical(m2, h),
{
    let d = choose|d: nat| radix_canon_at(m, h, d);
    lemma_radix_canon_stable(m, m2, h, d);
}

/// A depth at which each of the first `k` children is canonical.
proof fn lemma_radix_children_depth(
    m: Map<Seq<u8>, Seq<u8>>,
    children: Seq<Option<Seq<u8>>>,
    k: int,
) -> (d: nat)
    requires
        0 <= k <= 16,
        forall|i: int|
            0 <= i < 16 ==> (#[trigger] children[i] matches Some(c) ==> radix_canonical(m, c)),
    ensures
        forall|i: int|
            0 <= i < k ==> (#[trigger] children[i] matches Some(c) ==> radix_canon_at(m, c, d)),
    decreases k,
{
    if k == 0 {
        0
    } else {
        let d0 = lemma_radix_children_depth(m, children, k - 1);
        match children[k - 1] {
            Some(c) => {
                assert(radix_canonical(m, c));
                let dc = choose|d: nat| radix_canon_at(m, c, d);
                let d1 = if d0 < dc {
                    dc
                } else {
                    d0
                };
                assert forall|i: int| 0 <= i < k implies (#[trigger] children[i] matches Some(x)
                    ==> radix_canon_at(m, x, d1)) by {
                    if let Some(x) = children[i] {
                        if i < k - 1 {
                            lemma_radix_deeper(m, x, d0, d1);
                        } else {
                            lemma_radix_deeper(m, x, dc, d1);
                        }
                    }
                }
                d1
            },
            None => d0,
        }
    }
}

/// A stored branch that holds a value or a child, over canonical children,
/// is canonical.
proof fn lemma_radix_canon_branch(m: Map<Seq<u8>, Seq<u8>>, h: Seq<u8>)
    requires
        m.contains_key(h),
        spec_decode_node(m[h]) matches Some(NodeView::Branch { children, value }) && (value is Some
            || exists|i: int| 0 <= i < 16 && #[trigger] children[i] is Some) && forall|i: int|
            0 <= i < 16 ==> (#[trigger] children[i] matches Some(c) ==> radix_canonical(m, c)),
    ensures
        radix_canonical(m, h),
{
    let children = spec_decode_node(m[h])->Some_0->Branch_children;
    let d = lemma_radix_children_depth(m, children, 16);
    assert(radix_canon_at(m, h, d + 1));
}

/// A canonical branch reaches a value.
proof fn lemma_radix_witness(m: Map<Seq<u8>, Seq<u8>>, h: Seq<u8>, depth: nat) -> (q: Seq<u8>)
    requires
        radix_canon_at(m, h, depth),
    ensures
        radix_walk(m, h, q) is Some,
    decreases depth,
{
    let n = spec_decode_node(m[h])->Some_0;
    let children = n->Branch_children;
    if n->Branch_value is Some {
        Seq::empty()
    } else {
        let i = choose|i: int| 0 <= i < 16 && #[trigger] children[i] is Some;
        let rest = lemma_radix_witness(m, children[i]->Some_0, (depth - 1) as nat);
        let q = seq![i as u8] + rest;
        assert(q[0] == i as u8);
        assert(q.skip(1) =~= rest);
        q
    }
}

/// Two canonical branches of sound, content-addressed stores that reach
/// the same values along the same paths have the same hash.
proof fn lemma_radix_unique(
    d1: MptNodeDb,
    d2: MptNodeDb,
    h1: Seq<u8>,
    h2: Seq<u8>,
    depth1: nat,
    depth2: nat,
)
    requires
        d1.inv(),
        d2.inv(),
        sound(d1@),
        sound(d2@),
        radix_canon_at(d1@, h1, depth1),
        radix_canon_at(d2@, h2, depth2),
        forall|q: Seq<u8>| #[trigger] radix_walk(d1@, h1, q) == radix_walk(d2@, h2, q),
    ensures
        h1 == h2,
    decreases depth1,
{
    let m1 = d1@;
    let m2 = d2@;
    let n1 = spec_decode_node(m1[h1])->Some_0;
    let n2 = spec_decode_node(m2[h2])->Some_0;
    let cs1 = n1->Branch_children;
    let cs2 = n2->Branch_children;
    d1.lemma_content_addressed(h1);
    d2.lemma_content_addressed(h2);
    assert(radix_walk(m1, h1, Seq::empty()) == radix_walk(m2, h2, Seq::empty()));
    assert forall|i: int| 0 <= i < 16 implies cs1[i] == cs2[i] by {
        let step = |q: Seq<u8>| seq![i as u8] + q;
        assert forall|q: Seq<u8>| #[trigger] step(q)[0] == i as u8 && step(q).skip(1) == q by {
            assert(step(q).skip(1) =~= q);
        }
        match (cs1[i], cs2[i]) {
            (Some(x), Some(y)) => {
                assert forall|q: Seq<u8>| #[trigger] radix_walk(m1, x, q) == radix_walk(m2, y, q) by {
                    assert(radix_walk(m1, h1, step(q)) == radix_walk(m2, h2, step(q)));
                }
                lemma_radix_unique(d1, d2, x, y, (depth1 - 1) as nat, (depth2 - 1) as nat);
            },
            (Some(x), None) => {
                let q = lemma_radix_witness(m1, x, (depth1 - 1) as nat);
                assert(radix_walk(m1, h1, step(q)) == radix_walk(m2, h2, step(q)));
            },
            (None, Some(y)) => {
                let q = lemma_radix_witness(m2, y, (depth2 - 1) as nat);
                assert(radix_walk(m1, h1, step(q)) == radix_walk(m2, h2, step(q)));
            },
            (None, None) => {},
        }
    }
    assert(cs1 =~= cs2);
}

/// A proof that leads from a stored branch along `path` to `expected`, and
/// whose nodes agree with the store where their hashes are stored, follows
/// the store's own branches: the walk from that branch reaches `expected`.
proof fn lemma_radix_verify_sound(
    m: Map<Seq<u8>, Seq<u8>>,
    h: Seq<u8>,
    path: Seq<u8>,
    expected: Seq<u8>,
    nodes: Seq<Seq<u8>>,
)
    requires
        sound(m),
        m.contains_key(h),
        radix_verify_from(h, path, expected, nodes),
        nodes_agree(m, nodes),
    ensures
        radix_walk(m, h, path) == Some(expected),
    decreases path.len(),
{
    assert(m[spec_keccak256(nodes[0])] == nodes[0]);
    if path.len() > 0 {
        let rest = nodes.skip(1);
        assert forall|i: int|
            0 <= i < rest.len() && m.contains_key(spec_keccak256(rest[i])) implies m[spec_keccak256(
            rest[i],
        )] == #[trigger] rest[i] by {
            assert(rest[i] == nodes[i + 1]);
        }
        let children = spec_decode_node(nodes[0])->Some_0->Branch_children;
        let c = child_at(children, path[0])->Some_0;
        assert(children[path[0] as int] matches Some(x) ==> m.contains_key(x));
        lemma_radix_verify_sound(m, c, path.skip(1), expected, rest);
    }
}

/// Every stored node is a branch.
pub open spec fn branches_only(m: Map<Seq<u8>, Seq<u8>>) -> bool {
    forall|h: Seq<u8>| #[trigger]
        m.contains_key(h) ==> spec_decode_node(m[h]) matches Some(NodeView::Branch { .. })
}

/// A trie of branch nodes over a content-addressed store, and the hash of
/// its root branch, if any.
#[derive(Clone)]
pub struct MerkleRadixTrie {
    db: MptNodeDb,
    root: Option<NodeRef>,
}

impl View for MerkleRadixTrie {
    type V = Map<Seq<u8>, Seq<u8>>;

    /// Each key that a lookup finds, mapped to the value found.
    closed spec fn view(&self) -> Map<Seq<u8>, Seq<u8>> {
        Map::new(|k: Seq<u8>| self.lookup(k) is Some, |k: Seq<u8>| self.lookup(k)->Some_0)
    }
}

impl MerkleRadixTrie {
    /// What a lookup of `key` finds.
    pub closed spec fn lookup(self, key: Seq<u8>) -> Option<Seq<u8>> {
        match self.root {
            Some(r) => radix_walk(self.db@, r@, spec_nibbles(key)),
            None => None,
        }
    }

    /// What a lookup and a proof are, and how the view reads them: the walk
    /// and its nodes from the root (none in an empty trie) along the key's
    /// nibbles.
    pub proof fn lemma_lookup_def(self, key: Seq<u8>)
        ensures
            self.lookup(key) == match self.root_ref() {
                Some(r) => radix_walk(self.store()@, r, spec_nibbles(key)),
                None => None,
            },
            self.proof_of(key) == match self.root_ref() {
                Some(r) => radix_proof(self.store()@, r, spec_nibbles(key)),
                None => None,
            },
            self@.contains_key(key) == (self.lookup(key) is Some),
            self@.contains_key(key) ==> Some(self@[key]) == self.lookup(key),
    {
    }

    /// The proof that `prove` returns for `key`.
    pub closed spec fn proof_of(self, key: Seq<u8>) -> Option<Seq<Seq<u8>>> {
        match self.root {
            Some(r) => radix_proof(self.db@, r@, spec_nibbles(key)),
            None => None,
        }
    }

    /// The node store.
    pub closed spec fn store(self) -> MptNodeDb {
        self.db
    }

    /// The hash of the root branch, if the trie is not empty.
    pub closed spec fn root_ref(self) -> Option<Seq<u8>> {
        match self.root {
            Some(r) => Some(r@),
            None => None,
        }
    }

    /// The root hash as `root_hash` reports it.
    pub closed spec fn spec_root_hash(self) -> Seq<u8> {
        match self.root {
            Some(r) => r@,
            None => empty_root(),
        }
    }

    /// The trie is well kept: its store holds its invariant, is sound and
    /// holds branches only, and the root, if any, is stored.
    pub closed spec fn wf(self) -> bool {
        &&& self.db.inv()
        &&& sound(self.db@)
        &&& branches_only(self.db@)
        &&& self.root matches Some(r) ==> self.db@.contains_key(r@)
    }

    /// No two encodings written to the trie's store share a hash.
    pub closed spec fn collision_free(self) -> bool {
        self.db.collision_free()
    }

    /// The trie is well kept and canonical: its root branch, if any, is
    /// canonical, and every nibble path that reaches a value spells a key.
    pub closed spec fn canonical(self) -> bool {
        &&& self.wf()
        &&& self.root matches Some(r) ==> radix_canonical(self.db@, r@)
        &&& forall|q: Seq<u8>| #[trigger]
            radix_sub(self.db@, child_view(self.root), q) is Some ==> exists|k: Seq<u8>|
                spec_nibbles(k) == q
    }

    /// What a walk from the root of a canonical trie finds is what a lookup
    /// of the key that the walk's path spells finds.
    proof fn lemma_canonical_walk(self, q: Seq<u8>) -> (k: Seq<u8>)
        requires
            self.canonical(),
            radix_sub(self.db@, child_view(self.root), q) is Some,
        ensures
            spec_nibbles(k) == q,
            self@.contains_key(k),
            Some(self@[k]) == radix_sub(self.db@, child_view(self.root), q),
    {
        choose|k: Seq<u8>| spec_nibbles(k) == q
    }

    /// Canonical tries that hold the same keys and values have the same
    /// root hash, whatever order their entries were inserted in.
    pub proof fn lemma_canonical_same_root(a: Self, b: Self)
        requires
            a.canonical(),
            b.canonical(),
            a@ == b@,
        ensures
            a.root_ref() == b.root_ref(),
            a.spec_root_hash() == b.spec_root_hash(),
    {
        MerkleRadixTrie::lemma_canonical_root_side(a, b);
        MerkleRadixTrie::lemma_canonical_root_side(b, a);
        if let (Some(r1), Some(r2)) = (a.root, b.root) {
            let m1 = a.db@;
            let m2 = b.db@;
            assert forall|q: Seq<u8>| #[trigger] radix_walk(m1, r1@, q) == radix_walk(m2, r2@, q) by {
                if radix_walk(m1, r1@, q) is Some {
                    let k = a.lemma_canonical_walk(q);
                    assert(b@.contains_key(k));
                } else if radix_walk(m2, r2@, q) is Some {
                    let k = b.lemma_canonical_walk(q);
                    assert(a@.contains_key(k));
                }
            }
            let d1 = choose|d: nat| radix_canon_at(m1, r1@, d);
            let d2 = choose|d: nat| radix_canon_at(m2, r2@, d);
            lemma_radix_unique(a.db, b.db, r1@, r2@, d1, d2);
            assert(r1 =~= r2);
        }
    }

    /// A canonical trie with a root holds a value, so it is not equal to an
    /// empty one.
    proof fn lemma_canonical_root_side(a: Self, b: Self)
        requires
            a.canonical(),
            b.canonical(),
            a@ == b@,
        ensures
            a.root is Some ==> b.root is Some,
    {
        if let Some(r1) = a.root {
            let d = choose|d: nat| radix_canon_at(a.db@, r1@, d);
            let q = lemma_radix_witness(a.db@, r1@, d);
            let k = a.lemma_canonical_walk(q);
            assert(b@.contains_key(k));
        }
    }

    /// A proof that verifies against the root of a well-kept, nonempty trie,
    /// and whose nodes agree with the trie's store wherever their hashes are
    /// stored, proves the value that the trie holds for the key.
    pub proof fn lemma_verify_then_holds(self, key: Seq<u8>, value: Seq<u8>, nodes: Seq<Seq<u8>>)
        requires
            self.wf(),
            self.root_ref() is Some,
            spec_verify_proof(self.spec_root_hash(), key, value, nodes),
            nodes_agree(self.store()@, nodes),
        ensures
            self@.contains_key(key),
            self@[key] == value,
    {
        let r = self.root->Some_0;
        lemma_radix_verify_sound(self.db@, r@, spec_nibbles(key), value, nodes);
        assert(self.lookup(key) == Some(value));
    }

    /// An insertion of `key` finds every node it has to rewrite.
    pub closed spec fn can_insert(self, key: Seq<u8>) -> bool {
        &&& self.db.inv()
        &&& radix_insert_ok(self.db@, child_view(self.root), spec_nibbles(key))
    }

    /// Any key can be inserted into a well-kept trie.
    pub proof fn lemma_wf_can_insert(self, key: Seq<u8>)
        requires
            self.wf(),
        ensures
            self.can_insert(key),
    {
        lemma_radix_insert_ok_branch_only(self.db@, child_view(self.root), spec_nibbles(key));
    }

    /// Every key the trie holds a value for has a proof, and the proof
    /// verifies that value against the root hash.
    pub proof fn lemma_prove_then_verify(self, key: Seq<u8>)
        requires
            self.store().inv(),
            self@.contains_key(key),
        ensures
            self.proof_of(key) is Some,
            spec_verify_proof(self.spec_root_hash(), key, self@[key], self.proof_of(key)->Some_0),
    {
        let r = self.root->Some_0;
        lemma_radix_proof_verifies(self.db, r@, spec_nibbles(key));
    }

    /// An empty trie.
    pub fn new() -> (trie: Self)
        ensures
            trie@ == Map::<Seq<u8>, Seq<u8>>::empty(),
            trie.wf(),
            trie.canonical(),
            trie.root_ref() is None,
            trie.store().inv(),
            trie.store()@ == Map::<Seq<u8>, Seq<u8>>::empty(),
            trie.store().spec_len() == 0,
            trie.collision_free(),
    {
        let trie = MerkleRadixTrie { db: MptNodeDb::new(), root: None };
        assert(trie@ =~= Map::<Seq<u8>, Seq<u8>>::empty());
        trie
    }

    /// The root hash; an empty trie reports 32 zero bytes.
    pub fn root_hash(&self) -> (hash: NodeRef)
        ensures
            hash@ == self.spec_root_hash(),
    {
        match self.root {
            Some(r) => r,
            None => {
                let zero: NodeRef = [0u8; 32];
                assert(zero@ =~= empty_root());
                zero
            },
        }
    }

    /// Stores a branch, returning its hash.
    fn put_branch(&mut self, node: &BranchNode) -> (hash: NodeRef)
        requires
            old(self).db.inv(),
        ensures
            final(self).root == old(self).root,
            db_step(old(self).db, final(self).db),
            final(self).db@.contains_key(hash@),
            hash@ == spec_keccak256(node.node_view().encoding()),
            good_node(old(self).db@, node.node_view()) ==> spec_decode_node(final(self).db@[hash@])
                == Some(node.node_view().normalize()),
            sound(old(self).db@) && branches_only(old(self).db@) && good_node(old(self).db@, node.node_view())
                ==> sound(final(self).db@) && branches_only(final(self).db@),
            sound(old(self).db@) && branches_only(old(self).db@) && good_node(old(self).db@, node.node_view())
                && final(self).db.collision_free() ==> forall|q: Seq<u8>| #[trigger]
                radix_walk(final(self).db@, hash@, q) == (if q.len() == 0 {
                    nonempty_or_none(opt_bytes(node.node_view()->Branch_value))
                } else {
                    match child_at(node.node_view()->Branch_children, q[0]) {
                        Some(c) => radix_walk(old(self).db@, c, q.skip(1)),
                        None => None,
                    }
                }),
    {
        let mpt_node = MptNode::Branch { children: node.children, value: clone_value(&node.value) };
        assert(mpt_node@ == node.node_view());
        let hash = self.db.put(&mpt_node);
        proof {
            let m = old(self).db@;
            let n = node.node_view();
            if good_node(m, n) {
                lemma_good_fits(m, n);
            }
            if sound(m) && branches_only(m) && good_node(m, n) {
                lemma_good_fits(m, n);
                lemma_put_sound(m, n, hash@, n.encoding());
                assert(branches_only(self.db@));
                if self.db.collision_free() {
                    assert forall|q: Seq<u8>| #[trigger]
                        radix_walk(self.db@, hash@, q) == (if q.len() == 0 {
                            nonempty_or_none(opt_bytes(n->Branch_value))
                        } else {
                            match child_at(n->Branch_children, q[0]) {
                                Some(c) => radix_walk(m, c, q.skip(1)),
                                None => None,
                            }
                        }) by {
                        if q.len() > 0 {
                            if let Some(c) = child_at(n->Branch_children, q[0]) {
                                assert(n->Branch_children[q[0] as int] matches Some(x) ==> m.contains_key(x));
                                lemma_radix_stable(m, self.db@, c, q.skip(1));
                            }
                        }
                    }
                }
            }
        }
        hash
    }

    /// Inserts `value` at `nibbles` below the optional branch `node_hash`
    /// (a new empty branch where there is none), rebuilding and storing the
    /// branches on the way; returns the new branch's hash.
    fn insert_at(&mut self, node_hash: Option<NodeRef>, nibbles: &[u8], value: &[u8]) -> (r: NodeRef)
        requires
            old(self).db.inv(),
            is_nibble_path(nibbles@),
            radix_insert_ok(old(self).db@, child_view(node_hash), nibbles@),
        ensures
            final(self).root == old(self).root,
            db_step(old(self).db, final(self).db),
            final(self).db@.contains_key(r@),
            sound(old(self).db@) && branches_only(old(self).db@) && 0 < value@.len() < max_len()
                ==> sound(final(self).db@) && branches_only(final(self).db@),
            sound(old(self).db@) && branches_only(old(self).db@) && 0 < value@.len() < max_len()
                && final(self).db.collision_free() ==> forall|q: Seq<u8>| #[trigger]
                radix_walk(final(self).db@, r@, q) == updated(
                    radix_sub(old(self).db@, child_view(node_hash), q),
                    q,
                    nibbles@,
                    value@,
                ),
            sound(old(self).db@) && branches_only(old(self).db@) && 0 < value@.len() < max_len()
                && final(self).db.collision_free() && (node_hash matches Some(h) ==> radix_canonical(
                old(self).db@,
                h@,
            )) ==> radix_canonical(final(self).db@, r@),
            sound(old(self).db@) && radix_sub(old(self).db@, child_view(node_hash), nibbles@) == Some(
                value@,
            ) ==> node_hash == Some(r),
        decreases nibbles@.len(),
    {
        let ghost m0 = self.db;
        let mut node = match node_hash {
            Some(hash) => {
                let encoded = match self.db.get_encoded(hash) {
                    Some(e) => e,
                    None => {
                        assert(false);
                        return hash;
                    },
                };
                match BranchNode::decode(encoded) {
                    Some(n) => n,
                    None => {
                        assert(false);
                        return hash;
                    },
                }
            },
            None => BranchNode::new(),
        };
        let ghost n0 = node.node_view();
        let ghost children0 = node.children@;
        let ghost value0 = node.value;
        proof {
            if node_hash is None {
                assert(n0->Branch_children =~= Seq::new(16, |i: int| None::<Seq<u8>>));
            }
        }
        if nibbles.len() == 0 {
            node.value = Some(copy_bytes(value));
        } else {
            let index = nibbles[0] as usize;
            assert(nibbles@[0] < 16);
            let rest = crate::nibbles::slice_to_vec(nibbles, 1);
            proof {
                assert(is_nibble_path(rest@)) by {
                    assert forall|i: int| 0 <= i < rest@.len() implies #[trigger] rest@[i] < 16 by {
                        assert(rest@[i] == nibbles@[i + 1]);
                    }
                }
            }
            let ghost old_child = node.children[index as int];
            let new_child = self.insert_at(node.children[index], rest.as_slice(), value);
            node.children[index] = Some(new_child);
            proof {
                if sound(m0@) && radix_sub(m0@, child_view(node_hash), nibbles@) == Some(value@) {
                    assert(rest@ == nibbles@.skip(1));
                    assert(child_at(n0->Branch_children, nibbles@[0]) == child_view(old_child));
                    assert(new_child =~= old_child->Some_0);
                    assert(node.children@ =~= children0);
                }
            }
        }
        let ghost m1 = self.db;
        let r = self.put_branch(&node);
        proof {
            if nibbles@.len() == 0 {
                lemma_db_step_refl(m0);
            }
            lemma_db_step_trans(m0, m1, self.db);
            if sound(m0@) && radix_sub(m0@, child_view(node_hash), nibbles@) == Some(value@) {
                let h = node_hash->Some_0;
                m0.lemma_content_addressed(h@);
                assert(node.node_view() =~~= n0);
                assert(r =~= h);
            }
            let n1 = node.node_view();
            if sound(m0@) && branches_only(m0@) && 0 < value@.len() < max_len() {
                if let Some(h) = node_hash {
                    crate::trie_facts::lemma_decode_well_formed(m0@[h@]);
                }
                assert(good_node(m0@, n0));
                assert forall|i: int| 0 <= i < 16 implies (#[trigger] n1->Branch_children[i] matches Some(c)
                    ==> m1@.contains_key(c)) by {
                    assert(n1->Branch_children[i] == child_view(node.children@[i]));
                    if nibbles@.len() == 0 || i != nibbles@[0] {
                        assert(node.children@[i] == children0[i]);
                        assert(n0->Branch_children[i] == child_view(children0[i]));
                    }
                }
                assert(good_node(m1@, n1));
                if self.db.collision_free() {
                    assert(m1.collision_free());
                    if node_hash matches Some(h) ==> radix_canonical(m0@, h@) {
                        let nn = n1.normalize();
                        if nibbles@.len() > 0 {
                            let i0 = nibbles@[0] as int;
                            assert(n0->Branch_children[i0] == child_view(children0[i0]));
                            if let Some(oc) = children0[i0] {
                                let h = node_hash->Some_0;
                                let d = choose|d: nat| radix_canon_at(m0@, h@, d);
                                assert(radix_canon_at(m0@, oc@, (d - 1) as nat));
                            }
                            assert(radix_canonical(m1@, node.children@[i0]->Some_0@));
                        }
                        assert forall|i: int| 0 <= i < 16 implies (#[trigger] nn->Branch_children[i]
                            matches Some(c) ==> radix_canonical(self.db@, c)) by {
                            assert(nn->Branch_children[i] == n1->Branch_children[i]);
                            assert(n1->Branch_children[i] == child_view(node.children@[i]));
                            if let Some(c) = nn->Branch_children[i] {
                                if nibbles@.len() == 0 || i != nibbles@[0] {
                                    assert(node.children@[i] == children0[i]);
                                    assert(n0->Branch_children[i] == child_view(children0[i]));
                                    let h = node_hash->Some_0;
                                    let d = choose|d: nat| radix_canon_at(m0@, h@, d);
                                    assert(radix_canon_at(m0@, c, (d - 1) as nat));
                                    lemma_radix_canon_stable(m0@, m1@, c, (d - 1) as nat);
                                }
                                lemma_radix_canonical_stable(m1@, self.db@, c);
                            }
                        }
                        if nibbles@.len() == 0 {
                            assert(nn->Branch_value is Some);
                        } else {
                            assert(nn->Branch_children[nibbles@[0] as int] is Some);
                        }
                        lemma_radix_canon_branch(self.db@, r@);
                    }
                    assert forall|q: Seq<u8>| #[trigger]
                        radix_walk(self.db@, r@, q) == updated(
                            radix_sub(m0@, child_view(node_hash), q),
                            q,
                            nibbles@,
                            value@,
                        ) by {
                        if node_hash is Some {
                            assert(radix_sub(m0@, child_view(node_hash), q) == (if q.len() == 0 {
                                nonempty_or_none(opt_bytes(n0->Branch_value))
                            } else {
                                match child_at(n0->Branch_children, q[0]) {
                                    Some(c) => radix_walk(m0@, c, q.skip(1)),
                                    None => None,
                                }
                            }));
                        }
                        if q.len() == 0 {
                            if nibbles@.len() == 0 {
                                assert(q =~= nibbles@);
                            } else {
                                assert(q != nibbles@);
                            }
                        } else {
                            if nibbles@.len() > 0 {
                                crate::trie_facts::lemma_first_rest(q, nibbles@);
                                if q[0] == nibbles@[0] {
                                    let c1 = node.children@[nibbles@[0] as int]->Some_0@;
                                    assert(child_at(n1->Branch_children, q[0]) == Some(c1));
                                    assert(radix_walk(m1@, c1, q.skip(1)) == updated(
                                        radix_sub(m0@, child_view(children0[nibbles@[0] as int]), q.skip(1)),
                                        q.skip(1),
                                        nibbles@.skip(1),
                                        value@,
                                    ));
                                } else if q[0] < 16 {
                                    let i = q[0] as int;
                                    assert(node.children@[i] == children0[i]);
                                    if let Some(c) = child_at(n0->Branch_children, q[0]) {
                                        assert(n0->Branch_children[i] matches Some(x) ==> m0@.contains_key(x));
                                        lemma_radix_stable(m0@, m1@, c, q.skip(1));
                                    }
                                }
                            } else {
                                assert(q != nibbles@);
                                if q[0] < 16 {
                                    let i = q[0] as int;
                                    assert(node.children@[i] == children0[i]);
                                }
                            }
                        }
                    }
                }
            }
        }
        r
    }

    /// Inserts `value` under `key`: rebuilds the branches along the key's
    /// nibbles (old nodes stay in the store) and moves the root.
    ///
    /// On a well-kept trie with a nonempty value shorter than `max_len()`,
    /// the trie stays well kept, and where no two encodings written to its
    /// store share a hash, the trie afterwards maps `key` to `value` and every
    /// other key as before.
    pub fn insert(&mut self, key: &[u8], value: Vec<u8>)
        requires
            old(self).can_insert(key@),
        ensures
            final(self).store().inv(),
            final(self).root_ref() is Some,
            final(self).collision_free() ==> old(self).collision_free(),
            old(self).wf() && 0 < value@.len() < max_len() ==> final(self).wf(),
            old(self).wf() && 0 < value@.len() < max_len() && final(self).collision_free()
                ==> final(self)@ == old(self)@.insert(key@, value@),
            old(self).wf() && old(self)@.contains_key(key@) && old(self)@[key@] == value@
                ==> final(self).root_ref() == old(self).root_ref(),
            old(self).wf() && 0 < value@.len() < max_len() && final(self).collision_free() && !(old(
                self,
            )@.contains_key(key@) && old(self)@[key@] == value@) ==> final(self).root_ref() != old(
                self,
            ).root_ref(),
            old(self).canonical() && 0 < value@.len() < max_len() && final(self).collision_free()
                ==> final(self).canonical(),
    {
        let nibbles = bytes_to_nibbles(key);
        proof {
            crate::nibbles::lemma_nibbles_are_nibbles(key@);
        }
        let root = self.root;
        let new_root = self.insert_at(root, nibbles.as_slice(), value.as_slice());
        self.root = Some(new_root);
        proof {
            let m0 = old(self).db@;
            if old(self).wf() && 0 < value@.len() < max_len() && self.collision_free() {
                assert forall|k: Seq<u8>|
                    #[trigger] self.lookup(k) == (if k == key@ {
                        Some(value@)
                    } else {
                        old(self).lookup(k)
                    }) by {
                    if spec_nibbles(k) == spec_nibbles(key@) {
                        lemma_nibbles_injective(k, key@);
                    }
                }
                assert(self@ =~= old(self)@.insert(key@, value@));
                if old(self).canonical() {
                    assert forall|q: Seq<u8>| #[trigger]
                        radix_sub(self.db@, child_view(self.root), q) is Some implies exists|k: Seq<u8>|
                        spec_nibbles(k) == q by {
                        if q == spec_nibbles(key@) {
                            assert(spec_nibbles(key@) == q);
                        } else {
                            assert(radix_sub(m0, child_view(old(self).root), q) is Some);
                        }
                    }
                }
                if self.root_ref() == old(self).root_ref() {
                    let r0 = new_root@;
                    assert(root matches Some(r) && r@ == r0);
                    lemma_radix_stable(m0, self.db@, r0, spec_nibbles(key@));
                    assert(self.lookup(key@) == Some(value@));
                    assert(self.lookup(key@) == old(self).lookup(key@));
                }
            }
        }
    }

    /// Looks `key` up: follows one child per nibble from the root, then
    /// returns the value of the branch reached.
    pub fn get(&self, key: &[u8]) -> (value: Option<Vec<u8>>)
        ensures
            opt_view(value) == self.lookup(key@),
            match value {
                Some(v) => self@.contains_key(key@) && self@[key@] == v@,
                None => !self@.contains_key(key@),
            },
    {
        let nibbles = bytes_to_nibbles(key);
        let mut current = match self.root {
            Some(r) => r,
            None => return None,
        };
        let ghost m = self.db@;
        let ghost target = self.lookup(key@);
        let mut pos: usize = 0;
        assert(nibbles@.skip(0) =~= nibbles@);
        while pos < nibbles.len()
            invariant
                m == self.db@,
                pos <= nibbles@.len(),
                nibbles@ == spec_nibbles(key@),
                target == self.lookup(key@),
                target == radix_walk(m, current@, nibbles@.skip(pos as int)),
            decreases nibbles@.len() - pos,
        {
            let ghost rest = nibbles@.skip(pos as int);
            let encoded = match self.db.get_encoded(current) {
                Some(e) => e,
                None => return None,
            };
            let node = match BranchNode::decode(encoded) {
                Some(n) => n,
                None => return None,
            };
            let nibble = nibbles[pos];
            assert(nibble == rest[0]);
            assert(nibble < 16);
            match node.children[nibble as usize] {
                Some(c) => {
                    assert(child_view(node.children@[nibble as int]) == Some(c@));
                    assert(rest.skip(1) =~= nibbles@.skip(pos + 1));
                    current = c;
                },
                None => {
                    assert(child_view(node.children@[nibble as int]) is None);
                    return None;
                },
            }
            pos = pos + 1;
        }
        let encoded = match self.db.get_encoded(current) {
            Some(e) => e,
            None => return None,
        };
        let node = match BranchNode::decode(encoded) {
            Some(n) => n,
            None => return None,
        };
        node.value
    }

    /// The encodings of the nodes from the root along the key's nibbles,
    /// the last one being the node where the key ends.
    pub fn prove(&self, key: &[u8]) -> (nodes: Option<ProofNodes>)
        ensures
            match nodes {
                Some(p) => self.proof_of(key@) == Some(bytes_list_view(p@)),
                None => self.proof_of(key@) is None,
            },
    {
        let nibbles = bytes_to_nibbles(key);
        let mut current = match self.root {
            Some(r) => r,
            None => return None,
        };
        let ghost m = self.db@;
        let ghost target = self.proof_of(key@);
        let mut visited: Vec<Vec<u8>> = Vec::new();
        let mut pos: usize = 0;
        assert(nibbles@.skip(0) =~= nibbles@);
        assert(bytes_list_view(visited@) =~= Seq::<Seq<u8>>::empty());
        while pos < nibbles.len()
            invariant
                m == self.db@,
                pos <= nibbles@.len(),
                nibbles@ == spec_nibbles(key@),
                target == self.proof_of(key@),
                target == match radix_proof(m, current@, nibbles@.skip(pos as int)) {
                    Some(r) => Some(bytes_list_view(visited@) + r),
                    None => None,
                },
            decreases nibbles@.len() - pos,
        {
            let ghost rest = nibbles@.skip(pos as int);
            let ghost before = bytes_list_view(visited@);
            let encoded = match self.db.get_encoded(current) {
                Some(e) => e,
                None => return None,
            };
            let node = match BranchNode::decode(encoded) {
                Some(n) => n,
                None => return None,
            };
            visited.push(copy_bytes(encoded));
            assert(bytes_list_view(visited@) =~= before + seq![encoded@]);
            let nibble = nibbles[pos];
            assert(nibble == rest[0]);
            assert(nibble < 16);
            match node.children[nibble as usize] {
                Some(c) => {
                    assert(child_view(node.children@[nibble as int]) == Some(c@));
                    assert(rest.skip(1) =~= nibbles@.skip(pos + 1));
                    proof {
                        let tail = radix_proof(m, c@, rest.skip(1));
                        if tail is Some {
                            assert(before + seq![encoded@] + tail->Some_0 =~= before + (seq![encoded@]
                                + tail->Some_0));
                        }
                    }
                    current = c;
                },
                None => {
                    assert(child_view(node.children@[nibble as int]) is None);
                    return None;
                },
            }
            pos = pos + 1;
        }
        let encoded = match self.db.get_encoded(current) {
            Some(e) => e,
            None => return None,
        };
        let ghost before = bytes_list_view(visited@);
        visited.push(copy_bytes(encoded));
        assert(bytes_list_view(visited@) =~= before + seq![encoded@]);
        Some(visited)
    }
}

/// Checks a proof: exactly one node per nibble of `key` plus one, each
/// hashing to the reference that leads to it from `root`, each a branch,
/// the last holding `expected_value`.
pub fn verify_proof(
    root: NodeRef,
    key: &[u8],
    expected_value: &[u8],
    nodes: &[Vec<u8>],
) -> (ok: bool)
    ensures
        ok == spec_verify_proof(root@, key@, expected_value@, bytes_list_view(nodes@)),
{
    let nibbles = bytes_to_nibbles(key);
    let ghost all = bytes_list_view(nodes@);
    if nodes.len() != nibbles.len() + 1 {
        return false;
    }
    let ghost target = spec_verify_proof(root@, key@, expected_value@, all);
    let mut expected_hash = root;
    let mut depth: usize = 0;
    assert(nibbles@.skip(0) =~= nibbles@);
    assert(all.skip(0) =~= all);
    while depth < nodes.len()
        invariant
            nodes@.len() == nibbles@.len() + 1,
            depth <= nibbles@.len(),
            nibbles@ == spec_nibbles(key@),
            all == bytes_list_view(nodes@),
            target == spec_verify_proof(root@, key@, expected_value@, all),
            target == radix_verify_from(
                expected_hash@,
                nibbles@.skip(depth as int),
                expected_value@,
                all.skip(depth as int),
            ),
        decreases nodes@.len() - depth,
    {
        let ghost rest = nibbles@.skip(depth as int);
        let ghost remaining = all.skip(depth as int);
        let encoded = nodes[depth].as_slice();
        assert(remaining.len() == nodes@.len() - depth);
        assert(remaining[0] == encoded@);
        let actual = keccak256(encoded);
        if !hash_eq(&actual, &expected_hash) {
            assert(spec_keccak256(remaining[0]) != expected_hash@);
            return false;
        }
        let node = match BranchNode::decode(encoded) {
            Some(n) => n,
            None => return false,
        };
        if depth == nibbles.len() {
            return match &node.value {
                Some(v) => bytes_eq(v.as_slice(), expected_value),
                None => false,
            };
        }
        let nibble = nibbles[depth];
        assert(nibble == rest[0]);
        assert(nibble < 16);
        match node.children[nibble as usize] {
            None => {
                assert(child_view(node.children@[nibble as int]) is None);
                return false;
            },
            Some(child_hash) => {
                assert(child_view(node.children@[nibble as int]) == Some(child_hash@));
                assert(rest.skip(1) =~= nibbles@.skip(depth + 1));
                assert(remaining.skip(1) =~= all.skip(depth + 1));
                expected_hash = child_hash;
            },
        }
        depth = depth + 1;
    }
    false
}

impl Default for MerkleRadixTrie {
    /// The same as `MerkleRadixTrie::new()`.
    fn default() -> (d: Self)
        ensures
            d@ == Map::<Seq<u8>, Seq<u8>>::empty(),
            d.wf(),
            d.collision_free(),
    {
        MerkleRadixTrie::new()
    }
}

} // verus!
