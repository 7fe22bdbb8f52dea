//! Canonical tries: every branch parts at least two entries and every
//! extension leads to a branch. Two canonical tries that hold the same
//! entries have the same root hash, however they were built.
use vstd::prelude::*;

use crate::mpt::{spec_decode_node, NodeView};
use crate::mpt_trie::{starts_with, walk};
use crate::node_db::MptNodeDb;
use crate::trie_facts::sound;

verus! {

/// A branch parts at least two entries: its value and a child, or two children.
pub open spec fn branch_parts(children: Seq<Option<Seq<u8>>>, value: Option<Seq<u8>>) -> bool {
    ||| value is Some && exists|i: int| 0 <= i < 16 && #[trigger] children[i] is Some
    ||| exists|i: int, j: int|
        0 <= i < 16 && 0 <= j < 16 && i != j && #[trigger] children[i] is Some
            && #[trigger] children[j] is Some
}

/// The node `n` is canonical over the store `m`, its descendants within
/// `depth` levels: a leaf; a branch that parts two entries, over canonical
/// children; or an extension with a nonempty path over a canonical branch.
pub open spec fn canon_node(m: Map<Seq<u8>, Seq<u8>>, n: NodeView, depth: nat) -> bool
    decreases depth, 0nat,
{
    match n {
        NodeView::Leaf { .. } => true,
        NodeView::Branch { children, value } => depth > 0 && branch_parts(children, value) && forall|
            i: int,
        |
            0 <= i < 16 ==> (#[trigger] children[i] matches Some(c) ==> canon_at(
                m,
                c,
                (depth - 1) as nat,
            )),
        NodeView::Extension { path, child } => depth > 0 && path.len() > 0 && canon_at(
            m,
            child,
            (depth - 1) as nat,
        ) && (spec_decode_node(m[child]) matches Some(NodeView::Branch { .. })),
    }
}

/// The node stored under `h` is canonical within `depth` levels.
pub open spec fn canon_at(m: Map<Seq<u8>, Seq<u8>>, h: Seq<u8>, depth: nat) -> bool
    decreases depth, 1nat,
{
    m.contains_key(h) && match spec_decode_node(m[h]) {
        Some(n) => canon_node(m, n, depth),
        None => false,
    }
}

/// The entries a walk from `h` finds are the same in `m1` and `m2`.
pub open spec fn same_entries(
    m1: Map<Seq<u8>, Seq<u8>>,
    h1: Seq<u8>,
    m2: Map<Seq<u8>, Seq<u8>>,
    h2: Seq<u8>,
) -> bool {
    forall|q: Seq<u8>| #[trigger] walk(m1, h1, q, 0) == walk(m2, h2, q, 0)
}

/// The node stored under `h` is canonical at some depth.
pub open spec fn canonical_node(m: Map<Seq<u8>, Seq<u8>>, h: Seq<u8>) -> bool {
    exists|d: nat| canon_at(m, h, d)
}

/// A branch with these slots and this value parts two entries over
/// canonical children.
pub open spec fn canonical_branch(
    m: Map<Seq<u8>, Seq<u8>>,
    children: Seq<Option<Seq<u8>>>,
    value: Option<Seq<u8>>,
) -> bool {
    &&& branch_parts(children, value)
    &&& forall|i: int|
        0 <= i < 16 ==> (#[trigger] children[i] matches Some(c) ==> canonical_node(m, c))
}

/// The node stored under `h` is a branch.
pub open spec fn is_branch_at(m: Map<Seq<u8>, Seq<u8>>, h: Seq<u8>) -> bool {
    m.contains_key(h) && spec_decode_node(m[h]) matches Some(NodeView::Branch { .. })
}

/// A depth at which each of the first `k` children is canonical.
proof fn lemma_children_depth(
    m: Map<Seq<u8>, Seq<u8>>,
    children: Seq<Option<Seq<u8>>>,
    k: int,
) -> (d: nat)
    requires
        0 <= k <= 16,
        forall|i: int|
            0 <= i < 16 ==> (#[trigger] children[i] matches Some(c) ==> canonical_node(m, c)),
    ensures
        forall|i: int| 0 <= i < k ==> (#[trigger] children[i] matches Some(c) ==> canon_at(m, c, d)),
    decreases k,
{
    if k == 0 {
        0
    } else {
        let d0 = lemma_children_depth(m, children, k - 1);
        match children[k - 1] {
            Some(c) => {
                assert(canonical_node(m, c));
                let dc = choose|d: nat| canon_at(m, c, d);
                let d1 = if d0 < dc {
                    dc
                } else {
                    d0
                };
                assert forall|i: int| 0 <= i < k implies (#[trigger] children[i] matches Some(x)
                    ==> canon_at(m, x, d1)) by {
                    if let Some(x) = children[i] {
                        if i < k - 1 {
                            lemma_canon_deeper(m, x, d0, d1);
                        } else {
                            lemma_canon_deeper(m, x, dc, d1);
                        }
                    }
                }
                d1
            },
            None => d0,
        }
    }
}

/// A stored leaf is canonical.
pub proof fn lemma_canon_leaf(m: Map<Seq<u8>, Seq<u8>>, h: Seq<u8>)
    requires
        m.contains_key(h),
        spec_decode_node(m[h]) matches Some(NodeView::Leaf { .. }),
    ensures
        canonical_node(m, h),
{
    assert(canon_at(m, h, 0));
}

/// A stored branch that parts two entries over canonical children is
/// canonical.
pub proof fn lemma_canon_branch(m: Map<Seq<u8>, Seq<u8>>, h: Seq<u8>)
    requires
        m.contains_key(h),
        spec_decode_node(m[h]) matches Some(NodeView::Branch { children, value })
            && canonical_branch(m, children, value),
    ensures
        canonical_node(m, h),
{
    let children = spec_decode_node(m[h])->Some_0->Branch_children;
    let d = lemma_children_depth(m, children, 16);
    assert(canon_at(m, h, d + 1));
}

/// A stored extension with a nonempty path over a canonical branch is
/// canonical.
pub proof fn lemma_canon_extension(m: Map<Seq<u8>, Seq<u8>>, h: Seq<u8>)
    requires
        m.contains_key(h),
        spec_decode_node(m[h]) matches Some(NodeView::Extension { path, child }) && path.len() > 0
            && canonical_node(m, child) && is_branch_at(m, child),
    ensures
        canonical_node(m, h),
{
    let child = spec_decode_node(m[h])->Some_0->Extension_child;
    let d = choose|d: nat| canon_at(m, child, d);
    assert(canon_at(m, h, d + 1));
}

/// What a canonical branch or extension says of its parts.
pub proof fn lemma_canon_parts(m: Map<Seq<u8>, Seq<u8>>, h: Seq<u8>)
    requires
        canonical_node(m, h),
    ensures
        m.contains_key(h),
        spec_decode_node(m[h]) matches Some(NodeView::Branch { children, value })
            ==> canonical_branch(m, children, value),
        spec_decode_node(m[h]) matches Some(NodeView::Extension { path, child }) ==> path.len() > 0
            && canonical_node(m, child) && is_branch_at(m, child),
{
    let d = choose|d: nat| canon_at(m, h, d);
    match spec_decode_node(m[h]) {
        Some(NodeView::Branch { children, value }) => {
            assert forall|i: int| 0 <= i < 16 implies (#[trigger] children[i] matches Some(c)
                ==> canonical_node(m, c)) by {
                if let Some(c) = children[i] {
                    assert(canon_at(m, c, (d - 1) as nat));
                }
            }
        },
        Some(NodeView::Extension { path, child }) => {
            assert(canon_at(m, child, (d - 1) as nat));
        },
        _ => {},
    }
}

/// Canonical nodes of a sound store stay canonical, and branches stay
/// branches, in any extension of it.
pub proof fn lemma_canonical_stable(
    m: Map<Seq<u8>, Seq<u8>>,
    m2: Map<Seq<u8>, Seq<u8>>,
    h: Seq<u8>,
)
    requires
        sound(m),
        m.submap_of(m2),
        m.contains_key(h),
    ensures
        canonical_node(m, h) ==> canonical_node(m2, h),
        is_branch_at(m, h) ==> is_branch_at(m2, h),
{
    assert(m2.contains_key(h) && m2[h] == m[h]);
    if canonical_node(m, h) {
        let d = choose|d: nat| canon_at(m, h, d);
        lemma_canon_stable(m, m2, h, d);
    }
}

/// A child of a canonical branch is canonical, and stays so in any
/// extension of a sound store.
proof fn lemma_canon_child_stable(
    m0: Map<Seq<u8>, Seq<u8>>,
    m: Map<Seq<u8>, Seq<u8>>,
    children: Seq<Option<Seq<u8>>>,
    value: Option<Seq<u8>>,
    i: int,
)
    requires
        sound(m0),
        m0.submap_of(m),
        canonical_branch(m0, children, value),
        0 <= i < 16,
        children[i] is Some,
    ensures
        canonical_node(m, children[i]->Some_0),
{
    let c = children[i]->Some_0;
    assert(canonical_node(m0, c));
    let d = choose|d: nat| canon_at(m0, c, d);
    assert(m0.contains_key(c));
    lemma_canonical_stable(m0, m, c);
}

/// A slot that a canonical branch fills.
proof fn lemma_branch_some_child(
    children: Seq<Option<Seq<u8>>>,
    value: Option<Seq<u8>>,
) -> (i: int)
    requires
        branch_parts(children, value),
    ensures
        0 <= i < 16,
        children[i] is Some,
{
    if value is Some && exists|i: int| 0 <= i < 16 && #[trigger] children[i] is Some {
        choose|i: int| 0 <= i < 16 && #[trigger] children[i] is Some
    } else {
        let (i, j) = choose|i: int, j: int|
            0 <= i < 16 && 0 <= j < 16 && i != j && #[trigger] children[i] is Some
                && #[trigger] children[j] is Some;
        i
    }
}

/// A canonical branch given a value, stored in an extension of its store,
/// is canonical.
pub proof fn lemma_canon_set_value(
    m0: Map<Seq<u8>, Seq<u8>>,
    m: Map<Seq<u8>, Seq<u8>>,
    children: Seq<Option<Seq<u8>>>,
    value: Option<Seq<u8>>,
    n: NodeView,
    h: Seq<u8>,
)
    requires
        sound(m0),
        m0.submap_of(m),
        canonical_branch(m0, children, value),
        m.contains_key(h),
        spec_decode_node(m[h]) == Some(n.normalize()),
        n is Branch,
        n->Branch_children == children,
        n.normalize()->Branch_value is Some,
    ensures
        canonical_node(m, h),
{
    let nn = n.normalize();
    assert forall|i: int| 0 <= i < 16 implies (#[trigger] nn->Branch_children[i] matches Some(c)
        ==> canonical_node(m, c)) by {
        if nn->Branch_children[i] is Some {
            lemma_canon_child_stable(m0, m, children, value, i);
        }
    }
    let i = lemma_branch_some_child(children, value);
    assert(nn->Branch_children[i] is Some);
    lemma_canon_branch(m, h);
}

/// A canonical node of a sound store stays canonical in an extension of it.
pub proof fn lemma_canonical_node_stable(
    m: Map<Seq<u8>, Seq<u8>>,
    m2: Map<Seq<u8>, Seq<u8>>,
    h: Seq<u8>,
)
    requires
        sound(m),
        m.submap_of(m2),
        canonical_node(m, h),
    ensures
        canonical_node(m2, h),
{
    let d = choose|d: nat| canon_at(m, h, d);
    assert(m.contains_key(h));
    lemma_canonical_stable(m, m2, h);
}

/// The slots of a branch that takes a canonical branch's slots but one,
/// and a canonical node there, part two entries with the same value.
proof fn lemma_replaced_parts(
    children: Seq<Option<Seq<u8>>>,
    value: Option<Seq<u8>>,
    ncs: Seq<Option<Seq<u8>>>,
    k: int,
)
    requires
        branch_parts(children, value),
        0 <= k < 16,
        forall|i: int| 0 <= i < 16 && i != k ==> #[trigger] ncs[i] == children[i],
        ncs[k] is Some,
    ensures
        branch_parts(ncs, value),
{
    if value is Some && exists|i: int| 0 <= i < 16 && #[trigger] children[i] is Some {
        assert(ncs[k] is Some);
    } else {
        let (i, j) = choose|i: int, j: int|
            0 <= i < 16 && 0 <= j < 16 && i != j && #[trigger] children[i] is Some
                && #[trigger] children[j] is Some;
        if i != k {
            assert(ncs[i] == children[i]);
        }
        if j != k {
            assert(ncs[j] == children[j]);
        }
        assert(ncs[i] is Some && ncs[j] is Some);
    }
}

/// A canonical branch with one slot filled anew by a node canonical in
/// an intermediate store, stored in an extension of that store, is
/// canonical.
pub proof fn lemma_canon_replace_child(
    m0: Map<Seq<u8>, Seq<u8>>,
    m1: Map<Seq<u8>, Seq<u8>>,
    m: Map<Seq<u8>, Seq<u8>>,
    children: Seq<Option<Seq<u8>>>,
    value: Option<Seq<u8>>,
    n: NodeView,
    k: int,
    h: Seq<u8>,
)
    requires
        sound(m0),
        sound(m1),
        m0.submap_of(m1),
        m1.submap_of(m),
        canonical_branch(m0, children, value),
        m.contains_key(h),
        spec_decode_node(m[h]) == Some(n.normalize()),
        n is Branch,
        0 <= k < 16,
        forall|i: int| 0 <= i < 16 && i != k ==> #[trigger] n->Branch_children[i] == children[i],
        n->Branch_children[k] matches Some(c) && canonical_node(m1, c),
        n.normalize()->Branch_value == value,
    ensures
        canonical_node(m, h),
{
    let ncs = n.normalize()->Branch_children;
    assert forall|i: int| 0 <= i < 16 implies (#[trigger] ncs[i] matches Some(c) ==> canonical_node(
        m,
        c,
    )) by {
        if let Some(c) = ncs[i] {
            if i != k {
                assert(ncs[i] == children[i]);
                lemma_canon_child_stable(m0, m1, children, value, i);
            }
            lemma_canonical_node_stable(m1, m, c);
        }
    }
    lemma_replaced_parts(children, value, ncs, k);
    lemma_canon_branch(m, h);
}

/// A branch canonical over a sound store, stored in an extension of it, is
/// canonical there.
pub proof fn lemma_canon_branch_stored(
    m: Map<Seq<u8>, Seq<u8>>,
    m2: Map<Seq<u8>, Seq<u8>>,
    n: NodeView,
    h: Seq<u8>,
)
    requires
        sound(m),
        m.submap_of(m2),
        m2.contains_key(h),
        spec_decode_node(m2[h]) == Some(n),
        n matches NodeView::Branch { children, value } && canonical_branch(m, children, value),
    ensures
        canonical_node(m2, h),
        is_branch_at(m2, h),
{
    let children = n->Branch_children;
    assert forall|i: int| 0 <= i < 16 implies (#[trigger] children[i] matches Some(c)
        ==> canonical_node(m2, c)) by {
        if let Some(c) = children[i] {
            lemma_canonical_node_stable(m, m2, c);
        }
    }
    lemma_canon_branch(m2, h);
}

/// More depth does no harm.
pub proof fn lemma_canon_deeper(m: Map<Seq<u8>, Seq<u8>>, h: Seq<u8>, depth: nat, more: nat)
    requires
        canon_at(m, h, depth),
        depth <= more,
    ensures
        canon_at(m, h, more),
    decreases depth,
{
    match spec_decode_node(m[h]) {
        Some(NodeView::Branch { children, value }) => {
            assert forall|i: int| 0 <= i < 16 implies (#[trigger] children[i] matches Some(c)
                ==> canon_at(m, c, (more - 1) as nat)) by {
                if let Some(c) = children[i] {
                    lemma_canon_deeper(m, c, (depth - 1) as nat, (more - 1) as nat);
                }
            }
        },
        Some(NodeView::Extension { path, child }) => {
            lemma_canon_deeper(m, child, (depth - 1) as nat, (more - 1) as nat);
        },
        _ => {},
    }
}

/// Canonical nodes of a sound store stay canonical in any extension of it.
pub proof fn lemma_canon_stable(
    m: Map<Seq<u8>, Seq<u8>>,
    m2: Map<Seq<u8>, Seq<u8>>,
    h: Seq<u8>,
    depth: nat,
)
    requires
        sound(m),
        m.submap_of(m2),
        canon_at(m, h, depth),
    ensures
        canon_at(m2, h, depth),
    decreases depth,
{
    assert(m.contains_key(h));
    assert(m2.contains_key(h) && m2[h] == m[h]);
    match spec_decode_node(m[h]) {
        Some(NodeView::Branch { children, value }) => {
            assert forall|i: int| 0 <= i < 16 implies (#[trigger] children[i] matches Some(c)
                ==> canon_at(m2, c, (depth - 1) as nat)) by {
                if let Some(c) = children[i] {
                    lemma_canon_stable(m, m2, c, (depth - 1) as nat);
                }
            }
        },
        Some(NodeView::Extension { path, child }) => {
            lemma_canon_stable(m, m2, child, (depth - 1) as nat);
            assert(m2[child] == m[child]);
        },
        _ => {},
    }
}

/// A walk into a branch's slot `i` is a walk from the child there.
pub proof fn lemma_walk_branch_child(m: Map<Seq<u8>, Seq<u8>>, h: Seq<u8>, i: int, q: Seq<u8>)
    requires
        m.contains_key(h),
        spec_decode_node(m[h]) matches Some(NodeView::Branch { .. }),
        0 <= i < 16,
    ensures
        walk(m, h, seq![i as u8] + q, 0) == match spec_decode_node(m[h])->Some_0->Branch_children[i] {
            Some(c) => walk(m, c, q, 0),
            None => None,
        },
{
    let k = seq![i as u8] + q;
    assert(k[0] == i as u8);
    assert(k.skip(1) =~= q);
}

/// A walk through an extension's path is a walk from its child.
pub proof fn lemma_walk_extension_child(m: Map<Seq<u8>, Seq<u8>>, h: Seq<u8>, q: Seq<u8>)
    requires
        m.contains_key(h),
        spec_decode_node(m[h]) matches Some(NodeView::Extension { path, .. }) && path.len() > 0,
    ensures
        walk(m, h, spec_decode_node(m[h])->Some_0->Extension_path + q, 0) == walk(
            m,
            spec_decode_node(m[h])->Some_0->Extension_child,
            q,
            0,
        ),
{
    let p = spec_decode_node(m[h])->Some_0->Extension_path;
    let k = p + q;
    assert(k.take(p.len() as int) =~= p);
    assert(k.skip(p.len() as int) =~= q);
}

/// A canonical node reaches at least one value.
pub proof fn lemma_canon_witness(m: Map<Seq<u8>, Seq<u8>>, h: Seq<u8>, depth: nat) -> (q: Seq<u8>)
    requires
        sound(m),
        canon_at(m, h, depth),
    ensures
        walk(m, h, q, 0) is Some,
    decreases depth,
{
    match spec_decode_node(m[h]) {
        Some(NodeView::Leaf { path, .. }) => path,
        Some(NodeView::Branch { children, value }) => {
            if value is Some {
                Seq::empty()
            } else {
                let i = choose|i: int| 0 <= i < 16 && #[trigger] children[i] is Some;
                let c = children[i]->Some_0;
                let rest = lemma_canon_witness(m, c, (depth - 1) as nat);
                lemma_walk_branch_child(m, h, i, rest);
                seq![i as u8] + rest
            }
        },
        Some(NodeView::Extension { path, child }) => {
            let rest = lemma_canon_witness(m, child, (depth - 1) as nat);
            lemma_walk_extension_child(m, h, rest);
            path + rest
        },
        None => Seq::empty(),
    }
}

/// A canonical branch reaches two values whose paths do not share a first
/// nibble (one of them may be empty).
pub proof fn lemma_canon_branch_parts(
    m: Map<Seq<u8>, Seq<u8>>,
    h: Seq<u8>,
    depth: nat,
) -> (qs: (Seq<u8>, Seq<u8>))
    requires
        sound(m),
        canon_at(m, h, depth),
        spec_decode_node(m[h]) matches Some(NodeView::Branch { .. }),
    ensures
        walk(m, h, qs.0, 0) is Some,
        walk(m, h, qs.1, 0) is Some,
        qs.1.len() > 0,
        qs.0.len() == 0 || qs.0[0] != qs.1[0],
{
    let n = spec_decode_node(m[h])->Some_0;
    let children = n->Branch_children;
    if n->Branch_value is Some && exists|i: int| 0 <= i < 16 && #[trigger] children[i] is Some {
        let i = choose|i: int| 0 <= i < 16 && #[trigger] children[i] is Some;
        let rest = lemma_canon_witness(m, children[i]->Some_0, (depth - 1) as nat);
        lemma_walk_branch_child(m, h, i, rest);
        (Seq::empty(), seq![i as u8] + rest)
    } else {
        let (i, j) = choose|i: int, j: int|
            0 <= i < 16 && 0 <= j < 16 && i != j && #[trigger] children[i] is Some
                && #[trigger] children[j] is Some;
        let ri = lemma_canon_witness(m, children[i]->Some_0, (depth - 1) as nat);
        let rj = lemma_canon_witness(m, children[j]->Some_0, (depth - 1) as nat);
        lemma_walk_branch_child(m, h, i, ri);
        lemma_walk_branch_child(m, h, j, rj);
        (seq![i as u8] + ri, seq![j as u8] + rj)
    }
}

/// Two canonical nodes of sound, content-addressed stores that reach the
/// same values along the same paths are the same node: they have the same
/// hash.
pub proof fn lemma_canon_unique(
    d1: MptNodeDb,
    d2: MptNodeDb,
    h1: Seq<u8>,
    h2: Seq<u8>,
    depth1: nat,
    depth2: nat,
)
    requires
        d1.inv(),
        d2.inv(),
        sound(d1@),
        sound(d2@),
        canon_at(d1@, h1, depth1),
        canon_at(d2@, h2, depth2),
        same_entries(d1@, h1, d2@, h2),
    ensures
        h1 == h2,
    decreases depth1,
{
    let m1 = d1@;
    let m2 = d2@;
    let n1 = spec_decode_node(m1[h1])->Some_0;
    let n2 = spec_decode_node(m2[h2])->Some_0;
    d1.lemma_content_addressed(h1);
    d2.lemma_content_addressed(h2);
    match n1 {
        NodeView::Leaf { path: p1, value: v1 } => {
            assert(walk(m1, h1, p1, 0) == walk(m2, h2, p1, 0));
            match n2 {
                NodeView::Leaf { .. } => {},
                NodeView::Branch { .. } => {
                    let (qa, qb) = lemma_canon_branch_parts(m2, h2, depth2);
                    assert(walk(m1, h1, qa, 0) == walk(m2, h2, qa, 0));
                    assert(walk(m1, h1, qb, 0) == walk(m2, h2, qb, 0));
                    assert(qa != qb);
                },
                NodeView::Extension { path: p2, child: c2 } => {
                    let (qa, qb) = lemma_canon_branch_parts(m2, c2, (depth2 - 1) as nat);
                    lemma_walk_extension_child(m2, h2, qa);
                    lemma_walk_extension_child(m2, h2, qb);
                    assert(walk(m1, h1, p2 + qa, 0) == walk(m2, h2, p2 + qa, 0));
                    assert(walk(m1, h1, p2 + qb, 0) == walk(m2, h2, p2 + qb, 0));
                    assert((p2 + qa).skip(p2.len() as int) =~= qa);
                    assert((p2 + qb).skip(p2.len() as int) =~= qb);
                },
            }
        },
        NodeView::Branch { children: cs1, value: v1 } => {
            match n2 {
                NodeView::Leaf { path: p2, .. } => {
                    let (qa, qb) = lemma_canon_branch_parts(m1, h1, depth1);
                    assert(walk(m1, h1, qa, 0) == walk(m2, h2, qa, 0));
                    assert(walk(m1, h1, qb, 0) == walk(m2, h2, qb, 0));
                },
                NodeView::Extension { path: p2, .. } => {
                    let (qa, qb) = lemma_canon_branch_parts(m1, h1, depth1);
                    assert(walk(m1, h1, qa, 0) == walk(m2, h2, qa, 0));
                    assert(walk(m1, h1, qb, 0) == walk(m2, h2, qb, 0));
                    assert(qa.take(p2.len() as int)[0] == qa[0]);
                    assert(qb.take(p2.len() as int)[0] == qb[0]);
                },
                NodeView::Branch { children: cs2, value: v2 } => {
                    assert(walk(m1, h1, Seq::empty(), 0) == walk(m2, h2, Seq::empty(), 0));
                    assert forall|i: int| 0 <= i < 16 implies cs1[i] == cs2[i] by {
                        lemma_branch_child_unique(d1, d2, h1, h2, depth1, depth2, i);
                    }
                    assert(cs1 =~= cs2);
                },
            }
        },
        NodeView::Extension { path: p1, child: c1 } => {
            match n2 {
                NodeView::Leaf { .. } => {
                    let (qa, qb) = lemma_canon_branch_parts(m1, c1, (depth1 - 1) as nat);
                    lemma_walk_extension_child(m1, h1, qa);
                    lemma_walk_extension_child(m1, h1, qb);
                    assert(walk(m1, h1, p1 + qa, 0) == walk(m2, h2, p1 + qa, 0));
                    assert(walk(m1, h1, p1 + qb, 0) == walk(m2, h2, p1 + qb, 0));
                    assert((p1 + qa).skip(p1.len() as int) =~= qa);
                    assert((p1 + qb).skip(p1.len() as int) =~= qb);
                },
                NodeView::Branch { .. } => {
                    let (qa, qb) = lemma_canon_branch_parts(m2, h2, depth2);
                    assert(walk(m1, h1, qa, 0) == walk(m2, h2, qa, 0));
                    assert(walk(m1, h1, qb, 0) == walk(m2, h2, qb, 0));
                    assert(qa.take(p1.len() as int)[0] == qa[0]);
                    assert(qb.take(p1.len() as int)[0] == qb[0]);
                },
                NodeView::Extension { path: p2, child: c2 } => {
                    lemma_extension_unique(d1, d2, h1, h2, depth1, depth2);
                },
            }
        },
    }
}

/// Two canonical branches with the same entries have the same child in
/// slot `i`.
proof fn lemma_branch_child_unique(
    d1: MptNodeDb,
    d2: MptNodeDb,
    h1: Seq<u8>,
    h2: Seq<u8>,
    depth1: nat,
    depth2: nat,
    i: int,
)
    requires
        d1.inv(),
        d2.inv(),
        sound(d1@),
        sound(d2@),
        canon_at(d1@, h1, depth1),
        canon_at(d2@, h2, depth2),
        same_entries(d1@, h1, d2@, h2),
        spec_decode_node(d1@[h1]) matches Some(NodeView::Branch { .. }),
        spec_decode_node(d2@[h2]) matches Some(NodeView::Branch { .. }),
        0 <= i < 16,
    ensures
        spec_decode_node(d1@[h1])->Some_0->Branch_children[i] == spec_decode_node(
            d2@[h2],
        )->Some_0->Branch_children[i],
    decreases depth1, 0nat,
{
    let m1 = d1@;
    let m2 = d2@;
    let c1 = spec_decode_node(m1[h1])->Some_0->Branch_children[i];
    let c2 = spec_decode_node(m2[h2])->Some_0->Branch_children[i];
    match (c1, c2) {
        (Some(x), Some(y)) => {
            assert forall|q: Seq<u8>| #[trigger] walk(m1, x, q, 0) == walk(m2, y, q, 0) by {
                lemma_walk_branch_child(m1, h1, i, q);
                lemma_walk_branch_child(m2, h2, i, q);
                assert(walk(m1, h1, seq![i as u8] + q, 0) == walk(m2, h2, seq![i as u8] + q, 0));
            }
            lemma_canon_unique(d1, d2, x, y, (depth1 - 1) as nat, (depth2 - 1) as nat);
        },
        (Some(x), None) => {
            let q = lemma_canon_witness(m1, x, (depth1 - 1) as nat);
            lemma_walk_branch_child(m1, h1, i, q);
            lemma_walk_branch_child(m2, h2, i, q);
            assert(walk(m1, h1, seq![i as u8] + q, 0) == walk(m2, h2, seq![i as u8] + q, 0));
        },
        (None, Some(y)) => {
            let q = lemma_canon_witness(m2, y, (depth2 - 1) as nat);
            lemma_walk_branch_child(m1, h1, i, q);
            lemma_walk_branch_child(m2, h2, i, q);
            assert(walk(m1, h1, seq![i as u8] + q, 0) == walk(m2, h2, seq![i as u8] + q, 0));
        },
        (None, None) => {},
    }
}

/// Every value an extension reaches lies under its path.
proof fn lemma_extension_keys(m: Map<Seq<u8>, Seq<u8>>, h: Seq<u8>, q: Seq<u8>)
    requires
        m.contains_key(h),
        spec_decode_node(m[h]) matches Some(NodeView::Extension { .. }),
        walk(m, h, q, 0) is Some,
    ensures
        starts_with(q, spec_decode_node(m[h])->Some_0->Extension_path),
{
}

/// Two canonical extensions with the same entries have the same path and
/// the same child.
proof fn lemma_extension_unique(
    d1: MptNodeDb,
    d2: MptNodeDb,
    h1: Seq<u8>,
    h2: Seq<u8>,
    depth1: nat,
    depth2: nat,
)
    requires
        d1.inv(),
        d2.inv(),
        sound(d1@),
        sound(d2@),
        canon_at(d1@, h1, depth1),
        canon_at(d2@, h2, depth2),
        same_entries(d1@, h1, d2@, h2),
        spec_decode_node(d1@[h1]) matches Some(NodeView::Extension { .. }),
        spec_decode_node(d2@[h2]) matches Some(NodeView::Extension { .. }),
    ensures
        spec_decode_node(d1@[h1]) == spec_decode_node(d2@[h2]),
    decreases depth1, 0nat,
{
    let m1 = d1@;
    let m2 = d2@;
    let p1 = spec_decode_node(m1[h1])->Some_0->Extension_path;
    let c1 = spec_decode_node(m1[h1])->Some_0->Extension_child;
    let p2 = spec_decode_node(m2[h2])->Some_0->Extension_path;
    let c2 = spec_decode_node(m2[h2])->Some_0->Extension_child;
    let w1 = lemma_canon_witness(m1, c1, (depth1 - 1) as nat);
    lemma_walk_extension_child(m1, h1, w1);
    assert(walk(m1, h1, p1 + w1, 0) == walk(m2, h2, p1 + w1, 0));
    lemma_extension_keys(m2, h2, p1 + w1);
    let k = p1 + w1;
    if p1.len() < p2.len() {
        lemma_extension_prefix_clash(m1, m2, h1, h2, c1, p1, p2, k, (depth1 - 1) as nat);
    } else if p2.len() < p1.len() {
        let w2 = lemma_canon_witness(m2, c2, (depth2 - 1) as nat);
        lemma_walk_extension_child(m2, h2, w2);
        assert(walk(m1, h1, p2 + w2, 0) == walk(m2, h2, p2 + w2, 0));
        lemma_extension_keys(m1, h1, p2 + w2);
        assert forall|q: Seq<u8>| #[trigger] walk(m2, h2, q, 0) == walk(m1, h1, q, 0) by {
            assert(walk(m1, h1, q, 0) == walk(m2, h2, q, 0));
        }
        lemma_extension_prefix_clash(m2, m1, h2, h1, c2, p2, p1, p2 + w2, (depth2 - 1) as nat);
    } else {
        assert(p1 =~= p2) by {
            assert forall|j: int| 0 <= j < p1.len() implies p1[j] == p2[j] by {
                assert(k.take(p2.len() as int)[j] == p2[j]);
                assert(k[j] == p1[j]);
            }
        }
        assert forall|q: Seq<u8>| #[trigger] walk(m1, c1, q, 0) == walk(m2, c2, q, 0) by {
            lemma_walk_extension_child(m1, h1, q);
            lemma_walk_extension_child(m2, h2, q);
            assert(walk(m1, h1, p1 + q, 0) == walk(m2, h2, p1 + q, 0));
        }
        lemma_canon_unique(d1, d2, c1, c2, (depth1 - 1) as nat, (depth2 - 1) as nat);
    }
}

/// Of two extensions over the same entries, the one that leads to a
/// canonical branch has no path that is a strict prefix of the other's: the
/// branch would reach only values that share a first nibble.
proof fn lemma_extension_prefix_clash(
    m1: Map<Seq<u8>, Seq<u8>>,
    m2: Map<Seq<u8>, Seq<u8>>,
    h1: Seq<u8>,
    h2: Seq<u8>,
    c1: Seq<u8>,
    p1: Seq<u8>,
    p2: Seq<u8>,
    k: Seq<u8>,
    depth: nat,
)
    requires
        sound(m1),
        m1.contains_key(h1),
        m2.contains_key(h2),
        spec_decode_node(m1[h1]) == Some(NodeView::Extension { path: p1, child: c1 }),
        spec_decode_node(m2[h2]) matches Some(NodeView::Extension { path, .. }) && path == p2,
        starts_with(k, p1),
        starts_with(k, p2),
        canon_at(m1, c1, depth),
        spec_decode_node(m1[c1]) matches Some(NodeView::Branch { .. }),
        same_entries(m1, h1, m2, h2),
    ensures
        !(0 < p1.len() < p2.len()),
{
    if 0 < p1.len() < p2.len() {
        let (qa, qb) = lemma_canon_branch_parts(m1, c1, depth);
        let x = p2[p1.len() as int];
        assert forall|q: Seq<u8>| walk(m1, c1, q, 0) is Some implies q.len() > 0 && q[0] == x by {
            lemma_walk_extension_child(m1, h1, q);
            assert(walk(m1, h1, p1 + q, 0) == walk(m2, h2, p1 + q, 0));
            lemma_extension_keys(m2, h2, p1 + q);
            assert((p1 + q).take(p2.len() as int)[p1.len() as int] == p2[p1.len() as int]);
            assert(k.take(p2.len() as int)[p1.len() as int] == p2[p1.len() as int]);
            assert(k.take(p1.len() as int) == p1);
            assert((p1 + q)[p1.len() as int] == q[0]);
        }
        assert(walk(m1, c1, qa, 0) is Some);
        assert(walk(m1, c1, qb, 0) is Some);
    }
}

} // verus!
