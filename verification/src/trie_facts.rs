//! Facts about walks in node stores: which stores are sound, how a walk
//! unfolds at one node, and why it is unaffected by fuel and by adding
//! entries to a sound store.
use vstd::prelude::*;

use crate::codec::{concat, lemma_concat_len, lemma_rlp_bytes_len, rlp_strings, size_limit};
use crate::mpt::{nonempty_or_none, opt_bytes, spec_decode_node, NodeView};
use crate::mpt_trie::{child_at, starts_with, walk};
use crate::nibbles::{compact_nibbles, is_nibble_path, spec_compact_encode, spec_nibbles, spec_pack};

verus! {

/// The bound below which the trie keeps what a node holds (a branch's
/// value, a leaf's packed path and value, an extension's packed path), so
/// that every node encoding stays below the encoder's `size_limit()`.
pub open spec fn max_len() -> nat {
    0xffff_fc00
}

/// Values this short, under keys of at most 32 bytes, keep the trie's nodes
/// within `max_len()`.
pub open spec fn max_value_len() -> nat {
    0xffff_fbc0
}

/// A node that a sound store may hold: well formed, with every reference
/// stored in `m`, a nonempty extension path, a nonempty leaf value, and
/// contents within `max_len()`: a branch's value, a leaf's value with half
/// its path (its packed size), an extension's half path.
pub open spec fn good_node(m: Map<Seq<u8>, Seq<u8>>, n: NodeView) -> bool {
    &&& n.well_formed()
    &&& match n {
        NodeView::Branch { children, value } => (forall|i: int|
            0 <= i < 16 ==> (#[trigger] children[i] matches Some(c) ==> m.contains_key(c))) && (
        value matches Some(v) ==> v.len() < max_len()),
        NodeView::Leaf { path, value } => 0 < value.len() && path.len() / 2 + value.len() < max_len(),
        NodeView::Extension { path, child } => 0 < path.len() && path.len() / 2 < max_len()
            && m.contains_key(child),
    }
}

/// Every stored encoding decodes to a good node, and is that node's encoding.
pub open spec fn sound(m: Map<Seq<u8>, Seq<u8>>) -> bool {
    forall|h: Seq<u8>| #[trigger]
        m.contains_key(h) ==> (spec_decode_node(m[h]) matches Some(n) && good_node(m, n) && m[h]
            == n.encoding())
}

/// Normalizing a node does not change its encoding.
pub proof fn lemma_normalize_encoding(n: NodeView)
    ensures
        n.normalize().encoding() == n.encoding(),
{
    if let NodeView::Branch { children, value } = n {
        assert(opt_bytes(nonempty_or_none(opt_bytes(value))) =~= opt_bytes(value));
        assert(n.normalize().fields() =~= n.fields());
    }
}

/// What a walk finds from a node `n` whose children are looked up in `m`.
pub open spec fn node_sem(m: Map<Seq<u8>, Seq<u8>>, n: NodeView, q: Seq<u8>) -> Option<Seq<u8>> {
    match n {
        NodeView::Branch { children, value } => if q.len() == 0 {
            nonempty_or_none(opt_bytes(value))
        } else {
            match child_at(children, q[0]) {
                Some(c) => walk(m, c, q.skip(1), 0),
                None => None,
            }
        },
        NodeView::Leaf { path, value } => if q == path {
            Some(value)
        } else {
            None
        },
        NodeView::Extension { path, child } => if starts_with(q, path) {
            walk(m, child, q.skip(path.len() as int), 0)
        } else {
            None
        },
    }
}

/// A decoded node is well formed.
pub proof fn lemma_decode_well_formed(e: Seq<u8>)
    requires
        spec_decode_node(e) is Some,
    ensures
        spec_decode_node(e)->Some_0.well_formed(),
{
    let n = spec_decode_node(e)->Some_0;
    match n {
        NodeView::Branch { children, .. } => {},
        NodeView::Leaf { path, .. } => {
            assert(is_nibble_path(path));
        },
        NodeView::Extension { path, .. } => {
            assert(is_nibble_path(path));
        },
    }
}

/// The hex-prefix encoding of a path is about half as long.
proof fn lemma_compact_len(path: Seq<u8>, is_leaf: bool)
    ensures
        spec_compact_encode(path, is_leaf).len() <= path.len() / 2 + 1,
{
    let n = compact_nibbles(path, is_leaf);
    assert(spec_pack(n).len() == n.len() / 2);
}

/// A good node's encoding is short enough to be read back.
pub proof fn lemma_good_fits(m: Map<Seq<u8>, Seq<u8>>, n: NodeView)
    requires
        good_node(m, n),
    ensures
        n.fits(),
{
    let fields = n.fields();
    let items = rlp_strings(fields);
    match n {
        NodeView::Branch { children, value } => {
            assert forall|i: int| 0 <= i < 17 implies (#[trigger] items[i]).len() <= fields[i].len() + 5 by {
                if i < 16 {
                    assert(fields[i] == opt_bytes(children[i]));
                }
                lemma_rlp_bytes_len(fields[i]);
            }
            let first = items.drop_last();
            assert forall|i: int| 0 <= i < first.len() implies (#[trigger] first[i]).len() <= 37 by {
                assert(first[i] == items[i]);
                assert(fields[i] == opt_bytes(children[i]));
            }
            lemma_concat_len(first, 37);
            assert(items.len() == 17);
            assert(first.len() == 16);
            assert(concat(first).len() <= 592);
            assert(items[16].len() <= fields[16].len() + 5);
            assert(items.last() == items[16]);
            assert(fields[16] == opt_bytes(value));
            assert(concat(items).len() == concat(first).len() + items[16].len());
            assert(fields[16].len() < max_len());
            assert(concat(items).len() < size_limit());
            assert(n.fits());
        },
        NodeView::Leaf { path, value } => {
            lemma_compact_len(path, true);
            lemma_rlp_bytes_len(fields[0]);
            lemma_rlp_bytes_len(fields[1]);
            assert(items.drop_last().drop_last() =~= Seq::<Seq<u8>>::empty());
            reveal_with_fuel(concat, 3);
            assert(items.drop_last().last() == items[0]);
            assert(items.last() == items[1]);
            assert(n.fits());
        },
        NodeView::Extension { path, child } => {
            lemma_compact_len(path, false);
            lemma_rlp_bytes_len(fields[0]);
            lemma_rlp_bytes_len(fields[1]);
            assert(items.drop_last().drop_last() =~= Seq::<Seq<u8>>::empty());
            reveal_with_fuel(concat, 3);
            assert(items.drop_last().last() == items[0]);
            assert(items.last() == items[1]);
            assert(n.fits());
        },
    }
}

/// Normalizing a good node keeps it good.
pub proof fn lemma_normalize_good(m: Map<Seq<u8>, Seq<u8>>, n: NodeView)
    requires
        good_node(m, n),
    ensures
        good_node(m, n.normalize()),
{
}

/// In a sound store a walk never follows an empty extension path, so its
/// fuel does not matter.
pub proof fn lemma_walk_fuel(m: Map<Seq<u8>, Seq<u8>>, h: Seq<u8>, q: Seq<u8>, fuel: nat)
    requires
        sound(m),
    ensures
        walk(m, h, q, fuel) == walk(m, h, q, 0),
    decreases q.len(),
{
    if m.contains_key(h) {
        match spec_decode_node(m[h]) {
            Some(NodeView::Branch { children, .. }) => {
                if q.len() > 0 {
                    if let Some(c) = child_at(children, q[0]) {
                        lemma_walk_fuel(m, c, q.skip(1), fuel);
                    }
                }
            },
            Some(NodeView::Extension { path, child }) => {
                if starts_with(q, path) {
                    lemma_walk_fuel(m, child, q.skip(path.len() as int), fuel);
                }
            },
            _ => {},
        }
    }
}

/// A walk from a stored node of a sound store reads the same in any store
/// that extends it.
pub proof fn lemma_walk_stable(
    m: Map<Seq<u8>, Seq<u8>>,
    m2: Map<Seq<u8>, Seq<u8>>,
    h: Seq<u8>,
    q: Seq<u8>,
)
    requires
        sound(m),
        m.submap_of(m2),
        m.contains_key(h),
    ensures
        walk(m2, h, q, 0) == walk(m, h, q, 0),
    decreases q.len(),
{
    assert(m2[h] == m[h]);
    match spec_decode_node(m[h]) {
        Some(NodeView::Branch { children, .. }) => {
            if q.len() > 0 {
                if let Some(c) = child_at(children, q[0]) {
                    assert(children[q[0] as int] matches Some(c) ==> m.contains_key(c));
                    lemma_walk_stable(m, m2, c, q.skip(1));
                }
            }
        },
        Some(NodeView::Extension { path, child }) => {
            if starts_with(q, path) {
                lemma_walk_stable(m, m2, child, q.skip(path.len() as int));
            }
        },
        _ => {},
    }
}

/// A walk from a stored node of a sound store is that node's semantics.
pub proof fn lemma_walk_unfold(m: Map<Seq<u8>, Seq<u8>>, h: Seq<u8>, q: Seq<u8>)
    requires
        sound(m),
        m.contains_key(h),
    ensures
        walk(m, h, q, 0) == node_sem(m, spec_decode_node(m[h])->Some_0, q),
{
}

/// A good node stored in a sound extension `m2` of `m` walks as its
/// semantics over `m` say.
pub proof fn lemma_walk_put(
    m: Map<Seq<u8>, Seq<u8>>,
    m2: Map<Seq<u8>, Seq<u8>>,
    n: NodeView,
    h: Seq<u8>,
    q: Seq<u8>,
)
    requires
        sound(m),
        sound(m2),
        m.submap_of(m2),
        good_node(m, n),
        m2.contains_key(h),
        spec_decode_node(m2[h]) == Some(n.normalize()),
    ensures
        walk(m2, h, q, 0) == node_sem(m, n, q),
{
    match n {
        NodeView::Branch { children, .. } => {
            if q.len() > 0 {
                if let Some(c) = child_at(children, q[0]) {
                    assert(children[q[0] as int] matches Some(c) ==> m.contains_key(c));
                    lemma_walk_stable(m, m2, c, q.skip(1));
                }
            }
        },
        NodeView::Extension { path, child } => {
            if starts_with(q, path) {
                lemma_walk_stable(m, m2, child, q.skip(path.len() as int));
            }
        },
        _ => {},
    }
}

/// Storing a good node in a sound store keeps it sound.
pub proof fn lemma_put_sound(m: Map<Seq<u8>, Seq<u8>>, n: NodeView, h: Seq<u8>, e: Seq<u8>)
    requires
        sound(m),
        good_node(m, n),
        e == n.encoding(),
        spec_decode_node(e) == Some(n.normalize()),
    ensures
        sound(m.insert(h, e)),
{
    let m2 = m.insert(h, e);
    assert forall|k: Seq<u8>| #[trigger] m2.contains_key(k) implies (spec_decode_node(m2[k]) matches Some(
        x,
    ) && good_node(m2, x) && m2[k] == x.encoding()) by {
        if k == h {
            lemma_normalize_good(m, n);
            lemma_normalize_encoding(n);
            let x = n.normalize();
            match x {
                NodeView::Branch { children, .. } => {
                    assert forall|i: int| 0 <= i < 16 implies (#[trigger] children[i] matches Some(c)
                        ==> m2.contains_key(c)) by {
                        assert(children[i] matches Some(c) ==> m.contains_key(c));
                    }
                },
                _ => {},
            }
        } else {
            let x = spec_decode_node(m[k])->Some_0;
            match x {
                NodeView::Branch { children, .. } => {
                    assert forall|i: int| 0 <= i < 16 implies (#[trigger] children[i] matches Some(c)
                        ==> m2.contains_key(c)) by {
                        assert(children[i] matches Some(c) ==> m.contains_key(c));
                    }
                },
                _ => {},
            }
        }
    }
}

/// Two sequences agree exactly when they agree on a prefix of the second
/// and on what follows it.
pub proof fn lemma_split_eq(q: Seq<u8>, x: Seq<u8>, k: int)
    requires
        0 <= k <= x.len(),
    ensures
        (q == x) == (starts_with(q, x.take(k)) && q.skip(k) == x.skip(k)),
{
    if starts_with(q, x.take(k)) && q.skip(k) == x.skip(k) {
        assert(x.take(k).len() == k);
        assert(q.skip(k).len() == q.len() - k);
        assert(q.len() == x.len());
        assert forall|i: int| 0 <= i < q.len() implies q[i] == x[i] by {
            if i < k {
                assert(q.take(k)[i] == x.take(k)[i]);
            } else {
                assert(q.skip(k)[i - k] == x.skip(k)[i - k]);
            }
        }
        assert(q =~= x);
    }
    if q == x {
        assert(q.take(k) =~= x.take(k));
    }
}

/// Two nonempty sequences agree exactly when their first elements and their
/// rests agree.
pub proof fn lemma_first_rest(a: Seq<u8>, b: Seq<u8>)
    requires
        a.len() > 0,
        b.len() > 0,
    ensures
        (a == b) == (a[0] == b[0] && a.skip(1) == b.skip(1)),
{
    if a[0] == b[0] && a.skip(1) == b.skip(1) {
        assert(a.skip(1).len() == a.len() - 1);
        assert(b.skip(1).len() == b.len() - 1);
        assert forall|i: int| 0 <= i < a.len() implies a[i] == b[i] by {
            if i > 0 {
                assert(a.skip(1)[i - 1] == b.skip(1)[i - 1]);
            }
        }
        assert(a =~= b);
    }
}

/// `x` is a prefix of `q` exactly when `x`'s first `k` elements are, the
/// next one matches, and the rest of `x` prefixes what follows in `q`.
pub proof fn lemma_starts_split(q: Seq<u8>, x: Seq<u8>, k: int)
    requires
        0 <= k < x.len(),
    ensures
        starts_with(q, x) == (starts_with(q, x.take(k)) && q.len() > k && q[k] == x[k]
            && starts_with(q.skip(k + 1), x.skip(k + 1))),
        starts_with(q, x) ==> q.skip(x.len() as int) == q.skip(k + 1).skip(x.len() - k - 1),
{
    if starts_with(q, x) {
        assert(q.take(k) =~= x.take(k)) by {
            assert forall|i: int| 0 <= i < k implies q.take(k)[i] == x.take(k)[i] by {
                assert(q.take(x.len() as int)[i] == x[i]);
            }
        }
        assert(q.take(x.len() as int)[k] == x[k]);
        assert(q.skip(k + 1).take(x.len() - k - 1) =~= x.skip(k + 1)) by {
            assert forall|i: int| 0 <= i < x.len() - k - 1 implies #[trigger] q.skip(k + 1).take(
                x.len() - k - 1,
            )[i] == x.skip(k + 1)[i] by {
                assert(q.take(x.len() as int)[k + 1 + i] == x[k + 1 + i]);
            }
        }
        assert(q.skip(x.len() as int) =~= q.skip(k + 1).skip(x.len() - k - 1));
    }
    if starts_with(q, x.take(k)) && q.len() > k && q[k] == x[k] && starts_with(
        q.skip(k + 1),
        x.skip(k + 1),
    ) {
        assert(q.take(x.len() as int) =~= x) by {
            assert forall|i: int| 0 <= i < x.len() implies q.take(x.len() as int)[i] == x[i] by {
                if i < k {
                    assert(q.take(k)[i] == x.take(k)[i]);
                } else if i > k {
                    assert(q.skip(k + 1).take(x.len() - k - 1)[i - k - 1] == x.skip(k + 1)[i - k
                        - 1]);
                }
            }
        }
    }
}

/// Splitting bytes into nibbles loses nothing.
pub proof fn lemma_nibbles_injective(a: Seq<u8>, b: Seq<u8>)
    requires
        spec_nibbles(a) == spec_nibbles(b),
    ensures
        a == b,
{
    assert(spec_nibbles(a).len() == 2 * a.len());
    assert(spec_nibbles(b).len() == 2 * b.len());
    assert(a.len() == b.len());
    assert forall|i: int| 0 <= i < a.len() implies a[i] == b[i] by {
        assert((2 * i) / 2 == i);
        assert((2 * i + 1) / 2 == i);
        assert((2 * i) % 2 == 0);
        assert((2 * i + 1) % 2 == 1);
        assert(spec_nibbles(a)[2 * i] == (a[i] / 16) as u8);
        assert(spec_nibbles(b)[2 * i] == (b[i] / 16) as u8);
        assert(spec_nibbles(a)[2 * i + 1] == (a[i] % 16) as u8);
        assert(spec_nibbles(b)[2 * i + 1] == (b[i] % 16) as u8);
        assert(a[i] == (a[i] / 16) * 16 + a[i] % 16);
        assert(b[i] == (b[i] / 16) * 16 + b[i] % 16);
    }
    assert(a =~= b);
}

} // verus!
