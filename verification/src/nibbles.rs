//! Nibble paths and the hex-prefix (compact) path encoding.
use vstd::prelude::*;

verus! {

/// A 4-bit path element, held in a byte.
pub type Nibble = u8;

/// Every element of `path` is a nibble.
pub open spec fn is_nibble_path(path: Seq<u8>) -> bool {
    forall|i: int| 0 <= i < path.len() ==> #[trigger] path[i] < 16
}

/// The nibbles of a byte string, high nibble first.
pub open spec fn spec_nibbles(bytes: Seq<u8>) -> Seq<u8> {
    Seq::new(
        2 * bytes.len(),
        |i: int|
            if i % 2 == 0 {
                (bytes[i / 2] / 16) as u8
            } else {
                (bytes[i / 2] % 16) as u8
            },
    )
}

/// Pairs of nibbles packed into bytes, the first of each pair high.
pub open spec fn spec_pack(nibbles: Seq<u8>) -> Seq<u8> {
    Seq::new(nibbles.len() / 2, |i: int| (nibbles[2 * i] * 16 + nibbles[2 * i + 1]) as u8)
}

/// The hex-prefix flag nibble: bit 1 marks a leaf, bit 0 an odd path.
pub open spec fn compact_flag(is_leaf: bool, is_odd: bool) -> u8 {
    if is_leaf {
        if is_odd { 3 } else { 2 }
    } else {
        if is_odd { 1 } else { 0 }
    }
}

/// The nibbles that the compact encoding of `path` packs: the flag, a zero
/// pad for even paths, then the path.
pub open spec fn compact_nibbles(path: Seq<u8>, is_leaf: bool) -> Seq<u8> {
    let is_odd = path.len() % 2 == 1;
    if is_odd {
        seq![compact_flag(is_leaf, true)] + path
    } else {
        seq![compact_flag(is_leaf, false), 0u8] + path
    }
}

/// The hex-prefix encoding of a nibble path.
pub open spec fn spec_compact_encode(path: Seq<u8>, is_leaf: bool) -> Seq<u8> {
    spec_pack(compact_nibbles(path, is_leaf))
}

/// The hex-prefix decoding: the path and the leaf flag, or `None` for an
/// empty input, a flag above 3, or an even flag without its zero pad.
pub open spec fn spec_compact_decode(encoded: Seq<u8>) -> Option<(Seq<u8>, bool)> {
    let nibbles = spec_nibbles(encoded);
    if nibbles.len() == 0 {
        None
    } else {
        let flag = nibbles[0];
        if flag == 1 || flag == 3 {
            Some((nibbles.skip(1), flag == 3))
        } else if (flag == 0 || flag == 2) && nibbles.len() >= 2 && nibbles[1] == 0 {
            Some((nibbles.skip(2), flag == 2))
        } else {
            None
        }
    }
}

proof fn lemma_byte_nibbles(b: u8)
    ensures
        b >> 4 == b / 16,
        b & 0x0f == b % 16,
{
    assert(b >> 4 == b / 16) by (bit_vector);
    assert(b & 0x0f == b % 16) by (bit_vector);
}

proof fn lemma_pack_pair(hi: u8, lo: u8)
    requires
        hi < 16,
        lo < 16,
    ensures
        (hi << 4) | lo == hi * 16 + lo,
        ((hi * 16 + lo) as u8) / 16 == hi,
        ((hi * 16 + lo) as u8) % 16 == lo,
{
    assert((hi << 4) | lo == hi * 16 + lo) by (bit_vector)
        requires
            hi < 16,
            lo < 16,
    ;
}

/// Splitting bytes into nibbles gives a nibble path.
pub proof fn lemma_nibbles_are_nibbles(bytes: Seq<u8>)
    ensures
        is_nibble_path(spec_nibbles(bytes)),
{
}

/// Packing a nibble path of even length and splitting it again gives it back.
pub proof fn lemma_unpack_pack(nibbles: Seq<u8>)
    requires
        is_nibble_path(nibbles),
        nibbles.len() % 2 == 0,
    ensures
        spec_nibbles(spec_pack(nibbles)) == nibbles,
{
    let packed = spec_pack(nibbles);
    assert forall|i: int| 0 <= i < nibbles.len() implies #[trigger] spec_nibbles(packed)[i]
        == nibbles[i] by {
        let k = i / 2;
        assert(nibbles[2 * k] < 16);
        assert(nibbles[2 * k + 1] < 16);
        lemma_pack_pair(nibbles[2 * k], nibbles[2 * k + 1]);
    }
    assert(spec_nibbles(packed) =~= nibbles);
}

/// Decoding the compact encoding of a nibble path gives back the path and
/// its leaf flag.
pub proof fn lemma_compact_round_trip(path: Seq<u8>, is_leaf: bool)
    requires
        is_nibble_path(path),
    ensures
        spec_compact_decode(spec_compact_encode(path, is_leaf)) == Some((path, is_leaf)),
{
    let n = compact_nibbles(path, is_leaf);
    assert(is_nibble_path(n));
    lemma_unpack_pack(n);
    if path.len() % 2 == 1 {
        assert(n.skip(1) =~= path);
    } else {
        assert(n.skip(2) =~= path);
    }
}

/// Splitting bytes into nibbles and packing them again gives the bytes back.
pub proof fn lemma_pack_unpack(bytes: Seq<u8>)
    ensures
        spec_pack(spec_nibbles(bytes)) == bytes,
{
    let n = spec_nibbles(bytes);
    assert forall|i: int| 0 <= i < bytes.len() implies #[trigger] spec_pack(n)[i] == bytes[i] by {
        assert(n[2 * i] == bytes[i] / 16);
        assert(n[2 * i + 1] == bytes[i] % 16);
    }
    assert(spec_pack(n) =~= bytes);
}

/// Which inputs the compact decoding accepts: a first byte whose high
/// nibble (the flag) is at most 3, and whose low nibble is the zero pad when
/// the flag is even. What it accepts decodes to a nibble path of the length
/// the flag implies, marked a leaf for flags 2 and 3, and encoding that path
/// again gives the input back.
pub proof fn lemma_compact_decode_exact(encoded: Seq<u8>)
    ensures
        spec_compact_decode(encoded) is Some <==> (encoded.len() > 0 && encoded[0] / 16 <= 3 && (
        encoded[0] / 16 % 2 == 1 || encoded[0] % 16 == 0)),
        spec_compact_decode(encoded) matches Some((path, is_leaf)) ==> {
            &&& is_leaf == (encoded[0] / 16 >= 2)
            &&& is_nibble_path(path)
            &&& path.len() == 2 * encoded.len() - (if encoded[0] / 16 % 2 == 1 {
                1int
            } else {
                2int
            })
            &&& spec_compact_encode(path, is_leaf) == encoded
        },
{
    let n = spec_nibbles(encoded);
    if encoded.len() > 0 {
        assert(n[0] == encoded[0] / 16);
        assert(n[1] == encoded[0] % 16);
        assert(n.len() == 2 * encoded.len());
    }
    if let Some((path, is_leaf)) = spec_compact_decode(encoded) {
        lemma_compact_decoded(encoded, path, is_leaf);
    }
}

/// What the compact decoding gives encodes back to its input.
proof fn lemma_compact_decoded(encoded: Seq<u8>, path: Seq<u8>, is_leaf: bool)
    requires
        spec_compact_decode(encoded) == Some((path, is_leaf)),
    ensures
        is_nibble_path(path),
        spec_compact_encode(path, is_leaf) == encoded,
{
    let n = spec_nibbles(encoded);
    lemma_nibbles_are_nibbles(encoded);
    assert(compact_nibbles(path, is_leaf) == n) by {
        lemma_compact_nibbles_back(n, path, is_leaf);
    }
    lemma_pack_unpack(encoded);
}

/// The flag and pad that the decoding strips, put back, give its nibbles.
proof fn lemma_compact_nibbles_back(n: Seq<u8>, path: Seq<u8>, is_leaf: bool)
    requires
        n.len() > 0,
        n.len() % 2 == 0,
        (n[0] == 1 || n[0] == 3) ==> path == n.skip(1) && is_leaf == (n[0] == 3),
        !(n[0] == 1 || n[0] == 3) ==> (n[0] == 0 || n[0] == 2) && n.len() >= 2 && n[1] == 0
            && path == n.skip(2) && is_leaf == (n[0] == 2),
    ensures
        compact_nibbles(path, is_leaf) == n,
{
    if n[0] == 1 || n[0] == 3 {
        assert(path.len() % 2 == 1);
        assert(compact_nibbles(path, is_leaf) =~= n);
    } else {
        assert(path.len() % 2 == 0);
        assert(compact_nibbles(path, is_leaf) =~= n);
    }
}

/// The nibbles of an encoded compact path, high nibble first.
fn unpack_nibbles(bytes: &[u8]) -> (nibbles: Vec<Nibble>)
    ensures
        nibbles@ == spec_nibbles(bytes@),
{
    let mut nibbles: Vec<Nibble> = Vec::new();
    for i in 0..bytes.len()
        invariant
            nibbles@.len() == 2 * i,
            forall|j: int| 0 <= j < 2 * i ==> nibbles@[j] == #[trigger] spec_nibbles(bytes@)[j],
    {
        let byte = bytes[i];
        proof {
            lemma_byte_nibbles(byte);
        }
        nibbles.push(byte >> 4);
        nibbles.push(byte & 0x0f);
    }
    assert(nibbles@ =~= spec_nibbles(bytes@));
    nibbles
}

/// Splits each byte into its high and low nibble.
pub fn bytes_to_nibbles(bytes: &[u8]) -> (nibbles: Vec<Nibble>)
    ensures
        nibbles@ == spec_nibbles(bytes@),
{
    let mut nibbles: Vec<Nibble> = Vec::new();
    for i in 0..bytes.len()
        invariant
            nibbles@.len() == 2 * i,
            forall|j: int| 0 <= j < 2 * i ==> nibbles@[j] == #[trigger] spec_nibbles(bytes@)[j],
    {
        let byte = bytes[i];
        proof {
            lemma_byte_nibbles(byte);
        }
        nibbles.push(byte >> 4);
        nibbles.push(byte & 0x0f);
    }
    assert(nibbles@ =~= spec_nibbles(bytes@));
    nibbles
}

/// Packs an even-length nibble path into bytes.
pub fn pack_nibbles(nibbles: &[Nibble]) -> (packed: Vec<u8>)
    requires
        nibbles@.len() % 2 == 0,
        is_nibble_path(nibbles@),
    ensures
        packed@ == spec_pack(nibbles@),
{
    let mut packed: Vec<u8> = Vec::new();
    let half = nibbles.len() / 2;
    for i in 0..half
        invariant
            half == nibbles@.len() / 2,
            nibbles@.len() <= usize::MAX,
            nibbles@.len() % 2 == 0,
            is_nibble_path(nibbles@),
            packed@.len() == i,
            forall|j: int| 0 <= j < i ==> packed@[j] == #[trigger] spec_pack(nibbles@)[j],
    {
        assert(2 * i + 1 < nibbles@.len()) by (nonlinear_arith)
            requires
                i < half,
                half == nibbles@.len() / 2,
        ;
        let idx: usize = i + i;
        let hi = nibbles[idx];
        let lo = nibbles[idx + 1];
        proof {
            lemma_pack_pair(hi, lo);
        }
        packed.push(hi << 4 | lo);
    }
    assert(packed@ =~= spec_pack(nibbles@));
    packed
}

/// The length of the longest common prefix of two paths.
pub fn common_prefix_len(left: &[Nibble], right: &[Nibble]) -> (n: usize)
    ensures
        n <= left@.len(),
        n <= right@.len(),
        left@.take(n as int) == right@.take(n as int),
        n < left@.len() && n < right@.len() ==> left@[n as int] != right@[n as int],
{
    let mut n: usize = 0;
    while n < left.len() && n < right.len() && left[n] == right[n]
        invariant
            n <= left@.len(),
            n <= right@.len(),
            forall|j: int| 0 <= j < n ==> left@[j] == right@[j],
        decreases left@.len() - n,
    {
        n = n + 1;
    }
    assert(left@.take(n as int) =~= right@.take(n as int));
    n
}

/// Hex-prefix encodes a nibble path, marking it as a leaf or an extension path.
pub fn compact_encode(path: &[Nibble], is_leaf: bool) -> (encoded: Vec<u8>)
    requires
        is_nibble_path(path@),
    ensures
        encoded@ == spec_compact_encode(path@, is_leaf),
{
    let is_odd = path.len() % 2 == 1;
    let flag: u8 = if is_leaf {
        if is_odd {
            3
        } else {
            2
        }
    } else {
        if is_odd {
            1
        } else {
            0
        }
    };
    let mut encoded_nibbles: Vec<Nibble> = Vec::new();
    encoded_nibbles.push(flag);
    if !is_odd {
        encoded_nibbles.push(0);
    }
    let ghost start = encoded_nibbles@;
    for i in 0..path.len()
        invariant
            encoded_nibbles@ == start + path@.take(i as int),
    {
        encoded_nibbles.push(path[i]);
        assert(path@.take(i + 1) =~= path@.take(i as int).push(path@[i as int]));
    }
    assert(path@.take(path@.len() as int) =~= path@);
    assert(encoded_nibbles@ =~= compact_nibbles(path@, is_leaf));
    pack_nibbles(&encoded_nibbles)
}

/// Hex-prefix decodes a path: the nibble path and whether it is a leaf path.
pub fn compact_decode(encoded: &[u8]) -> (decoded: Option<(Vec<Nibble>, bool)>)
    ensures
        match decoded {
            Some((path, is_leaf)) => spec_compact_decode(encoded@) == Some((path@, is_leaf)),
            None => spec_compact_decode(encoded@) is None,
        },
{
    let nibbles = unpack_nibbles(encoded);
    if nibbles.len() == 0 {
        return None;
    }
    let flag = nibbles[0];
    let is_leaf = flag == 2 || flag == 3;
    let is_odd = flag == 1 || flag == 3;
    if flag <= 3 && is_odd {
        let path = slice_to_vec(&nibbles, 1);
        Some((path, is_leaf))
    } else if flag <= 3 && nibbles.len() >= 2 && nibbles[1] == 0 {
        let path = slice_to_vec(&nibbles, 2);
        Some((path, is_leaf))
    } else {
        None
    }
}

/// The first `n` elements of `v`.
pub(crate) fn prefix_to_vec(v: &[u8], n: usize) -> (out: Vec<u8>)
    requires
        n <= v@.len(),
    ensures
        out@ == v@.take(n as int),
{
    let mut out: Vec<u8> = Vec::new();
    let mut i: usize = 0;
    while i < n
        invariant
            n <= v@.len(),
            i <= n,
            out@ == v@.take(i as int),
        decreases n - i,
    {
        out.push(v[i]);
        assert(v@.take(i + 1) =~= v@.take(i as int).push(v@[i as int]));
        i = i + 1;
    }
    out
}

/// A copy of `v`.
pub(crate) fn copy_bytes(v: &[u8]) -> (out: Vec<u8>)
    ensures
        out@ == v@,
{
    let out = slice_to_vec(v, 0);
    assert(v@.skip(0) =~= v@);
    out
}

/// The elements of `v` from index `start` on.
pub(crate) fn slice_to_vec(v: &[u8], start: usize) -> (out: Vec<u8>)
    requires
        start <= v@.len(),
    ensures
        out@ == v@.skip(start as int),
{
    let mut out: Vec<u8> = Vec::new();
    let mut i = start;
    while i < v.len()
        invariant
            start <= i <= v@.len(),
            out@ == v@.subrange(start as int, i as int),
        decreases v@.len() - i,
    {
        out.push(v[i]);
        assert(v@.subrange(start as int, i + 1) =~= v@.subrange(start as int, i as int).push(
            v@[i as int],
        ));
        i = i + 1;
    }
    assert(v@.subrange(start as int, v@.len() as int) =~= v@.skip(start as int));
    out
}

} // verus!
