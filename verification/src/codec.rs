//! Recursive Length Prefix (RLP) framing, produced and read by the `rlp` crate.
//!
//! The byte layout that the encoder writes is stated here as spec functions;
//! the decoder's answers are named, and the encoder's output comes with the
//! facts about those names that the library relies on (reading back what
//! was written).
use rlp::{DecoderError, Rlp, RlpStream};
use vstd::prelude::*;

verus! {

#[verifier::external_type_specification]
#[verifier::external_body]
pub struct ExRlpStream(RlpStream);

#[verifier::external_type_specification]
#[verifier::external_body]
pub struct ExDecoderError(DecoderError);

/// `DecoderError::clone`, which `derive(Clone)` writes for rlp's error enum
/// (unit variants and one `&'static str` payload): the copy equals the
/// value it was taken from.
pub assume_specification[ <DecoderError as Clone>::clone ](e: &DecoderError) -> (res: DecoderError)
    ensures
        res == *e,
;

/// Payload lengths below this bound are written with a faithful length prefix
/// (the encoder writes lengths as 32-bit numbers).
pub open spec fn size_limit() -> nat {
    0x1_0000_0000
}

/// Minimal big-endian bytes of `n`; zero has no bytes.
pub open spec fn be_bytes(n: nat) -> Seq<u8>
    decreases n,
{
    if n == 0 {
        Seq::empty()
    } else {
        be_bytes(n / 256).push((n % 256) as u8)
    }
}

/// The prefix that announces a payload of `len` bytes; `offset` is 0x80 for
/// byte strings and 0xc0 for lists.
pub open spec fn length_prefix(offset: u8, len: nat) -> Seq<u8> {
    if len <= 55 {
        seq![(offset + len) as u8]
    } else {
        let len_bytes = be_bytes(len % size_limit());
        seq![(offset + 55 + len_bytes.len()) as u8] + len_bytes
    }
}

/// The RLP encoding of a byte string.
pub open spec fn rlp_bytes(b: Seq<u8>) -> Seq<u8> {
    if b.len() == 1 && b[0] < 0x80 {
        b
    } else {
        length_prefix(0x80, b.len()) + b
    }
}

/// The RLP encoding of an unsigned integer: its minimal big-endian bytes.
pub open spec fn rlp_u64(v: u64) -> Seq<u8> {
    rlp_bytes(be_bytes(v as nat))
}

/// Concatenation of encoded items, in order.
pub open spec fn concat(items: Seq<Seq<u8>>) -> Seq<u8>
    decreases items.len(),
{
    if items.len() == 0 {
        Seq::empty()
    } else {
        concat(items.drop_last()) + items.last()
    }
}

/// The RLP encoding of a list whose items are already encoded.
pub open spec fn rlp_list(items: Seq<Seq<u8>>) -> Seq<u8> {
    length_prefix(0xc0, concat(items).len()) + concat(items)
}

/// Each byte string of `xs`, encoded.
pub open spec fn rlp_strings(xs: Seq<Seq<u8>>) -> Seq<Seq<u8>> {
    xs.map_values(|x: Seq<u8>| rlp_bytes(x))
}

/// The items appended so far to an encoder stream, each already encoded.
pub uninterp spec fn stream_items(s: RlpStream) -> Seq<Seq<u8>>;

/// The number of items that a list stream was opened for.
pub uninterp spec fn stream_len(s: RlpStream) -> nat;

/// What `Rlp::item_count` answers for the given bytes.
pub uninterp spec fn rlp_count(bytes: Seq<u8>) -> Result<usize, DecoderError>;

/// What `Rlp::val_at::<Vec<u8>>` answers for the given bytes and index.
pub uninterp spec fn rlp_string_at(bytes: Seq<u8>, index: int) -> Result<Seq<u8>, DecoderError>;

/// What `Rlp::val_at::<u64>` answers for the given bytes and index.
pub uninterp spec fn rlp_u64_at(bytes: Seq<u8>, index: int) -> Result<u64, DecoderError>;

/// What `Rlp::as_val::<Vec<u8>>` answers for the given bytes.
pub uninterp spec fn rlp_string(bytes: Seq<u8>) -> Result<Seq<u8>, DecoderError>;

/// What `Rlp::at(index)` answers for the given bytes: the raw bytes of that item.
pub uninterp spec fn rlp_raw_at(bytes: Seq<u8>, index: int) -> Result<Seq<u8>, DecoderError>;

/// The decoder's answers on `bytes` are those of a list of the byte strings
/// `xs`: their number, each string, and each string that is a minimal integer.
pub open spec fn reads_back_strings(bytes: Seq<u8>, xs: Seq<Seq<u8>>) -> bool {
    &&& rlp_count(bytes) == Ok::<usize, DecoderError>(xs.len() as usize)
    &&& forall|i: int|
        0 <= i < xs.len() ==> #[trigger] rlp_string_at(bytes, i) == Ok::<Seq<u8>, DecoderError>(
            xs[i],
        )
    &&& forall|i: int, v: u64|
        0 <= i < xs.len() && xs[i] == #[trigger] be_bytes(v as nat) ==> #[trigger] rlp_u64_at(bytes, i)
            == Ok::<u64, DecoderError>(v)
}

/// A successful decoding of the byte string `v`.
pub open spec fn string_ok(v: Seq<u8>) -> Result<Seq<u8>, DecoderError> {
    Ok(v)
}

/// A number below 2^32 has at most four big-endian bytes.
pub proof fn lemma_be_bytes_len(n: nat)
    requires
        n < size_limit(),
    ensures
        be_bytes(n).len() <= 4,
{
    let n1 = n / 256;
    let n2 = n1 / 256;
    let n3 = n2 / 256;
    let n4 = n3 / 256;
    assert(n4 == 0);
    assert(be_bytes(n4).len() == 0);
    assert(be_bytes(n3).len() <= 1);
    assert(be_bytes(n2).len() <= 2);
    assert(be_bytes(n1).len() <= 3);
}

/// A 64-bit number has at most eight big-endian bytes.
pub proof fn lemma_be_bytes_len_u64(v: u64)
    ensures
        be_bytes(v as nat).len() <= 8,
{
    let n = v as nat;
    let n1 = n / 256;
    let n2 = n1 / 256;
    let n3 = n2 / 256;
    let n4 = n3 / 256;
    assert(n4 < size_limit());
    lemma_be_bytes_len(n4);
    assert(be_bytes(n3).len() <= 5);
    assert(be_bytes(n2).len() <= 6);
    assert(be_bytes(n1).len() <= 7);
}

/// A byte string below 2^32 bytes gains at most five bytes when encoded.
pub proof fn lemma_rlp_bytes_len(b: Seq<u8>)
    requires
        b.len() < size_limit(),
    ensures
        rlp_bytes(b).len() <= b.len() + 5,
{
    if b.len() > 55 {
        lemma_be_bytes_len(b.len());
        assert(b.len() % size_limit() == b.len());
    }
}

/// The concatenation of items that are each at most `bound` bytes long.
pub proof fn lemma_concat_len(items: Seq<Seq<u8>>, bound: nat)
    requires
        forall|i: int| 0 <= i < items.len() ==> (#[trigger] items[i]).len() <= bound,
    ensures
        concat(items).len() <= items.len() * bound,
    decreases items.len(),
{
    if items.len() > 0 {
        let rest = items.drop_last();
        assert forall|i: int| 0 <= i < rest.len() implies (#[trigger] rest[i]).len() <= bound by {
            assert(rest[i] == items[i]);
        }
        lemma_concat_len(rest, bound);
        assert(items.last() == items[items.len() - 1]);
        assert((items.len() - 1) * bound + bound == items.len() * bound) by (nonlinear_arith);
    }
}

/// `RlpStream::new_list`: a stream for a list of `len` items, none appended.
#[verifier::external_body]
pub(crate) fn stream_new_list(len: usize) -> (s: RlpStream)
    ensures
        stream_items(s) == Seq::<Seq<u8>>::empty(),
        stream_len(s) == len,
{
    RlpStream::new_list(len)
}

/// `RlpStream::append` of a byte string: the string's encoding becomes the
/// next item. The stream panics when more items are appended than announced.
#[verifier::external_body]
pub(crate) fn stream_append_bytes(s: &mut RlpStream, value: &[u8])
    requires
        stream_items(*old(s)).len() < stream_len(*old(s)),
    ensures
        stream_items(*final(s)) == stream_items(*old(s)).push(rlp_bytes(value@)),
        stream_len(*final(s)) == stream_len(*old(s)),
{
    s.append(&value);
}

/// `RlpStream::append` of a `u64`: its minimal big-endian encoding becomes the
/// next item.
#[verifier::external_body]
pub(crate) fn stream_append_u64(s: &mut RlpStream, value: u64)
    requires
        stream_items(*old(s)).len() < stream_len(*old(s)),
    ensures
        stream_items(*final(s)) == stream_items(*old(s)).push(rlp_u64(value)),
        stream_len(*final(s)) == stream_len(*old(s)),
{
    s.append(&value);
}

/// `RlpStream::append_empty_data`: the empty string (0x80) becomes the next item.
#[verifier::external_body]
pub(crate) fn stream_append_empty(s: &mut RlpStream)
    requires
        stream_items(*old(s)).len() < stream_len(*old(s)),
    ensures
        stream_items(*final(s)) == stream_items(*old(s)).push(rlp_bytes(Seq::empty())),
        stream_len(*final(s)) == stream_len(*old(s)),
{
    s.append_empty_data();
}

/// `RlpStream::append_raw` of one pre-encoded item: the bytes become the next
/// item unchanged.
#[verifier::external_body]
pub(crate) fn stream_append_raw(s: &mut RlpStream, item: &[u8])
    requires
        stream_items(*old(s)).len() < stream_len(*old(s)),
    ensures
        stream_items(*final(s)) == stream_items(*old(s)).push(item@),
        stream_len(*final(s)) == stream_len(*old(s)),
{
    s.append_raw(item, 1);
}

/// `RlpStream::out` of a complete list stream (it panics on an incomplete one).
///
/// The output is the list of the appended items. Where every item is a byte
/// string and the payload is below `size_limit()`, the decoder reads back the
/// item count, every string, and every string that is a minimal integer.
#[verifier::external_body]
pub(crate) fn stream_out(s: RlpStream) -> (out: Vec<u8>)
    requires
        stream_items(s).len() == stream_len(s),
    ensures
        out@ == rlp_list(stream_items(s)),
        forall|xs: Seq<Seq<u8>>|
            #[trigger] rlp_strings(xs) == stream_items(s) && concat(rlp_strings(xs)).len()
                < size_limit() ==> reads_back_strings(out@, xs),
{
    s.out().to_vec()
}

/// `rlp::encode` of a byte string: its encoding, which the decoder reads back
/// when shorter than `size_limit()`.
#[verifier::external_body]
pub(crate) fn encode_bytes(value: &[u8]) -> (out: Vec<u8>)
    ensures
        out@ == rlp_bytes(value@),
        rlp_bytes(value@).len() < size_limit() ==> rlp_string(out@) == string_ok(value@),
{
    rlp::encode(&value).to_vec()
}

/// `rlp::encode` of a `u64`: its minimal big-endian encoding.
#[verifier::external_body]
pub(crate) fn encode_u64(value: u64) -> (out: Vec<u8>)
    ensures
        out@ == rlp_u64(value),
{
    rlp::encode(&value).to_vec()
}

/// `Rlp::item_count` on the given bytes.
#[verifier::external_body]
pub(crate) fn item_count(bytes: &[u8]) -> (res: Result<usize, DecoderError>)
    ensures
        res == rlp_count(bytes@),
{
    Rlp::new(bytes).item_count()
}

/// `Rlp::val_at::<Vec<u8>>` on the given bytes.
#[verifier::external_body]
pub(crate) fn string_at(bytes: &[u8], index: usize) -> (res: Result<Vec<u8>, DecoderError>)
    ensures
        match res {
            Ok(v) => rlp_string_at(bytes@, index as int) == Ok::<Seq<u8>, DecoderError>(v@),
            Err(e) => rlp_string_at(bytes@, index as int) == Err::<Seq<u8>, DecoderError>(e),
        },
{
    Rlp::new(bytes).val_at(index)
}

/// `Rlp::val_at::<u64>` on the given bytes.
#[verifier::external_body]
pub(crate) fn u64_at(bytes: &[u8], index: usize) -> (res: Result<u64, DecoderError>)
    ensures
        res == rlp_u64_at(bytes@, index as int),
{
    Rlp::new(bytes).val_at(index)
}

/// `Rlp::as_val::<Vec<u8>>` on the given bytes.
#[verifier::external_body]
pub(crate) fn as_string(bytes: &[u8]) -> (res: Result<Vec<u8>, DecoderError>)
    ensures
        match res {
            Ok(v) => rlp_string(bytes@) == Ok::<Seq<u8>, DecoderError>(v@),
            Err(e) => rlp_string(bytes@) == Err::<Seq<u8>, DecoderError>(e),
        },
{
    Rlp::new(bytes).as_val()
}

/// `Rlp::at` on the given bytes: the raw bytes of the item at `index`.
#[verifier::external_body]
pub(crate) fn raw_at(bytes: &[u8], index: usize) -> (res: Result<Vec<u8>, DecoderError>)
    ensures
        match res {
            Ok(v) => rlp_raw_at(bytes@, index as int) == Ok::<Seq<u8>, DecoderError>(v@),
            Err(e) => rlp_raw_at(bytes@, index as int) == Err::<Seq<u8>, DecoderError>(e),
        },
{
    match Rlp::new(bytes).at(index) {
        Ok(item) => Ok(item.as_raw().to_vec()),
        Err(e) => Err(e),
    }
}

} // verus!
