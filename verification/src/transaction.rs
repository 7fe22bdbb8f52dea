//! Transfers, receipts, and the tries that commit to a block's list of them.
use rlp::DecoderError;
use vstd::prelude::*;

use crate::codec::{
    be_bytes, concat, encode_u64, lemma_be_bytes_len_u64, lemma_concat_len, lemma_rlp_bytes_len,
    reads_back_strings, rlp_list, rlp_string_at, rlp_strings, rlp_u64, rlp_u64_at, size_limit,
    stream_append_bytes, stream_append_u64, stream_items, stream_new_list, stream_out, string_at,
    u64_at,
};

use crate::mpt_trie::MptTrie;
use crate::trie_facts::max_value_len;
use crate::types::Address;

verus! {

/// A transfer of `value` from one account to another, with the sender's nonce.
#[derive(Debug, Clone, PartialEq, Eq)]
pub struct Transaction {
    pub from: Address,
    pub to: Address,
    pub nonce: u64,
    pub value: u64,
}

/// Why bytes do not decode as a transaction.
#[derive(Debug, Clone, PartialEq, Eq)]
pub enum TransactionDecodeError {
    /// A field is missing or is not of its kind.
    InvalidRlp(DecoderError),
    /// The sender address is not 20 bytes long; the length found.
    InvalidFromLength(usize),
    /// The recipient address is not 20 bytes long; the length found.
    InvalidToLength(usize),
}

/// The byte strings that a transaction's encoding lists.
pub open spec fn transaction_fields(t: Transaction) -> Seq<Seq<u8>> {
    seq![t.from@, t.to@, be_bytes(t.nonce as nat), be_bytes(t.value as nat)]
}

/// A transaction's RLP encoding.
pub open spec fn spec_transaction_encoding(t: Transaction) -> Seq<u8> {
    rlp_list(rlp_strings(transaction_fields(t)))
}

/// The decoder reads the transaction `t` from `b`.
pub open spec fn decodes_to_transaction(b: Seq<u8>, t: Transaction) -> bool {
    &&& rlp_string_at(b, 0) == Ok::<Seq<u8>, DecoderError>(t.from@)
    &&& rlp_string_at(b, 1) == Ok::<Seq<u8>, DecoderError>(t.to@)
    &&& rlp_u64_at(b, 2) == Ok::<u64, DecoderError>(t.nonce)
    &&& rlp_u64_at(b, 3) == Ok::<u64, DecoderError>(t.value)
}

/// The first error that decoding `b` as a transaction meets, if any: the
/// sender, recipient, nonce and value are read in that order, then the two
/// address lengths are checked.
pub open spec fn transaction_decode_error(b: Seq<u8>) -> Option<TransactionDecodeError> {
    match rlp_string_at(b, 0) {
        Err(e) => Some(TransactionDecodeError::InvalidRlp(e)),
        Ok(from) => match rlp_string_at(b, 1) {
            Err(e) => Some(TransactionDecodeError::InvalidRlp(e)),
            Ok(to) => match rlp_u64_at(b, 2) {
                Err(e) => Some(TransactionDecodeError::InvalidRlp(e)),
                Ok(_) => match rlp_u64_at(b, 3) {
                    Err(e) => Some(TransactionDecodeError::InvalidRlp(e)),
                    Ok(_) => if from.len() != 20 {
                        Some(TransactionDecodeError::InvalidFromLength(from.len() as usize))
                    } else if to.len() != 20 {
                        Some(TransactionDecodeError::InvalidToLength(to.len() as usize))
                    } else {
                        None
                    },
                },
            },
        },
    }
}

/// Copies a 20-byte slice into an address.
fn address_from_slice(data: &[u8]) -> (address: Address)
    requires
        data@.len() == 20,
    ensures
        address@ == data@,
{
    let mut address: Address = [0u8; 20];
    for i in 0..20
        invariant
            data@.len() == 20,
            forall|j: int| 0 <= j < i ==> address@[j] == data@[j],
    {
        address[i] = data[i];
    }
    assert(address@ =~= data@);
    address
}

/// A list of short byte strings has a short payload.
pub proof fn lemma_short_fields(fields: Seq<Seq<u8>>)
    requires
        fields.len() <= 8,
        forall|i: int| 0 <= i < fields.len() ==> (#[trigger] fields[i]).len() <= 32,
    ensures
        concat(rlp_strings(fields)).len() < 400,
        rlp_list(rlp_strings(fields)).len() < max_value_len(),
{
    let items = rlp_strings(fields);
    assert forall|i: int| 0 <= i < items.len() implies (#[trigger] items[i]).len() <= 37 by {
        lemma_rlp_bytes_len(fields[i]);
    }
    lemma_concat_len(items, 37);
    let c = concat(items);
    if c.len() > 55 {
        crate::codec::lemma_be_bytes_len(c.len());
        assert(c.len() % size_limit() == c.len());
    }
}

impl Transaction {
    /// A transfer of `value` from `from` to `to` at the sender's `nonce`.
    pub fn new_transfer(from: Address, to: Address, nonce: u64, value: u64) -> (t: Self)
        ensures
            t == (Transaction { from, to, nonce, value }),
    {
        Transaction { from, to, nonce, value }
    }

    /// RLP-encodes the transaction as the list of its sender, recipient,
    /// nonce and value; decoding the result gives the transaction back.
    pub fn encode(&self) -> (encoded: Vec<u8>)
        ensures
            encoded@ == spec_transaction_encoding(*self),
            transaction_decode_error(encoded@) is None,
            decodes_to_transaction(encoded@, *self),
            0 < encoded@.len() < max_value_len(),
    {
        let ghost fields = transaction_fields(*self);
        let mut stream = stream_new_list(4);
        stream_append_bytes(&mut stream, self.from.as_slice());
        stream_append_bytes(&mut stream, self.to.as_slice());
        stream_append_u64(&mut stream, self.nonce);
        stream_append_u64(&mut stream, self.value);
        assert(stream_items(stream) =~= rlp_strings(fields));
        let encoded = stream_out(stream);
        proof {
            lemma_be_bytes_len_u64(self.nonce);
            lemma_be_bytes_len_u64(self.value);
            lemma_short_fields(fields);
            assert(reads_back_strings(encoded@, fields));
            assert(rlp_string_at(encoded@, 0) == Ok::<Seq<u8>, DecoderError>(fields[0]));
            assert(rlp_string_at(encoded@, 1) == Ok::<Seq<u8>, DecoderError>(fields[1]));
            assert(rlp_u64_at(encoded@, 2) == Ok::<u64, DecoderError>(self.nonce));
            assert(rlp_u64_at(encoded@, 3) == Ok::<u64, DecoderError>(self.value));
        }
        encoded
    }

    /// Decodes a transaction: reads the sender, recipient, nonce and value,
    /// and checks that both addresses are 20 bytes long.
    pub fn try_decode(bytes: &[u8]) -> (res: Result<Self, TransactionDecodeError>)
        ensures
            match res {
                Ok(t) => transaction_decode_error(bytes@) is None && decodes_to_transaction(bytes@, t),
                Err(e) => transaction_decode_error(bytes@) == Some(e),
            },
    {
        let from_vec = match string_at(bytes, 0) {
            Ok(v) => v,
            Err(e) => return Err(TransactionDecodeError::InvalidRlp(e)),
        };
        let to_vec = match string_at(bytes, 1) {
            Ok(v) => v,
            Err(e) => return Err(TransactionDecodeError::InvalidRlp(e)),
        };
        let nonce = match u64_at(bytes, 2) {
            Ok(v) => v,
            Err(e) => return Err(TransactionDecodeError::InvalidRlp(e)),
        };
        let value = match u64_at(bytes, 3) {
            Ok(v) => v,
            Err(e) => return Err(TransactionDecodeError::InvalidRlp(e)),
        };
        if from_vec.len() != 20 {
            return Err(TransactionDecodeError::InvalidFromLength(from_vec.len()));
        }
        if to_vec.len() != 20 {
            return Err(TransactionDecodeError::InvalidToLength(to_vec.len()));
        }
        let from = address_from_slice(from_vec.as_slice());
        let to = address_from_slice(to_vec.as_slice());
        Ok(Transaction { from, to, nonce, value })
    }
}

/// The outcome of a transaction: whether it succeeded, the gas it used, and
/// the reason it failed.
#[derive(Debug, Clone, PartialEq, Eq)]
pub struct Receipt {
    pub success: bool,
    pub gas_used: u64,
    pub error: Option<String>,
}

/// The bytes of an optional error text (none for no error).
pub open spec fn error_bytes(error: Option<String>) -> Seq<u8> {
    match error {
        Some(e) => vstd::utf8::encode_utf8(e@),
        None => Seq::empty(),
    }
}

/// The byte strings that a receipt's encoding lists: status (1 or 0), gas
/// used, and the UTF-8 bytes of the error text (empty when there is none).
pub open spec fn receipt_fields(r: Receipt) -> Seq<Seq<u8>> {
    seq![
        be_bytes(if r.success { 1nat } else { 0nat }),
        be_bytes(r.gas_used as nat),
        error_bytes(r.error),
    ]
}

/// A receipt's RLP encoding.
pub open spec fn spec_receipt_encoding(r: Receipt) -> Seq<u8> {
    rlp_list(rlp_strings(receipt_fields(r)))
}

impl Receipt {
    /// The receipt of a transaction that succeeded.
    pub fn success(gas_used: u64) -> (r: Self)
        ensures
            r == (Receipt { success: true, gas_used, error: None }),
    {
        Receipt { success: true, gas_used, error: None }
    }

    /// The receipt of a transaction that failed, with the reason.
    pub fn failure(gas_used: u64, error: &str) -> (r: Self)
        ensures
            !r.success,
            r.gas_used == gas_used,
            r.error matches Some(e) && e@ == error@,
    {
        Receipt { success: false, gas_used, error: Some(error.to_owned()) }
    }

    /// RLP-encodes the receipt as the list of its status, gas used and error text.
    pub fn encode(&self) -> (encoded: Vec<u8>)
        ensures
            encoded@ == spec_receipt_encoding(*self),
            encoded@.len() > 0,
    {
        let ghost fields = receipt_fields(*self);
        let mut stream = stream_new_list(3);
        let status: u64 = if self.success {
            1
        } else {
            0
        };
        stream_append_u64(&mut stream, status);
        stream_append_u64(&mut stream, self.gas_used);
        match &self.error {
            Some(e) => {
                stream_append_bytes(&mut stream, e.as_str().as_bytes());
            },
            None => {
                stream_append_bytes(&mut stream, &[]);
            },
        }
        assert(stream_items(stream) =~= rlp_strings(fields));
        stream_out(stream)
    }
}

/// The key under which the item at `index` is stored: the RLP encoding of
/// the index.
pub open spec fn index_key(index: int) -> Seq<u8> {
    rlp_u64(index as u64)
}

/// Each index's key mapped to the encoding at that index.
pub open spec fn index_map(encodings: Seq<Seq<u8>>) -> Map<Seq<u8>, Seq<u8>>
    decreases encodings.len(),
{
    if encodings.len() == 0 {
        Map::empty()
    } else {
        index_map(encodings.drop_last()).insert(
            index_key(encodings.len() - 1),
            encodings.last(),
        )
    }
}

/// The encodings of a list of transactions.
pub open spec fn transaction_encodings(transactions: Seq<Transaction>) -> Seq<Seq<u8>> {
    transactions.map_values(|t: Transaction| spec_transaction_encoding(t))
}

/// The encodings of a list of receipts.
pub open spec fn receipt_encodings(receipts: Seq<Receipt>) -> Seq<Seq<u8>> {
    receipts.map_values(|r: Receipt| spec_receipt_encoding(r))
}

/// `root` is the root hash of a well-kept trie that, where no two encodings
/// written to its store share a hash, is canonical and maps each index's
/// key to the encoding at that index (so that every canonical trie with
/// those entries has that root).
pub open spec fn is_index_trie_root(root: Seq<u8>, encodings: Seq<Seq<u8>>) -> bool {
    exists|t: MptTrie|
        #![trigger t.spec_root_hash()]
        t.wf() && t.spec_root_hash() == root && (t.store().collision_free() ==> t.canonical() && t@
            == index_map(encodings))
}

/// The root hash of the trie of a block's transactions: each transaction's
/// encoding under the RLP encoding of its index.
pub fn transaction_root(transactions: &[Transaction]) -> (root: crate::types::Hash)
    ensures
        is_index_trie_root(root@, transaction_encodings(transactions@)),
{
    let ghost all = transaction_encodings(transactions@);
    let mut trie = MptTrie::new();
    let mut index: usize = 0;
    while index < transactions.len()
        invariant
            index <= transactions@.len(),
            all == transaction_encodings(transactions@),
            trie.wf(),
            trie.store().collision_free() ==> trie.canonical() && trie@ == index_map(
                all.take(index as int),
            ),
        decreases transactions@.len() - index,
    {
        let key = encode_u64(index as u64);
        let value = transactions[index].encode();
        proof {
            trie.lemma_wf_can_insert(key@);
            lemma_index_key_len(index as u64);
            assert(all.take(index + 1).drop_last() =~= all.take(index as int));
        }
        trie.insert(key.as_slice(), value);
        index = index + 1;
    }
    assert(all.take(index as int) =~= all);
    trie.root_hash()
}

/// The root hash of the trie of a block's receipts: each receipt's encoding
/// under the RLP encoding of its index.
///
/// The trie holds each encoding in one node, so each must be shorter than
/// `max_value_len()` bytes.
pub fn receipt_root(receipts: &[Receipt]) -> (root: crate::types::Hash)
    requires
        forall|i: int|
            0 <= i < receipts@.len() ==> (#[trigger] receipt_encodings(receipts@)[i]).len()
                < max_value_len(),
    ensures
        is_index_trie_root(root@, receipt_encodings(receipts@)),
{
    let ghost all = receipt_encodings(receipts@);
    let mut trie = MptTrie::new();
    let mut index: usize = 0;
    while index < receipts.len()
        invariant
            index <= receipts@.len(),
            all == receipt_encodings(receipts@),
            forall|i: int| 0 <= i < receipts@.len() ==> (#[trigger] all[i]).len() < max_value_len(),
            trie.wf(),
            trie.store().collision_free() ==> trie.canonical() && trie@ == index_map(
                all.take(index as int),
            ),
        decreases receipts@.len() - index,
    {
        let key = encode_u64(index as u64);
        let value = receipts[index].encode();
        proof {
            assert(value@ == all[index as int]);
            trie.lemma_wf_can_insert(key@);
            lemma_index_key_len(index as u64);
            assert(all.take(index + 1).drop_last() =~= all.take(index as int));
        }
        trie.insert(key.as_slice(), value);
        index = index + 1;
    }
    assert(all.take(index as int) =~= all);
    trie.root_hash()
}

/// An index key is short.
proof fn lemma_index_key_len(index: u64)
    ensures
        rlp_u64(index).len() <= 13,
{
    lemma_be_bytes_len_u64(index);
    lemma_rlp_bytes_len(be_bytes(index as nat));
}

} // verus!
