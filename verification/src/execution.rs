//! Block headers and blocks, their encodings, and the world state that
//! executes transfers.
use rlp::DecoderError;
use vstd::prelude::*;

use crate::account::{
    account_fields, account_inserted, decoded_account, spec_account_encoding, Account, AccountTrie,
};
use crate::mpt::NodeRef;
use crate::mpt_trie::{bytes_list_view, spec_verify_mpt_proof, MptTrie, ProofNodes};
use crate::node_db::{hash_eq, MptNodeDb};
use crate::storage::{slot_written, StorageKey, StorageTrie, StorageValue};
use crate::codec::{
    be_bytes, item_count, raw_at, reads_back_strings, rlp_bytes, rlp_count, rlp_list, rlp_raw_at,
    rlp_string_at, rlp_strings, rlp_u64_at, stream_append_bytes, stream_append_raw,
    stream_append_u64, stream_items, stream_new_list, stream_out, string_at, u64_at,
};
use crate::crypto::{keccak256, spec_keccak256};
use crate::mpt::hash_from_slice;
use crate::transaction::{
    decodes_to_transaction, is_index_trie_root, lemma_short_fields, receipt_encodings,
    receipt_root, transaction_decode_error, transaction_encodings, transaction_root, Receipt,
    Transaction, TransactionDecodeError,
};
use crate::trie_facts::{max_value_len, sound};
use crate::types::Address;

verus! {

/// The gas that a simple transfer uses.
pub const SIMPLE_TRANSFER_GAS_USED: u64 = 21_000;

/// A block header.
#[derive(Debug, Clone, PartialEq, Eq)]
pub struct Header {
    pub parent_hash: crate::types::Hash,
    pub number: u64,
    pub state_root: crate::types::Hash,
    pub transactions_root: crate::types::Hash,
    pub receipts_root: crate::types::Hash,
    pub timestamp: u64,
}

/// Why bytes do not decode as a header.
#[derive(Debug, Clone, PartialEq, Eq)]
pub enum HeaderDecodeError {
    /// A field is missing or is not of its kind.
    InvalidRlp(DecoderError),
    /// The parent hash is not 32 bytes long; the length found.
    InvalidParentHashLength(usize),
    /// The state root is not 32 bytes long; the length found.
    InvalidStateRootLength(usize),
    /// The transactions root is not 32 bytes long; the length found.
    InvalidTransactionsRootLength(usize),
    /// The receipts root is not 32 bytes long; the length found.
    InvalidReceiptsRootLength(usize),
}

/// The byte strings that a header's encoding lists, in order.
pub open spec fn header_fields(h: Header) -> Seq<Seq<u8>> {
    seq![
        h.parent_hash@,
        be_bytes(h.number as nat),
        h.state_root@,
        h.transactions_root@,
        h.receipts_root@,
        be_bytes(h.timestamp as nat),
    ]
}

/// A header's RLP encoding.
pub open spec fn spec_header_encoding(h: Header) -> Seq<u8> {
    rlp_list(rlp_strings(header_fields(h)))
}

/// The decoder reads the header `h` from `b`.
pub open spec fn decodes_to_header(b: Seq<u8>, h: Header) -> bool {
    &&& rlp_string_at(b, 0) == Ok::<Seq<u8>, DecoderError>(h.parent_hash@)
    &&& rlp_u64_at(b, 1) == Ok::<u64, DecoderError>(h.number)
    &&& rlp_string_at(b, 2) == Ok::<Seq<u8>, DecoderError>(h.state_root@)
    &&& rlp_string_at(b, 3) == Ok::<Seq<u8>, DecoderError>(h.transactions_root@)
    &&& rlp_string_at(b, 4) == Ok::<Seq<u8>, DecoderError>(h.receipts_root@)
    &&& rlp_u64_at(b, 5) == Ok::<u64, DecoderError>(h.timestamp)
}

/// The first error that decoding `b` as a header meets, if any: the six
/// fields are read in order, then the four hash lengths are checked in order.
pub open spec fn header_decode_error(b: Seq<u8>) -> Option<HeaderDecodeError> {
    match rlp_string_at(b, 0) {
        Err(e) => Some(HeaderDecodeError::InvalidRlp(e)),
        Ok(parent) => match rlp_u64_at(b, 1) {
            Err(e) => Some(HeaderDecodeError::InvalidRlp(e)),
            Ok(_) => match rlp_string_at(b, 2) {
                Err(e) => Some(HeaderDecodeError::InvalidRlp(e)),
                Ok(state) => match rlp_string_at(b, 3) {
                    Err(e) => Some(HeaderDecodeError::InvalidRlp(e)),
                    Ok(txs) => match rlp_string_at(b, 4) {
                        Err(e) => Some(HeaderDecodeError::InvalidRlp(e)),
                        Ok(receipts) => match rlp_u64_at(b, 5) {
                            Err(e) => Some(HeaderDecodeError::InvalidRlp(e)),
                            Ok(_) => if parent.len() != 32 {
                                Some(HeaderDecodeError::InvalidParentHashLength(parent.len() as usize))
                            } else if state.len() != 32 {
                                Some(HeaderDecodeError::InvalidStateRootLength(state.len() as usize))
                            } else if txs.len() != 32 {
                                Some(
                                    HeaderDecodeError::InvalidTransactionsRootLength(
                                        txs.len() as usize,
                                    ),
                                )
                            } else if receipts.len() != 32 {
                                Some(
                                    HeaderDecodeError::InvalidReceiptsRootLength(
                                        receipts.len() as usize,
                                    ),
                                )
                            } else {
                                None
                            },
                        },
                    },
                },
            },
        },
    }
}

/// A 32-byte hash from decoded bytes; the bytes' length when it is not 32.
fn decode_hash(bytes: &[u8]) -> (res: Result<crate::types::Hash, usize>)
    ensures
        match res {
            Ok(h) => bytes@.len() == 32 && h@ == bytes@,
            Err(n) => bytes@.len() != 32 && n == bytes@.len(),
        },
{
    if bytes.len() != 32 {
        return Err(bytes.len());
    }
    Ok(hash_from_slice(bytes))
}

impl Header {
    /// A header with the given fields.
    pub fn new(
        parent_hash: crate::types::Hash,
        number: u64,
        state_root: crate::types::Hash,
        transactions_root: crate::types::Hash,
        receipts_root: crate::types::Hash,
        timestamp: u64,
    ) -> (h: Self)
        ensures
            h == (Header {
                parent_hash,
                number,
                state_root,
                transactions_root,
                receipts_root,
                timestamp,
            }),
    {
        Header { parent_hash, number, state_root, transactions_root, receipts_root, timestamp }
    }

    /// RLP-encodes the header as the list of its six fields; decoding the
    /// result gives the header back.
    pub fn encode(&self) -> (encoded: Vec<u8>)
        ensures
            encoded@ == spec_header_encoding(*self),
            header_decode_error(encoded@) is None,
            decodes_to_header(encoded@, *self),
    {
        let ghost fields = header_fields(*self);
        let mut stream = stream_new_list(6);
        stream_append_bytes(&mut stream, self.parent_hash.as_slice());
        stream_append_u64(&mut stream, self.number);
        stream_append_bytes(&mut stream, self.state_root.as_slice());
        stream_append_bytes(&mut stream, self.transactions_root.as_slice());
        stream_append_bytes(&mut stream, self.receipts_root.as_slice());
        stream_append_u64(&mut stream, self.timestamp);
        assert(stream_items(stream) =~= rlp_strings(fields));
        let encoded = stream_out(stream);
        proof {
            crate::codec::lemma_be_bytes_len_u64(self.number);
            crate::codec::lemma_be_bytes_len_u64(self.timestamp);
            lemma_short_fields(fields);
            assert(reads_back_strings(encoded@, fields));
            assert(rlp_string_at(encoded@, 0) == Ok::<Seq<u8>, DecoderError>(fields[0]));
            assert(rlp_string_at(encoded@, 2) == Ok::<Seq<u8>, DecoderError>(fields[2]));
            assert(rlp_string_at(encoded@, 3) == Ok::<Seq<u8>, DecoderError>(fields[3]));
            assert(rlp_string_at(encoded@, 4) == Ok::<Seq<u8>, DecoderError>(fields[4]));
            assert(rlp_u64_at(encoded@, 1) == Ok::<u64, DecoderError>(self.number));
            assert(rlp_u64_at(encoded@, 5) == Ok::<u64, DecoderError>(self.timestamp));
        }
        encoded
    }

    /// The Keccak-256 hash of the header's encoding.
    pub fn hash(&self) -> (h: crate::types::Hash)
        ensures
            h@ == spec_keccak256(spec_header_encoding(*self)),
    {
        let encoded = self.encode();
        keccak256(encoded.as_slice())
    }

    /// Decodes a header: reads its six fields and checks that the four
    /// hashes are 32 bytes long.
    pub fn try_decode(bytes: &[u8]) -> (res: Result<Self, HeaderDecodeError>)
        ensures
            match res {
                Ok(h) => header_decode_error(bytes@) is None && decodes_to_header(bytes@, h),
                Err(e) => header_decode_error(bytes@) == Some(e),
            },
    {
        let parent_hash_vec = match string_at(bytes, 0) {
            Ok(v) => v,
            Err(e) => return Err(HeaderDecodeError::InvalidRlp(e)),
        };
        let number = match u64_at(bytes, 1) {
            Ok(v) => v,
            Err(e) => return Err(HeaderDecodeError::InvalidRlp(e)),
        };
        let state_root_vec = match string_at(bytes, 2) {
            Ok(v) => v,
            Err(e) => return Err(HeaderDecodeError::InvalidRlp(e)),
        };
        let transactions_root_vec = match string_at(bytes, 3) {
            Ok(v) => v,
            Err(e) => return Err(HeaderDecodeError::InvalidRlp(e)),
        };
        let receipts_root_vec = match string_at(bytes, 4) {
            Ok(v) => v,
            Err(e) => return Err(HeaderDecodeError::InvalidRlp(e)),
        };
        let timestamp = match u64_at(bytes, 5) {
            Ok(v) => v,
            Err(e) => return Err(HeaderDecodeError::InvalidRlp(e)),
        };
        let parent_hash = match decode_hash(parent_hash_vec.as_slice()) {
            Ok(h) => h,
            Err(n) => return Err(HeaderDecodeError::InvalidParentHashLength(n)),
        };
        let state_root = match decode_hash(state_root_vec.as_slice()) {
            Ok(h) => h,
            Err(n) => return Err(HeaderDecodeError::InvalidStateRootLength(n)),
        };
        let transactions_root = match decode_hash(transactions_root_vec.as_slice()) {
            Ok(h) => h,
            Err(n) => return Err(HeaderDecodeError::InvalidTransactionsRootLength(n)),
        };
        let receipts_root = match decode_hash(receipts_root_vec.as_slice()) {
            Ok(h) => h,
            Err(n) => return Err(HeaderDecodeError::InvalidReceiptsRootLength(n)),
        };
        Ok(Header { parent_hash, number, state_root, transactions_root, receipts_root, timestamp })
    }
}

/// A header over the given transactions and receipts, with their trie roots.
///
/// The receipts trie holds each receipt's encoding in one node, so each must
/// be shorter than `max_value_len()` bytes.
pub fn build_header(
    parent_hash: crate::types::Hash,
    number: u64,
    state_root: crate::types::Hash,
    transactions: &[Transaction],
    receipts: &[Receipt],
    timestamp: u64,
) -> (h: Header)
    requires
        forall|i: int|
            0 <= i < receipts@.len() ==> (#[trigger] receipt_encodings(receipts@)[i]).len() < max_value_len(),
    ensures
        h.parent_hash == parent_hash,
        h.number == number,
        h.state_root == state_root,
        h.timestamp == timestamp,
        is_index_trie_root(h.transactions_root@, transaction_encodings(transactions@)),
        is_index_trie_root(h.receipts_root@, receipt_encodings(receipts@)),
{
    Header::new(
        parent_hash,
        number,
        state_root,
        transaction_root(transactions),
        receipt_root(receipts),
        timestamp,
    )
}

/// A block: a header and its transactions.
#[derive(Debug, Clone, PartialEq, Eq)]
pub struct Block {
    pub header: Header,
    pub transactions: Vec<Transaction>,
}

/// Why bytes do not decode as a block.
#[derive(Debug, Clone, PartialEq, Eq)]
pub enum BlockDecodeError {
    /// The header or the transaction list is missing or not of its kind.
    InvalidRlp(DecoderError),
    /// The header does not decode.
    InvalidHeader(HeaderDecodeError),
    /// The transaction at `index` does not decode.
    InvalidTransaction { index: usize, error: TransactionDecodeError },
}

/// A block's RLP encoding: the header's encoding as a byte string, then the
/// list of the transactions' encodings as byte strings.
pub open spec fn spec_block_encoding(b: Block) -> Seq<u8> {
    rlp_list(
        seq![
            rlp_bytes(spec_header_encoding(b.header)),
            rlp_list(rlp_strings(transaction_encodings(b.transactions@))),
        ],
    )
}

/// The first error that decoding the transaction list `raw` of `count`
/// items meets, from item `k` on.
pub open spec fn transaction_list_error(raw: Seq<u8>, count: nat, k: nat) -> Option<BlockDecodeError>
    decreases count - k,
{
    if k >= count {
        None
    } else {
        match rlp_string_at(raw, k as int) {
            Err(e) => Some(BlockDecodeError::InvalidRlp(e)),
            Ok(encoded) => match transaction_decode_error(encoded) {
                Some(error) => Some(BlockDecodeError::InvalidTransaction { index: k as usize, error }),
                None => transaction_list_error(raw, count, k + 1),
            },
        }
    }
}

/// The first error that decoding `b` as a block meets, if any: the header's
/// bytes, the header, the transaction list, its length, then each
/// transaction in order.
pub open spec fn block_decode_error(b: Seq<u8>) -> Option<BlockDecodeError> {
    match rlp_string_at(b, 0) {
        Err(e) => Some(BlockDecodeError::InvalidRlp(e)),
        Ok(encoded_header) => match header_decode_error(encoded_header) {
            Some(e) => Some(BlockDecodeError::InvalidHeader(e)),
            None => match rlp_raw_at(b, 1) {
                Err(e) => Some(BlockDecodeError::InvalidRlp(e)),
                Ok(raw) => match rlp_count(raw) {
                    Err(e) => Some(BlockDecodeError::InvalidRlp(e)),
                    Ok(count) => transaction_list_error(raw, count as nat, 0),
                },
            },
        },
    }
}

/// The decoder reads the block `block` from `b`.
pub open spec fn decodes_to_block(b: Seq<u8>, block: Block) -> bool {
    &&& rlp_string_at(b, 0) matches Ok(encoded_header) && decodes_to_header(
        encoded_header,
        block.header,
    )
    &&& rlp_raw_at(b, 1) matches Ok(raw) && rlp_count(raw) == Ok::<usize, DecoderError>(
        block.transactions@.len() as usize,
    ) && forall|i: int|
        0 <= i < block.transactions@.len() ==> #[trigger] item_decodes_to(
            raw,
            i,
            block.transactions@[i],
        )
}

/// Item `i` of the list `raw` is a byte string that decodes to `t`.
pub open spec fn item_decodes_to(raw: Seq<u8>, i: int, t: Transaction) -> bool {
    match rlp_string_at(raw, i) {
        Ok(encoded) => decodes_to_transaction(encoded, t),
        Err(_) => false,
    }
}

impl Block {
    /// A block with the given header and transactions.
    pub fn new(header: Header, transactions: Vec<Transaction>) -> (b: Self)
        ensures
            b == (Block { header, transactions }),
    {
        Block { header, transactions }
    }

    /// RLP-encodes the block.
    pub fn encode(&self) -> (encoded: Vec<u8>)
        ensures
            encoded@ == spec_block_encoding(*self),
    {
        let ghost encs = transaction_encodings(self.transactions@);
        let mut list = stream_new_list(self.transactions.len());
        let mut i: usize = 0;
        while i < self.transactions.len()
            invariant
                i <= self.transactions@.len(),
                encs == transaction_encodings(self.transactions@),
                crate::codec::stream_len(list) == self.transactions@.len(),
                stream_items(list) == rlp_strings(encs.take(i as int)),
            decreases self.transactions@.len() - i,
        {
            let encoded_transaction = self.transactions[i].encode();
            stream_append_bytes(&mut list, encoded_transaction.as_slice());
            assert(rlp_strings(encs.take(i + 1)) =~= rlp_strings(encs.take(i as int)).push(
                rlp_bytes(encs[i as int]),
            ));
            i = i + 1;
        }
        assert(encs.take(i as int) =~= encs);
        let transaction_list = stream_out(list);
        let encoded_header = self.header.encode();
        let mut stream = stream_new_list(2);
        stream_append_bytes(&mut stream, encoded_header.as_slice());
        stream_append_raw(&mut stream, transaction_list.as_slice());
        assert(stream_items(stream) =~= seq![
            rlp_bytes(spec_header_encoding(self.header)),
            rlp_list(rlp_strings(encs)),
        ]);
        stream_out(stream)
    }

    /// The Keccak-256 hash of the block's encoding.
    pub fn hash(&self) -> (h: crate::types::Hash)
        ensures
            h@ == spec_keccak256(spec_block_encoding(*self)),
    {
        let encoded = self.encode();
        keccak256(encoded.as_slice())
    }

    /// Decodes a block: its header, then its transaction list item by item.
    pub fn try_decode(bytes: &[u8]) -> (res: Result<Self, BlockDecodeError>)
        ensures
            match res {
                Ok(b) => block_decode_error(bytes@) is None && decodes_to_block(bytes@, b),
                Err(e) => block_decode_error(bytes@) == Some(e),
            },
    {
        let encoded_header = match string_at(bytes, 0) {
            Ok(v) => v,
            Err(e) => return Err(BlockDecodeError::InvalidRlp(e)),
        };
        let header = match Header::try_decode(encoded_header.as_slice()) {
            Ok(h) => h,
            Err(e) => return Err(BlockDecodeError::InvalidHeader(e)),
        };
        let raw = match raw_at(bytes, 1) {
            Ok(r) => r,
            Err(e) => return Err(BlockDecodeError::InvalidRlp(e)),
        };
        let transaction_count = match item_count(raw.as_slice()) {
            Ok(n) => n,
            Err(e) => return Err(BlockDecodeError::InvalidRlp(e)),
        };
        let mut transactions: Vec<Transaction> = Vec::new();
        let mut index: usize = 0;
        while index < transaction_count
            invariant
                index <= transaction_count,
                rlp_raw_at(bytes@, 1) == Ok::<Seq<u8>, DecoderError>(raw@),
                rlp_count(raw@) == Ok::<usize, DecoderError>(transaction_count),
                block_decode_error(bytes@) == transaction_list_error(raw@, transaction_count as nat, 0),
                transaction_list_error(raw@, transaction_count as nat, 0) == transaction_list_error(
                    raw@,
                    transaction_count as nat,
                    index as nat,
                ),
                transactions@.len() == index,
                forall|i: int|
                    0 <= i < index ==> #[trigger] item_decodes_to(raw@, i, transactions@[i]),
            decreases transaction_count - index,
        {
            let encoded_transaction = match string_at(raw.as_slice(), index) {
                Ok(v) => v,
                Err(e) => return Err(BlockDecodeError::InvalidRlp(e)),
            };
            let transaction = match Transaction::try_decode(encoded_transaction.as_slice()) {
                Ok(t) => t,
                Err(error) => return Err(BlockDecodeError::InvalidTransaction { index, error }),
            };
            transactions.push(transaction);
            index = index + 1;
        }
        Ok(Block { header, transactions })
    }
}

/// What executing a block's transactions produced: the state root after, the
/// receipts, and the roots of the transaction and receipt tries.
#[derive(Debug, Clone, PartialEq, Eq)]
pub struct ExecutionResult {
    pub post_state_root: crate::types::Hash,
    pub receipts: Vec<Receipt>,
    pub transactions_root: crate::types::Hash,
    pub receipts_root: crate::types::Hash,
}

impl ExecutionResult {
    /// The result with the given post-state root and receipts, and the trie
    /// roots of the transactions and the receipts.
    ///
    /// The receipts trie holds each receipt's encoding in one node, so each
    /// must be shorter than `max_value_len()` bytes.
    pub fn new(
        post_state_root: crate::types::Hash,
        transactions: &[Transaction],
        receipts: Vec<Receipt>,
    ) -> (r: Self)
        requires
            forall|i: int|
                0 <= i < receipts@.len() ==> (#[trigger] receipt_encodings(receipts@)[i]).len()
                    < max_value_len(),
        ensures
            r.post_state_root == post_state_root,
            r.receipts == receipts,
            is_index_trie_root(r.transactions_root@, transaction_encodings(transactions@)),
            is_index_trie_root(r.receipts_root@, receipt_encodings(receipts@)),
    {
        let transactions_root = transaction_root(transactions);
        let receipts_root = receipt_root(receipts.as_slice());
        ExecutionResult { post_state_root, receipts, transactions_root, receipts_root }
    }
}

/// Why a transfer was not applied.
#[derive(Debug, PartialEq, Eq)]
pub enum ExecutionError {
    /// The sender has no account.
    MissingSender(Address),
    /// The recipient has no account.
    MissingRecipient(Address),
    /// The transaction's nonce is not the sender's.
    InvalidNonce { address: Address, expected: u64, actual: u64 },
    /// The sender's balance is below the value sent.
    InsufficientBalance { address: Address, balance: u64, required: u64 },
    /// The recipient's balance would overflow.
    BalanceOverflow { address: Address, balance: u64, amount: u64 },
    /// The sender's nonce would overflow.
    NonceOverflow { address: Address, nonce: u64 },
    /// A state operation failed.
    State(StateError),
    /// The transaction at `index` of a list failed.
    TransactionFailed { index: usize, error: Box<ExecutionError> },
}

/// Why a state operation failed.
#[derive(Debug, Clone, PartialEq, Eq)]
pub enum StateError {
    /// The address has no account.
    AccountNotFound(Address),
    /// The account's storage root is not empty, but no storage trie for it is held.
    StorageTrieUnavailable(Address),
}

/// The world state: the account trie, and the storage tries held for some
/// addresses.
#[derive(Clone)]
pub struct State {
    accounts: AccountTrie,
    storage_tries: Vec<(Address, StorageTrie)>,
}

/// The storage trie held for `address` among `entries`, the latest entry winning.
pub open spec fn storage_lookup(entries: Seq<(Address, StorageTrie)>, address: Seq<u8>) -> Option<
    StorageTrie,
>
    decreases entries.len(),
{
    if entries.len() == 0 {
        None
    } else if entries.last().0@ == address {
        Some(entries.last().1)
    } else {
        storage_lookup(entries.drop_last(), address)
    }
}

/// A held storage trie stays held for an account only while its root is
/// the account's storage root.
pub open spec fn synced(entry: Option<StorageTrie>, account: Account) -> Option<StorageTrie> {
    match entry {
        Some(t) => if t.inner().spec_root_hash() == account.storage_root@ {
            Some(t)
        } else {
            None
        },
        None => None,
    }
}

/// Two optional storage tries are both absent or the same.
pub open spec fn same_storage(a: Option<StorageTrie>, b: Option<StorageTrie>) -> bool {
    match (a, b) {
        (Some(x), Some(y)) => MptTrie::same_trie(x.inner(), y.inner()),
        (None, None) => true,
        _ => false,
    }
}

/// 32 zero bytes: the storage root of an account without storage.
pub open spec fn zero_root() -> Seq<u8> {
    Seq::new(32, |i: int| 0u8)
}

/// The receipt of a successful transfer.
pub open spec fn transfer_receipt() -> Receipt {
    Receipt { success: true, gas_used: SIMPLE_TRANSFER_GAS_USED, error: None }
}

proof fn lemma_storage_lookup_index(entries: Seq<(Address, StorageTrie)>, i: int)
    requires
        0 <= i < entries.len(),
        forall|k: int| i < k < entries.len() ==> (#[trigger] entries[k]).0@ != entries[i].0@,
    ensures
        storage_lookup(entries, entries[i].0@) == Some(entries[i].1),
    decreases entries.len(),
{
    if i < entries.len() - 1 {
        assert(entries.last() == entries[entries.len() - 1]);
        lemma_storage_lookup_index(entries.drop_last(), i);
    }
}

proof fn lemma_storage_lookup_none(entries: Seq<(Address, StorageTrie)>, address: Seq<u8>)
    requires
        forall|k: int| 0 <= k < entries.len() ==> (#[trigger] entries[k]).0@ != address,
    ensures
        storage_lookup(entries, address) is None,
    decreases entries.len(),
{
    if entries.len() > 0 {
        assert(entries.last() == entries[entries.len() - 1]);
        lemma_storage_lookup_none(entries.drop_last(), address);
    }
}

proof fn lemma_storage_lookup_some(entries: Seq<(Address, StorageTrie)>, address: Seq<u8>) -> (i: int)
    requires
        storage_lookup(entries, address) is Some,
    ensures
        0 <= i < entries.len(),
        entries[i].0@ == address,
        storage_lookup(entries, address) == Some(entries[i].1),
        forall|k: int| i < k < entries.len() ==> (#[trigger] entries[k]).0@ != address,
    decreases entries.len(),
{
    if entries.last().0@ == address {
        entries.len() - 1
    } else {
        let i = lemma_storage_lookup_some(entries.drop_last(), address);
        assert forall|k: int| i < k < entries.len() implies (#[trigger] entries[k]).0@ != address by {
            if k < entries.len() - 1 {
                assert(entries[k] == entries.drop_last()[k]);
            }
        }
        i
    }
}

/// Pushing an entry shadows what an address held.
proof fn lemma_storage_lookup_push(
    entries: Seq<(Address, StorageTrie)>,
    e: (Address, StorageTrie),
    address: Seq<u8>,
)
    ensures
        storage_lookup(entries.push(e), address) == if e.0@ == address {
            Some(e.1)
        } else {
            storage_lookup(entries, address)
        },
{
    assert(entries.push(e).drop_last() =~= entries);
}

/// Removing the only entry of an address removes what it held and keeps
/// what other addresses hold.
proof fn lemma_storage_lookup_remove(entries: Seq<(Address, StorageTrie)>, i: int, address: Seq<u8>)
    requires
        0 <= i < entries.len(),
        forall|a: int, b: int|
            0 <= a < b < entries.len() ==> (#[trigger] entries[a]).0@ != (#[trigger] entries[b]).0@,
    ensures
        storage_lookup(entries.remove(i), address) == if entries[i].0@ == address {
            None
        } else {
            storage_lookup(entries, address)
        },
{
    let rest = entries.remove(i);
    if entries[i].0@ == address {
        assert forall|k: int| 0 <= k < rest.len() implies (#[trigger] rest[k]).0@ != address by {
            if k < i {
                assert(rest[k] == entries[k]);
            } else {
                assert(rest[k] == entries[k + 1]);
            }
        }
        lemma_storage_lookup_none(rest, address);
    } else {
        if storage_lookup(entries, address) is Some {
            let j = lemma_storage_lookup_some(entries, address);
            let jr = if j < i {
                j
            } else {
                j - 1
            };
            assert(rest[jr] == entries[j]);
            assert forall|k: int| jr < k < rest.len() implies (#[trigger] rest[k]).0@ != address by {
                if k < i {
                    assert(rest[k] == entries[k]);
                } else {
                    assert(rest[k] == entries[k + 1]);
                }
            }
            lemma_storage_lookup_index(rest, jr);
        } else {
            assert forall|k: int| 0 <= k < rest.len() implies (#[trigger] rest[k]).0@ != address by {
                let src = if k < i {
                    k
                } else {
                    k + 1
                };
                assert(rest[k] == entries[src]);
                if entries[src].0@ == address {
                    if exists|m: int| src < m < entries.len() && (#[trigger] entries[m]).0@ == address {
                        let m = choose|m: int| src < m < entries.len() && (#[trigger] entries[m]).0@
                            == address;
                        assert(entries[src].0@ != entries[m].0@);
                    } else {
                        lemma_storage_lookup_index(entries, src);
                    }
                }
            }
            lemma_storage_lookup_none(rest, address);
        }
    }
}

/// Compares two addresses byte by byte.
fn address_eq(a: &Address, b: &Address) -> (eq: bool)
    ensures
        eq == (a@ == b@),
{
    let mut i: usize = 0;
    while i < 20
        invariant
            i <= 20,
            forall|j: int| 0 <= j < i ==> a@[j] == b@[j],
        decreases 20 - i,
    {
        if a[i] != b[i] {
            assert(a@[i as int] != b@[i as int]);
            return false;
        }
        i = i + 1;
    }
    assert(a@ =~= b@);
    true
}

impl State {
    /// The account trie.
    pub closed spec fn account_trie(self) -> AccountTrie {
        self.accounts
    }

    /// The storage trie held for `address`, if any.
    pub closed spec fn storage_of(self, address: Seq<u8>) -> Option<StorageTrie> {
        storage_lookup(self.storage_tries@, address)
    }

    /// At most one storage trie is held per address.
    pub closed spec fn storage_inv(self) -> bool {
        forall|a: int, b: int|
            0 <= a < b < self.storage_tries@.len() ==> (#[trigger] self.storage_tries@[a]).0@ != (
            #[trigger] self.storage_tries@[b]).0@
    }

    /// The account of `address`, if any.
    pub open spec fn account_at(self, address: Seq<u8>) -> Option<Account> {
        self.account_trie().account_at(address)
    }

    /// The state is well kept: its account trie and its storage tries are,
    /// and it holds at most one storage trie per address.
    pub open spec fn wf(self) -> bool {
        &&& self.storage_inv()
        &&& self.account_trie().inner().wf()
        &&& forall|address: Seq<u8>|
            #[trigger] self.storage_of(address) matches Some(t) ==> t.inner().wf()
    }

    /// The index of the storage trie held for `address`.
    fn find_storage(&self, address: &Address) -> (index: Option<usize>)
        ensures
            match index {
                Some(i) => {
                    &&& i < self.storage_tries@.len()
                    &&& self.storage_tries@[i as int].0@ == address@
                    &&& self.storage_of(address@) == Some(self.storage_tries@[i as int].1)
                },
                None => self.storage_of(address@) is None,
            },
    {
        let mut i = self.storage_tries.len();
        assert(self.storage_tries@.take(i as int) =~= self.storage_tries@);
        while i > 0
            invariant
                i <= self.storage_tries@.len(),
                storage_lookup(self.storage_tries@, address@) == storage_lookup(
                    self.storage_tries@.take(i as int),
                    address@,
                ),
            decreases i,
        {
            let ghost prefix = self.storage_tries@.take(i as int);
            assert(prefix.drop_last() =~= self.storage_tries@.take(i - 1));
            if address_eq(&self.storage_tries[i - 1].0, address) {
                return Some(i - 1);
            }
            i = i - 1;
        }
        None
    }

    /// An empty state.
    pub fn new() -> (state: Self)
        ensures
            state.wf(),
            state.account_trie().inner()@ == Map::<Seq<u8>, Seq<u8>>::empty(),
            state.account_trie().inner().store().collision_free(),
            state.account_trie().inner().root_ref() is None,
            forall|a: Seq<u8>| #[trigger] state.storage_of(a) is None,
    {
        State { accounts: AccountTrie::new(), storage_tries: Vec::new() }
    }

    /// A state whose accounts are those of the trie over `db` rooted at
    /// `root`, with no storage tries held.
    pub fn from_account_root(db: MptNodeDb, root: NodeRef) -> (state: Self)
        ensures
            state.account_trie().inner().store() == db,
            state.account_trie().inner().root_ref() == Some(root@),
            state.storage_inv(),
            forall|a: Seq<u8>| #[trigger] state.storage_of(a) is None,
    {
        State { accounts: AccountTrie::from_root(db, root), storage_tries: Vec::new() }
    }

    /// A state over the account trie in `db` rooted at `root`, with no
    /// storage tries held, once the store has been checked: `None` unless
    /// `MptNodeDb::check_well_kept` accepts the store and it holds `root`.
    /// A state it gives is well kept, so transfers and storage writes apply.
    pub fn reopen(db: MptNodeDb, root: NodeRef) -> (state: Option<Self>)
        ensures
            match state {
                Some(s) => {
                    &&& s.wf()
                    &&& s.account_trie().inner().store()@ == db@
                    &&& s.account_trie().inner().store().spec_len() == db.spec_len()
                    &&& s.account_trie().inner().root_ref() == Some(root@)
                    &&& forall|a: Seq<u8>| #[trigger] s.storage_of(a) is None
                },
                None => !(db.inv() && sound(db@) && db@.contains_key(root@)),
            },
    {
        let mut db = db;
        if !db.check_well_kept() {
            return None;
        }
        if !db.contains(root) {
            return None;
        }
        let state = State::from_account_root(db, root);
        proof {
            state.account_trie().inner().lemma_wf_def();
        }
        Some(state)
    }

    /// The account trie's store and root hash, taken apart.
    pub fn into_account_parts(self) -> (parts: (MptNodeDb, Option<NodeRef>))
        ensures
            parts.0 == self.account_trie().inner().store(),
            self.account_trie().inner().root_ref() == (match parts.1 {
                Some(r) => Some(r@),
                None => None,
            }),
    {
        self.accounts.into_parts()
    }

    /// The state root: the account trie's root hash.
    pub fn root_hash(&self) -> (hash: NodeRef)
        ensures
            hash@ == self.account_trie().inner().spec_root_hash(),
    {
        self.accounts.root_hash()
    }

    /// Drops the storage trie held for `address` unless its root is the
    /// account's storage root.
    fn sync_storage_trie(&mut self, address: Address, account: &Account)
        requires
            old(self).storage_inv(),
        ensures
            final(self).account_trie() == old(self).account_trie(),
            final(self).storage_inv(),
            final(self).storage_of(address@) == synced(old(self).storage_of(address@), *account),
            forall|other: Seq<u8>|
                other != address@ ==> #[trigger] final(self).storage_of(other) == old(self).storage_of(
                    other,
                ),
    {
        match self.find_storage(&address) {
            Some(i) => {
                let root = self.storage_tries[i].1.root_hash();
                if !hash_eq(&root, &account.storage_root) {
                    let ghost entries = self.storage_tries@;
                    let _removed = self.storage_tries.remove(i);
                    proof {
                        assert(self.storage_tries@ == entries.remove(i as int));
                        assert forall|a: Seq<u8>| #[trigger]
                            storage_lookup(self.storage_tries@, a) == (if entries[i as int].0@ == a {
                                None
                            } else {
                                storage_lookup(entries, a)
                            }) by {
                            lemma_storage_lookup_remove(entries, i as int, a);
                        }
                        assert forall|a: int, b: int|
                            0 <= a < b < self.storage_tries@.len() implies (
                            #[trigger] self.storage_tries@[a]).0@ != (
                            #[trigger] self.storage_tries@[b]).0@ by {
                            let sa = if a < i {
                                a
                            } else {
                                a + 1
                            };
                            let sb = if b < i {
                                b
                            } else {
                                b + 1
                            };
                            assert(self.storage_tries@[a] == entries[sa]);
                            assert(self.storage_tries@[b] == entries[sb]);
                        }
                    }
                }
            },
            None => {},
        }
    }

    /// Writes `account` for `address`, first dropping a held storage trie
    /// whose root is not the account's storage root.
    pub fn create_account(&mut self, address: Address, account: Account)
        requires
            old(self).wf(),
        ensures
            account_updated(*old(self), *final(self), address@, account),
            final(self).wf(),
    {
        proof {
            old(self).account_trie().inner().lemma_wf_can_insert(spec_keccak256(address@));
        }
        self.sync_storage_trie(address, &account);
        let ghost synced_state = *self;
        self.accounts.insert_account(address, account);
        proof {
            assert(account_inserted(synced_state.accounts, self.accounts, address@, account));
            assert(self.storage_tries == synced_state.storage_tries);
            assert(self.storage_inv());
            assert(forall|other: Seq<u8>|
                #[trigger] self.storage_of(other) == synced_state.storage_of(other));
            if old(self).wf() {
                lemma_account_updated_wf(*old(self), *self, address@, account);
            }
        }
    }

    /// Writes `account` for `address`, first dropping a held storage trie
    /// whose root is not the account's storage root.
    pub fn update_account(&mut self, address: Address, account: Account)
        requires
            old(self).storage_inv(),
            old(self).account_trie().inner().can_insert(spec_keccak256(address@)),
        ensures
            account_updated(*old(self), *final(self), address@, account),
            old(self).wf() ==> final(self).wf(),
    {

        self.sync_storage_trie(address, &account);
        let ghost synced_state = *self;
        self.accounts.insert_account(address, account);
        proof {
            assert(account_inserted(synced_state.accounts, self.accounts, address@, account));
            assert(self.storage_tries == synced_state.storage_tries);
            assert(self.storage_inv());
            assert(forall|other: Seq<u8>|
                #[trigger] self.storage_of(other) == synced_state.storage_of(other));
            if old(self).wf() {
                lemma_account_updated_wf(*old(self), *self, address@, account);
            }
        }
    }

    /// The account of `address`, if any.
    pub fn get_account(&self, address: Address) -> (account: Option<Account>)
        ensures
            account == self.account_at(address@),
    {
        self.accounts.get_account(address)
    }

    /// The inclusion proof for the account of `address`.
    pub fn prove_account(&self, address: Address) -> (nodes: Option<ProofNodes>)
        ensures
            match nodes {
                Some(p) => self.account_trie().inner().proof_of(spec_keccak256(address@)) == Some(
                    bytes_list_view(p@),
                ),
                None => self.account_trie().inner().proof_of(spec_keccak256(address@)) is None,
            },
    {
        self.accounts.prove_account(address)
    }

    /// Checks an account proof against a state root.
    pub fn verify_account_proof(
        root: NodeRef,
        address: Address,
        account: &Account,
        nodes: &[Vec<u8>],
    ) -> (ok: bool)
        ensures
            ok == spec_verify_mpt_proof(
                root@,
                spec_keccak256(address@),
                crate::account::spec_account_encoding(*account),
                bytes_list_view(nodes@),
            ),
    {
        AccountTrie::verify_account_proof(root, address, account, nodes)
    }

    /// The value of a storage slot of `address`, from the storage trie held
    /// for it; `None` when no trie is held or the slot has no value.
    pub fn get_storage_slot(&self, address: Address, slot_key: StorageKey) -> (value: Option<
        StorageValue,
    >)
        ensures
            crate::mpt_trie::opt_view(value) == match self.storage_of(address@) {
                Some(t) => t.slot_at(slot_key@),
                None => None,
            },
    {
        match self.find_storage(&address) {
            Some(i) => self.storage_tries[i].1.get_slot(slot_key),
            None => None,
        }
    }
}

/// `b` is the state `a` after `account` was written for `address`: the
/// account trie as `account_inserted` says, the storage trie held for
/// `address` kept only if its root is the account's storage root, and the
/// storage tries of other addresses kept.
pub open spec fn account_updated(a: State, b: State, address: Seq<u8>, account: Account) -> bool {
    &&& account_inserted(a.account_trie(), b.account_trie(), address, account)
    &&& b.storage_inv()
    &&& b.storage_of(address) == synced(a.storage_of(address), account)
    &&& forall|other: Seq<u8>| other != address ==> #[trigger] b.storage_of(other) == a.storage_of(other)
}

/// Why a storage write for `address` fails, if it does: the address has no
/// account, or no storage trie is held for it while its storage root is not
/// the empty one.
pub open spec fn storage_write_error(s: State, address: Address) -> Option<StateError> {
    match s.account_at(address@) {
        None => Some(StateError::AccountNotFound(address)),
        Some(account) => if s.storage_of(address@) is None && account.storage_root@ != zero_root() {
            Some(StateError::StorageTrieUnavailable(address))
        } else {
            None
        },
    }
}

/// A storage trie as `StorageTrie::new` makes it.
pub open spec fn fresh_storage(t: StorageTrie) -> bool {
    &&& t.inner()@ == Map::<Seq<u8>, Seq<u8>>::empty()
    &&& t.inner().wf()
    &&& t.inner().store().collision_free()
    &&& t.inner().root_ref() is None
}

/// `b` is the state `a` after `value` was written to the slot `slot_key` of
/// `address`: the held storage trie (or a fresh one) had the value written
/// into it and is held for `address`, then the account was rewritten with
/// that trie's root as its storage root.
pub open spec fn storage_slot_set(
    a: State,
    b: State,
    address: Seq<u8>,
    slot_key: Seq<u8>,
    value: Seq<u8>,
) -> bool {
    exists|t0: StorageTrie, t1: StorageTrie, mid: State, account: Account|
        #![trigger slot_written(t0, t1, slot_key, value), account_updated(mid, b, address, account)]
        {
            &&& (a.storage_of(address) matches Some(t) ==> t0 == t)
            &&& (a.storage_of(address) is None ==> fresh_storage(t0))
            &&& slot_written(t0, t1, slot_key, value)
            &&& mid.account_trie() == a.account_trie()
            &&& mid.storage_inv()
            &&& mid.storage_of(address) == Some(t1)
            &&& (forall|other: Seq<u8>|
                other != address ==> #[trigger] mid.storage_of(other) == a.storage_of(other))
            &&& a.account_at(address) matches Some(old_account)
            &&& account.nonce == old_account.nonce
            &&& account.balance == old_account.balance
            &&& account.code_hash == old_account.code_hash
            &&& account.storage_root@ == t1.inner().spec_root_hash()
            &&& account_updated(mid, b, address, account)
        }
}

/// Why a transfer fails on state `s`, if it does, checking in order: the
/// sender's account, the recipient's account, the nonce, the balance, the
/// sender's nonce overflowing, and (for a transfer between two addresses)
/// the recipient's balance overflowing.
pub open spec fn transfer_error(s: State, tx: Transaction) -> Option<ExecutionError> {
    match s.account_at(tx.from@) {
        None => Some(ExecutionError::MissingSender(tx.from)),
        Some(sender) => match s.account_at(tx.to@) {
            None => Some(ExecutionError::MissingRecipient(tx.to)),
            Some(recipient) => if sender.nonce != tx.nonce {
                Some(
                    ExecutionError::InvalidNonce {
                        address: tx.from,
                        expected: sender.nonce,
                        actual: tx.nonce,
                    },
                )
            } else if sender.balance < tx.value {
                Some(
                    ExecutionError::InsufficientBalance {
                        address: tx.from,
                        balance: sender.balance,
                        required: tx.value,
                    },
                )
            } else if sender.nonce == u64::MAX {
                Some(ExecutionError::NonceOverflow { address: tx.from, nonce: sender.nonce })
            } else if tx.from@ != tx.to@ && recipient.balance + tx.value > u64::MAX {
                Some(
                    ExecutionError::BalanceOverflow {
                        address: tx.to,
                        balance: recipient.balance,
                        amount: tx.value,
                    },
                )
            } else {
                None
            },
        },
    }
}

/// The sender's account after the transfer: nonce one up, and the value
/// taken off its balance unless it sends to itself.
pub open spec fn sender_after(s: State, tx: Transaction) -> Account {
    let sender = s.account_at(tx.from@)->Some_0;
    Account {
        nonce: (sender.nonce + 1) as u64,
        balance: if tx.from@ == tx.to@ {
            sender.balance
        } else {
            (sender.balance - tx.value) as u64
        },
        storage_root: sender.storage_root,
        code_hash: sender.code_hash,
    }
}

/// The recipient's account after a transfer between two addresses: the
/// value added to its balance.
pub open spec fn recipient_after(s: State, tx: Transaction) -> Account {
    let recipient = s.account_at(tx.to@)->Some_0;
    Account {
        nonce: recipient.nonce,
        balance: (recipient.balance + tx.value) as u64,
        storage_root: recipient.storage_root,
        code_hash: recipient.code_hash,
    }
}

/// `s1` is `s0` after the transfer: the sender's account written, then (for
/// a transfer between two addresses) the recipient's.
pub open spec fn transfer_applied(s0: State, tx: Transaction, s1: State) -> bool {
    if tx.from@ == tx.to@ {
        account_updated(s0, s1, tx.from@, sender_after(s0, tx))
    } else {
        exists|mid: State|
            #[trigger] account_updated(s0, mid, tx.from@, sender_after(s0, tx)) && account_updated(
                mid,
                s1,
                tx.to@,
                recipient_after(s0, tx),
            )
    }
}

/// `states` runs through the transfers `txs`, one after the other, none failing.
pub open spec fn transfers_applied(states: Seq<State>, txs: Seq<Transaction>) -> bool {
    &&& states.len() == txs.len() + 1
    &&& forall|i: int| 0 <= i < txs.len() ==> #[trigger] transfer_step(states, txs, i)
}

/// Transfer `i` of `txs` succeeds on `states[i]` and leads to `states[i + 1]`.
pub open spec fn transfer_step(states: Seq<State>, txs: Seq<Transaction>, i: int) -> bool {
    &&& transfer_error(states[i], txs[i]) is None
    &&& transfer_applied(states[i], txs[i], states[i + 1])
}

/// `a` and `b` hold the same account trie and the same storage tries.
pub open spec fn same_state(a: State, b: State) -> bool {
    &&& MptTrie::same_trie(a.account_trie().inner(), b.account_trie().inner())
    &&& a.storage_inv() == b.storage_inv()
    &&& forall|address: Seq<u8>| #[trigger] same_storage(a.storage_of(address), b.storage_of(address))
}

/// Writing an account keeps a well-kept state well kept.
pub proof fn lemma_account_updated_wf(a: State, b: State, address: Seq<u8>, account: Account)
    requires
        a.wf(),
        account_updated(a, b, address, account),
    ensures
        b.wf(),
{
    assert forall|x: Seq<u8>| (#[trigger] b.storage_of(x) matches Some(t) ==> t.inner().wf()) by {
        if x != address {
            assert(b.storage_of(x) == a.storage_of(x));
        }
        assert(a.storage_of(x) matches Some(t) ==> t.inner().wf());
        assert(a.storage_of(address) matches Some(t) ==> t.inner().wf());
    }
}

/// Parallel entries with the same addresses and the same tries look up alike.
proof fn lemma_storage_lookup_same(
    a: Seq<(Address, StorageTrie)>,
    b: Seq<(Address, StorageTrie)>,
    address: Seq<u8>,
)
    requires
        a.len() == b.len(),
        forall|i: int|
            0 <= i < a.len() ==> (#[trigger] a[i]).0 == b[i].0 && MptTrie::same_trie(
                a[i].1.inner(),
                b[i].1.inner(),
            ),
    ensures
        same_storage(storage_lookup(a, address), storage_lookup(b, address)),
    decreases a.len(),
{
    if a.len() > 0 {
        assert(a.last() == a[a.len() - 1]);
        assert(b.last() == b[b.len() - 1]);
        lemma_storage_lookup_same(a.drop_last(), b.drop_last(), address);
    }
}

/// States that are the same agree on accounts and on being well kept.
pub proof fn lemma_same_state(a: State, b: State)
    requires
        same_state(a, b),
    ensures
        a.wf() == b.wf(),
        forall|address: Seq<u8>| #[trigger] a.account_at(address) == b.account_at(address),
        a.account_trie().inner().spec_root_hash() == b.account_trie().inner().spec_root_hash(),
{
    MptTrie::lemma_same_trie(a.account_trie().inner(), b.account_trie().inner());
    if a.wf() {
        assert forall|x: Seq<u8>| (#[trigger] b.storage_of(x) matches Some(t) ==> t.inner().wf()) by {
            assert(same_storage(a.storage_of(x), b.storage_of(x)));
            assert(a.storage_of(x) matches Some(t) ==> t.inner().wf());
            if let (Some(s), Some(t)) = (a.storage_of(x), b.storage_of(x)) {
                MptTrie::lemma_same_trie(s.inner(), t.inner());
            }
        }
    }
    if b.wf() {
        assert forall|x: Seq<u8>| (#[trigger] a.storage_of(x) matches Some(t) ==> t.inner().wf()) by {
            assert(same_storage(a.storage_of(x), b.storage_of(x)));
            assert(b.storage_of(x) matches Some(t) ==> t.inner().wf());
            if let (Some(s), Some(t)) = (a.storage_of(x), b.storage_of(x)) {
                MptTrie::lemma_same_trie(s.inner(), t.inner());
            }
        }
    }
}

/// A successful transfer's receipt encodes short.
proof fn lemma_transfer_receipt_len()
    ensures
        crate::transaction::spec_receipt_encoding(transfer_receipt()).len() < max_value_len(),
{
    let fields = crate::transaction::receipt_fields(transfer_receipt());
    crate::codec::lemma_be_bytes_len(1);
    crate::codec::lemma_be_bytes_len(SIMPLE_TRANSFER_GAS_USED as nat);
    lemma_short_fields(fields);
}

impl State {
    /// A copy of the state.
    pub fn duplicate(&self) -> (d: Self)
        ensures
            same_state(d, *self),
    {
        let accounts = self.accounts.duplicate();
        let mut storage_tries: Vec<(Address, StorageTrie)> = Vec::new();
        for i in 0..self.storage_tries.len()
            invariant
                storage_tries@.len() == i,
                i <= self.storage_tries@.len(),
                forall|j: int|
                    0 <= j < i ==> (#[trigger] storage_tries@[j]).0 == self.storage_tries@[j].0
                        && MptTrie::same_trie(
                        storage_tries@[j].1.inner(),
                        self.storage_tries@[j].1.inner(),
                    ),
        {
            let address = self.storage_tries[i].0;
            let trie = self.storage_tries[i].1.duplicate();
            storage_tries.push((address, trie));
        }
        let d = State { accounts, storage_tries };
        proof {
            assert forall|address: Seq<u8>| #[trigger]
                same_storage(d.storage_of(address), self.storage_of(address)) by {
                lemma_storage_lookup_same(d.storage_tries@, self.storage_tries@, address);
            }
            if self.storage_inv() {
                assert forall|a: int, b: int|
                    0 <= a < b < d.storage_tries@.len() implies (#[trigger] d.storage_tries@[a]).0@
                    != (#[trigger] d.storage_tries@[b]).0@ by {
                    assert(self.storage_tries@[a].0@ != self.storage_tries@[b].0@);
                }
            }
            if d.storage_inv() {
                assert forall|a: int, b: int|
                    0 <= a < b < self.storage_tries@.len() implies (
                    #[trigger] self.storage_tries@[a]).0@ != (#[trigger] self.storage_tries@[b]).0@ by {
                    assert(d.storage_tries@[a].0@ != d.storage_tries@[b].0@);
                }
            }
        }
        d
    }

    /// The index of the storage trie for `address`: the held one, or a
    /// fresh one now held when the account's storage root is the empty one.
    fn storage_trie_index(&mut self, address: Address, account: &Account) -> (res: Result<
        usize,
        StateError,
    >)
        requires
            old(self).storage_inv(),
        ensures
            final(self).account_trie() == old(self).account_trie(),
            final(self).storage_inv(),
            match res {
                Ok(i) => {
                    &&& i < final(self).storage_tries@.len()
                    &&& final(self).storage_tries@[i as int].0 == address
                    &&& (old(self).storage_of(address@) matches Some(t) ==> *final(self)
                        == *old(self) && final(self).storage_tries@[i as int].1 == t)
                    &&& (old(self).storage_of(address@) is None ==> account.storage_root@ == zero_root()
                        && fresh_storage(final(self).storage_tries@[i as int].1)
                        && final(self).storage_tries@ == old(self).storage_tries@.push(
                        final(self).storage_tries@[i as int],
                    ) && i == old(self).storage_tries@.len())
                },
                Err(e) => *final(self) == *old(self) && old(self).storage_of(address@) is None
                    && account.storage_root@ != zero_root() && e == StateError::StorageTrieUnavailable(
                    address,
                ),
            },
    {
        match self.find_storage(&address) {
            Some(i) => {
                proof {
                    assert(self.storage_tries@[i as int].0 =~= address);
                }
                return Ok(i);
            },
            None => {},
        }
        let empty = Account::empty_storage_root();
        if !hash_eq(&account.storage_root, &empty) {
            return Err(StateError::StorageTrieUnavailable(address));
        }
        let ghost entries = self.storage_tries@;
        self.storage_tries.push((address, StorageTrie::new()));
        proof {
            assert forall|k: int| 0 <= k < entries.len() implies (#[trigger] entries[k]).0@ != address@ by {
                if entries[k].0@ == address@ {
                    let j = if exists|j: int| k < j < entries.len() && (#[trigger] entries[j]).0@
                        == address@ {
                        choose|j: int| k < j < entries.len() && (#[trigger] entries[j]).0@ == address@
                    } else {
                        k
                    };
                    if j == k {
                        lemma_storage_lookup_index(entries, k);
                    } else {
                        assert(entries[k].0@ != entries[j].0@);
                    }
                }
            }
            assert forall|a: int, b: int|
                0 <= a < b < self.storage_tries@.len() implies (#[trigger] self.storage_tries@[a]).0@
                != (#[trigger] self.storage_tries@[b]).0@ by {
                if b == entries.len() {
                    assert(self.storage_tries@[a] == entries[a]);
                } else {
                    assert(self.storage_tries@[a] == entries[a]);
                    assert(self.storage_tries@[b] == entries[b]);
                }
            }
        }
        Ok(self.storage_tries.len() - 1)
    }

    /// Writes `value` to the slot `slot_key` of `address`: in the storage
    /// trie held for it, or a fresh one when the account's storage root is
    /// the empty one; then rewrites the account with the trie's new root.
    pub fn set_storage_slot(
        &mut self,
        address: Address,
        slot_key: StorageKey,
        value: StorageValue,
    ) -> (res: Result<(), StateError>)
        requires
            old(self).wf(),
        ensures
            old(self).wf() && value@.len() < max_value_len() ==> final(self).wf(),
            match res {
                Err(e) => *final(self) == *old(self) && storage_write_error(*old(self), address) == Some(
                    e,
                ),
                Ok(()) => storage_write_error(*old(self), address) is None && storage_slot_set(
                    *old(self),
                    *final(self),
                    address@,
                    slot_key@,
                    value@,
                ),
            },
    {
        let ghost s0 = *self;
        let mut account = match self.get_account(address) {
            Some(a) => a,
            None => return Err(StateError::AccountNotFound(address)),
        };
        let ghost old_account = account;
        let index = match self.storage_trie_index(address, &account) {
            Ok(i) => i,
            Err(e) => return Err(e),
        };
        let ghost s1 = *self;
        let ghost entries1 = self.storage_tries@;
        let (entry_address, mut storage_trie) = self.storage_tries.remove(index);
        let ghost t0 = storage_trie;
        proof {
            assert(t0 == entries1[index as int].1);
            if s0.storage_of(address@) is None {
                t0.inner().lemma_wf_can_insert(spec_keccak256(slot_key@));
            } else {
                assert(s0.storage_of(address@) matches Some(t) ==> t.inner().wf());
                t0.inner().lemma_wf_can_insert(spec_keccak256(slot_key@));
            }
            s0.account_trie().inner().lemma_wf_can_insert(spec_keccak256(address@));
        }
        storage_trie.set_slot(slot_key, value);
        let ghost t1 = storage_trie;
        account.storage_root = storage_trie.root_hash();
        let ghost entries2 = self.storage_tries@;
        self.storage_tries.push((entry_address, storage_trie));
        let ghost mid = *self;
        proof {
            assert(entries2 == entries1.remove(index as int));
            assert forall|other: Seq<u8>| #[trigger]
                storage_lookup(entries2, other) == (if other == address@ {
                    None
                } else {
                    s0.storage_of(other)
                }) by {
                lemma_storage_lookup_remove(entries1, index as int, other);
                if s0.storage_of(address@) is None {
                    assert(entries1.remove(index as int) =~= s0.storage_tries@);
                }
            }
            assert forall|other: Seq<u8>| #[trigger]
                storage_lookup(self.storage_tries@, other) == (if other == address@ {
                    Some(t1)
                } else {
                    s0.storage_of(other)
                }) by {
                lemma_storage_lookup_push(entries2, (entry_address, t1), other);
            }
            assert forall|a: int, b: int|
                0 <= a < b < self.storage_tries@.len() implies (#[trigger] self.storage_tries@[a]).0@
                != (#[trigger] self.storage_tries@[b]).0@ by {
                let sa = if a < index {
                    a
                } else {
                    a + 1
                };
                if b < self.storage_tries@.len() - 1 {
                    let sb = if b < index {
                        b
                    } else {
                        b + 1
                    };
                    assert(self.storage_tries@[a] == entries1[sa]);
                    assert(self.storage_tries@[b] == entries1[sb]);
                } else {
                    assert(self.storage_tries@[a] == entries1[sa]);
                    assert(entries1[index as int].0@ == address@);
                }
            }
            assert(mid.storage_inv());
        }
        self.update_account(address, account);
        proof {
            assert(slot_written(t0, t1, slot_key@, value@));
            assert(account_updated(mid, *self, address@, account));
        }
        Ok(())
    }

    /// Applies a transfer: checks the sender's and recipient's accounts, the
    /// nonce and the balance, then writes the sender's account (nonce one
    /// up, value taken off) and the recipient's (value added). A failed
    /// transfer changes nothing.
    pub fn apply_transaction(&mut self, transaction: &Transaction) -> (res: Result<
        Receipt,
        ExecutionError,
    >)
        requires
            old(self).wf(),
        ensures
            final(self).wf(),
            match res {
                Err(e) => *final(self) == *old(self) && transfer_error(*old(self), *transaction)
                    == Some(e),
                Ok(r) => transfer_error(*old(self), *transaction) is None && r == transfer_receipt()
                    && transfer_applied(*old(self), *transaction, *final(self)),
            },
    {
        let ghost s0 = *self;
        let mut sender = match self.get_account(transaction.from) {
            Some(a) => a,
            None => return Err(ExecutionError::MissingSender(transaction.from)),
        };
        let mut recipient = match self.get_account(transaction.to) {
            Some(a) => a,
            None => return Err(ExecutionError::MissingRecipient(transaction.to)),
        };
        if sender.nonce != transaction.nonce {
            return Err(
                ExecutionError::InvalidNonce {
                    address: transaction.from,
                    expected: sender.nonce,
                    actual: transaction.nonce,
                },
            );
        }
        if sender.balance < transaction.value {
            return Err(
                ExecutionError::InsufficientBalance {
                    address: transaction.from,
                    balance: sender.balance,
                    required: transaction.value,
                },
            );
        }
        sender.nonce = match sender.nonce.checked_add(1) {
            Some(n) => n,
            None => {
                return Err(
                    ExecutionError::NonceOverflow { address: transaction.from, nonce: sender.nonce },
                );
            },
        };
        proof {
            s0.account_trie().inner().lemma_wf_can_insert(spec_keccak256(transaction.from@));
        }
        if address_eq(&transaction.from, &transaction.to) {
            self.update_account(transaction.from, sender);
            proof {
                assert(sender == sender_after(s0, *transaction));
            }
            return Ok(Receipt::success(SIMPLE_TRANSFER_GAS_USED));
        }
        recipient.balance = match recipient.balance.checked_add(transaction.value) {
            Some(b) => b,
            None => {
                return Err(
                    ExecutionError::BalanceOverflow {
                        address: transaction.to,
                        balance: recipient.balance,
                        amount: transaction.value,
                    },
                );
            },
        };
        sender.balance = sender.balance - transaction.value;
        self.update_account(transaction.from, sender);
        let ghost mid = *self;
        proof {
            assert(sender == sender_after(s0, *transaction));
            assert(recipient == recipient_after(s0, *transaction));
            mid.account_trie().inner().lemma_wf_can_insert(spec_keccak256(transaction.to@));
        }
        self.update_account(transaction.to, recipient);
        proof {
            assert(account_updated(s0, mid, transaction.from@, sender_after(s0, *transaction)));
        }
        Ok(Receipt::success(SIMPLE_TRANSFER_GAS_USED))
    }

    /// Applies transfers in order to a copy of the state; if all succeed the
    /// copy becomes the state and the result holds the new state root, the
    /// receipts and the two trie roots; if one fails the state is left as it
    /// was and the error names the failing transfer's index.
    #[verifier::rlimit(30)]
    pub fn apply_transactions(&mut self, transactions: &[Transaction]) -> (res: Result<
        ExecutionResult,
        ExecutionError,
    >)
        requires
            old(self).wf(),
        ensures
            final(self).wf(),
            match res {
                Ok(result) => {
                    &&& exists|states: Seq<State>|
                        #[trigger] transfers_applied(states, transactions@) && same_state(
                            states[0],
                            *old(self),
                        ) && states.last() == *final(self)
                    &&& result.post_state_root@ == final(self).account_trie().inner().spec_root_hash()
                    &&& result.receipts@ == Seq::new(transactions@.len(), |i: int| transfer_receipt())
                    &&& is_index_trie_root(
                        result.transactions_root@,
                        transaction_encodings(transactions@),
                    )
                    &&& is_index_trie_root(result.receipts_root@, receipt_encodings(result.receipts@))
                },
                Err(ExecutionError::TransactionFailed { index, error }) => {
                    &&& *final(self) == *old(self)
                    &&& index < transactions@.len()
                    &&& exists|states: Seq<State>|
                        #[trigger] transfers_applied(states, transactions@.take(index as int))
                            && same_state(states[0], *old(self)) && transfer_error(
                            states.last(),
                            transactions@[index as int],
                        ) == Some(*error)
                },
                Err(_) => false,
            },
    {
        let mut working = self.duplicate();
        proof {
            lemma_same_state(working, *self);
        }
        let ghost mut states: Seq<State> = seq![working];
        let mut receipts: Vec<Receipt> = Vec::new();
        let mut index: usize = 0;
        while index < transactions.len()
            invariant
                index <= transactions@.len(),
                working.wf(),
                self.wf(),
                same_state(states[0], *self),
                states.last() == working,
                transfers_applied(states, transactions@.take(index as int)),
                receipts@ == Seq::new(index as nat, |i: int| transfer_receipt()),
            decreases transactions@.len() - index,
        {
            let ghost before = working;
            match working.apply_transaction(&transactions[index]) {
                Ok(receipt) => {
                    receipts.push(receipt);
                    proof {
                        let prev = states;
                        states = states.push(working);
                        let txs = transactions@.take(index + 1);
                        assert(txs.take(index as int) =~= transactions@.take(index as int));
                        assert forall|i: int| 0 <= i < txs.len() implies #[trigger] transfer_step(
                            states,
                            txs,
                            i,
                        ) by {
                            if i < index {
                                let old_txs = transactions@.take(index as int);
                                assert(transfer_step(prev, old_txs, i));
                                assert(states[i] == prev[i]);
                                assert(states[i + 1] == prev[i + 1]);
                                assert(txs[i] == old_txs[i]);
                            } else {
                                assert(prev.last() == before);
                                assert(states[i] == prev[i]);
                                assert(states[i] == before);
                                assert(states[i + 1] == working);
                                assert(txs[i] == transactions@[index as int]);
                            }
                        }
                        assert(prev.len() == index + 1);
                        assert(txs.len() == index + 1);
                        assert(states.len() == txs.len() + 1);
                        assert(transfers_applied(states, txs));
                        assert(receipts@ =~= Seq::new((index + 1) as nat, |i: int| transfer_receipt()));
                    }
                },
                Err(e) => {
                    proof {
                        assert(transfers_applied(states, transactions@.take(index as int)));
                        assert(states.last() == before);
                        assert(transfer_error(states.last(), transactions@[index as int]) == Some(e));
                        assert(same_state(states[0], *old(self)));
                    }
                    let failure = ExecutionError::TransactionFailed { index, error: Box::new(e) };
                    proof {
                        assert(failure matches ExecutionError::TransactionFailed { index: i, error: b } && i
                            == index && *b == e);
                        assert(states.len() == index + 1);
                    }
                    return Err(failure);
                },
            }
            index = index + 1;
        }
        proof {
            assert(transactions@.take(index as int) =~= transactions@);
            lemma_transfer_receipt_len();
        }
        let root = working.root_hash();
        let result = ExecutionResult::new(root, transactions, receipts);
        *self = working;
        Ok(result)
    }
}

/// Writing to a slot the value it already holds keeps the state root, where
/// the account of `address` commits to the storage trie held for it and the
/// account trie holds that account's encoding.
pub proof fn lemma_same_slot_value_keeps_root(
    a: State,
    b: State,
    address: Seq<u8>,
    slot_key: Seq<u8>,
    value: Seq<u8>,
    t: StorageTrie,
    account: Account,
)
    requires
        a.wf(),
        storage_slot_set(a, b, address, slot_key, value),
        a.storage_of(address) == Some(t),
        t.inner()@.contains_key(spec_keccak256(slot_key)),
        t.inner()@[spec_keccak256(slot_key)] == rlp_bytes(value),
        a.account_at(address) == Some(account),
        a.account_trie().inner()@.contains_key(spec_keccak256(address)),
        a.account_trie().inner()@[spec_keccak256(address)] == spec_account_encoding(account),
        account.storage_root@ == t.inner().spec_root_hash(),
    ensures
        b.account_trie().inner().spec_root_hash() == a.account_trie().inner().spec_root_hash(),
{
    let (t0, t1, mid, written) = choose|t0: StorageTrie, t1: StorageTrie, mid: State, written: Account|
        #![trigger slot_written(t0, t1, slot_key, value), account_updated(mid, b, address, written)]
        {
            &&& (a.storage_of(address) matches Some(t) ==> t0 == t)
            &&& (a.storage_of(address) is None ==> fresh_storage(t0))
            &&& slot_written(t0, t1, slot_key, value)
            &&& mid.account_trie() == a.account_trie()
            &&& mid.storage_inv()
            &&& mid.storage_of(address) == Some(t1)
            &&& (forall|other: Seq<u8>|
                other != address ==> #[trigger] mid.storage_of(other) == a.storage_of(other))
            &&& a.account_at(address) matches Some(old_account)
            &&& written.nonce == old_account.nonce
            &&& written.balance == old_account.balance
            &&& written.code_hash == old_account.code_hash
            &&& written.storage_root@ == t1.inner().spec_root_hash()
            &&& account_updated(mid, b, address, written)
        };
    assert(t0 == t);
    assert(t.inner().wf());
    assert(t1.inner().root_ref() == t.inner().root_ref());
    assert(written.storage_root@ == account.storage_root@);
    assert(account_fields(written) =~= account_fields(account));
}

/// Writing to a slot a value it does not hold changes the account's storage
/// root and the state root, where the account of `address` commits to the
/// nonempty storage trie held for it and no two encodings written to the
/// storage trie's store, or to the account trie's, share a hash.
pub proof fn lemma_new_slot_value_changes_root(
    a: State,
    b: State,
    address: Seq<u8>,
    slot_key: Seq<u8>,
    value: Seq<u8>,
    t: StorageTrie,
    account: Account,
)
    requires
        a.wf(),
        storage_slot_set(a, b, address, slot_key, value),
        value.len() < max_value_len(),
        a.storage_of(address) == Some(t),
        t.inner().root_ref() is Some,
        !(t.inner()@.contains_key(spec_keccak256(slot_key)) && t.inner()@[spec_keccak256(slot_key)]
            == rlp_bytes(value)),
        a.account_at(address) == Some(account),
        account.storage_root@ == t.inner().spec_root_hash(),
        b.storage_of(address) matches Some(t1) && t1.inner().store().collision_free(),
        b.account_trie().inner().store().collision_free(),
    ensures
        b.account_at(address) matches Some(written) && written.storage_root != account.storage_root,
        b.account_trie().inner().root_ref() != a.account_trie().inner().root_ref(),
{
    let (t0, t1, mid, written) = choose|t0: StorageTrie, t1: StorageTrie, mid: State, written: Account|
        #![trigger slot_written(t0, t1, slot_key, value), account_updated(mid, b, address, written)]
        {
            &&& (a.storage_of(address) matches Some(t) ==> t0 == t)
            &&& (a.storage_of(address) is None ==> fresh_storage(t0))
            &&& slot_written(t0, t1, slot_key, value)
            &&& mid.account_trie() == a.account_trie()
            &&& mid.storage_inv()
            &&& mid.storage_of(address) == Some(t1)
            &&& (forall|other: Seq<u8>|
                other != address ==> #[trigger] mid.storage_of(other) == a.storage_of(other))
            &&& a.account_at(address) matches Some(old_account)
            &&& written.nonce == old_account.nonce
            &&& written.balance == old_account.balance
            &&& written.code_hash == old_account.code_hash
            &&& written.storage_root@ == t1.inner().spec_root_hash()
            &&& account_updated(mid, b, address, written)
        };
    assert(t0 == t);
    assert(t.inner().wf());
    assert(b.storage_of(address) == synced(Some(t1), written));
    assert(t1.inner().root_ref() != t.inner().root_ref());
    assert(written.storage_root@ != account.storage_root@);
    let key = spec_keccak256(address);
    let trie = a.account_trie().inner();
    if trie@.contains_key(key) && trie@[key] == spec_account_encoding(written) {
        assert(decoded_account(trie@[key]) == Some(account));
        assert(decoded_account(spec_account_encoding(written)) == Some(written));
    }
    assert(b.account_at(address) == Some(written));
}

/// A successful transfer between two addresses with distinct hashes leaves
/// the sender's nonce one up and the value moved from the sender's balance
/// to the recipient's (their sum unchanged), and every other account as it
/// was; a transfer to oneself only raises the nonce. This holds where no two
/// encodings written to the account store share a hash.
pub proof fn lemma_transfer_effect(s0: State, tx: Transaction, s1: State)
    requires
        s0.wf(),
        transfer_error(s0, tx) is None,
        transfer_applied(s0, tx, s1),
        s1.account_trie().inner().store().collision_free(),
        tx.from@ != tx.to@ ==> spec_keccak256(tx.from@) != spec_keccak256(tx.to@),
    ensures
        s1.account_at(tx.from@) == Some(sender_after(s0, tx)),
        sender_after(s0, tx).nonce == s0.account_at(tx.from@)->Some_0.nonce + 1,
        tx.from@ == tx.to@ ==> sender_after(s0, tx).balance == s0.account_at(tx.from@)->Some_0.balance,
        tx.from@ != tx.to@ ==> {
            &&& s1.account_at(tx.to@) == Some(recipient_after(s0, tx))
            &&& sender_after(s0, tx).balance + recipient_after(s0, tx).balance == s0.account_at(
                tx.from@,
            )->Some_0.balance + s0.account_at(tx.to@)->Some_0.balance
        },
        forall|other: Seq<u8>|
            spec_keccak256(other) != spec_keccak256(tx.from@) && spec_keccak256(other)
                != spec_keccak256(tx.to@) ==> #[trigger] s1.account_at(other) == s0.account_at(other),
{
    if tx.from@ != tx.to@ {
        let mid = choose|mid: State|
            #[trigger] account_updated(s0, mid, tx.from@, sender_after(s0, tx)) && account_updated(
                mid,
                s1,
                tx.to@,
                recipient_after(s0, tx),
            );
        assert(mid.account_trie().inner().store().collision_free());
        assert(mid.account_at(tx.from@) == Some(sender_after(s0, tx)));
        assert(s1.account_at(tx.from@) == mid.account_at(tx.from@));
    }
}

/// A transfer between two addresses changes, of the recipient's account,
/// only the balance (raised by the value), and of the sender's account only
/// the nonce (one up) and the balance (lowered by the value); both keep
/// their storage roots and code hashes. This holds where no two encodings
/// written to the account store share a hash.
pub proof fn lemma_transfer_changes_only_balances(s0: State, tx: Transaction, s1: State)
    requires
        s0.wf(),
        transfer_error(s0, tx) is None,
        transfer_applied(s0, tx, s1),
        s1.account_trie().inner().store().collision_free(),
        tx.from@ != tx.to@,
        spec_keccak256(tx.from@) != spec_keccak256(tx.to@),
    ensures
        s0.account_at(tx.from@) matches Some(a0) && s1.account_at(tx.from@) matches Some(a1) && {
            &&& a1.nonce == a0.nonce + 1
            &&& a1.balance == a0.balance - tx.value
            &&& a1.storage_root == a0.storage_root
            &&& a1.code_hash == a0.code_hash
        },
        s0.account_at(tx.to@) matches Some(r0) && s1.account_at(tx.to@) matches Some(r1) && {
            &&& r1.nonce == r0.nonce
            &&& r1.balance == r0.balance + tx.value
            &&& r1.storage_root == r0.storage_root
            &&& r1.code_hash == r0.code_hash
        },
{
    lemma_transfer_effect(s0, tx, s1);
}

/// A transfer of any value up to the sender's balance succeeds, where the
/// sender and the recipient have accounts, the nonce is the sender's, the
/// sender's nonce can go up, and (between two addresses) the recipient's
/// balance can take the value; a transfer is refused for its balance only
/// when the sender holds less than the value.
pub proof fn lemma_transfer_succeeds(s: State, tx: Transaction)
    ensures
        (s.account_at(tx.from@) matches Some(sender) && s.account_at(tx.to@) matches Some(
            recipient,
        ) && sender.nonce == tx.nonce && tx.value <= sender.balance && sender.nonce < u64::MAX && (
        tx.from@ != tx.to@ ==> recipient.balance + tx.value <= u64::MAX)) ==> transfer_error(s, tx)
            is None,
        transfer_error(s, tx) matches Some(ExecutionError::InsufficientBalance { address, balance, required })
            ==> s.account_at(tx.from@) matches Some(sender) && address == tx.from && balance
            == sender.balance && required == tx.value && balance < required,
{
}

/// After an account is written, a storage trie held for its address has
/// the written storage root as its root hash: a held trie whose root is
/// another is no longer held, and one whose root is that storage root stays.
pub proof fn lemma_account_write_syncs_storage(a: State, b: State, address: Seq<u8>, account: Account)
    requires
        account_updated(a, b, address, account),
    ensures
        b.storage_of(address) matches Some(t) ==> t.inner().spec_root_hash() == account.storage_root@
            && a.storage_of(address) == Some(t),
        a.storage_of(address) matches Some(t) ==> (t.inner().spec_root_hash()
            != account.storage_root@ ==> b.storage_of(address) is None),
        a.storage_of(address) matches Some(t) ==> (t.inner().spec_root_hash()
            == account.storage_root@ ==> b.storage_of(address) == Some(t)),
{
}

/// A storage write is refused as `AccountNotFound` exactly when the state
/// holds no account for the address, and goes ahead for every account
/// whose storage trie is held or whose storage root is the empty one (32
/// zero bytes), whatever its nonce and balance.
pub proof fn lemma_storage_write_refusals(s: State, address: Address)
    ensures
        (storage_write_error(s, address) == Some(StateError::AccountNotFound(address))) <==> s.account_at(
            address@,
        ) is None,
        (storage_write_error(s, address) is None) <==> (s.account_at(address@) matches Some(account)
            && (s.storage_of(address@) is Some || account.storage_root@ == Seq::new(
            32,
            |i: int| 0u8,
        ))),
        storage_write_error(s, address) == Some(StateError::StorageTrieUnavailable(address)) ==> s.account_at(
            address@,
        ) is Some && s.storage_of(address@) is None,
{
}

impl Default for State {
    /// The same as `State::new()`.
    fn default() -> (d: Self)
        ensures
            d.wf(),
            d.account_trie().inner()@ == Map::<Seq<u8>, Seq<u8>>::empty(),
            d.account_trie().inner().store().collision_free(),
            d.account_trie().inner().root_ref() is None,
            forall|a: Seq<u8>| #[trigger] d.storage_of(a) is None,
    {
        State::new()
    }
}

} // verus!
