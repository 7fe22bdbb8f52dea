//! Accounts, their RLP encoding, and the account trie keyed by the
//! Keccak-256 hash of an address.
use rlp::DecoderError;
use vstd::prelude::*;

use crate::codec::{
    be_bytes, concat, lemma_concat_len, lemma_rlp_bytes_len, reads_back_strings, rlp_list,
    rlp_string_at, rlp_strings, rlp_u64_at, size_limit, stream_append_bytes, stream_append_u64,
    stream_items, stream_new_list, stream_out, string_at, u64_at,
};
use crate::crypto::{keccak256, spec_keccak256};
use crate::mpt::NodeRef;
use crate::mpt_trie::{
    bytes_list_view, nodes_agree, spec_verify_mpt_proof, verify_mpt_proof, MptTrie,
    ProofNodes,
};
use crate::node_db::MptNodeDb;
use crate::trie_facts::max_value_len;
use crate::types::Address;

verus! {

/// An account: its nonce, its balance, the root of its storage trie and the
/// hash of its code.
#[derive(Debug, Clone, PartialEq, Eq)]
pub struct Account {
    pub nonce: u64,
    pub balance: u64,
    pub storage_root: crate::types::Hash,
    pub code_hash: crate::types::Hash,
}

/// Why bytes do not decode as an account.
#[derive(Debug, Clone, PartialEq, Eq)]
pub enum AccountDecodeError {
    /// A field is missing or is not of its kind.
    InvalidRlp(DecoderError),
    /// The storage root is not 32 bytes long; the length found.
    InvalidStorageRootLength(usize),
    /// The code hash is not 32 bytes long; the length found.
    InvalidCodeHashLength(usize),
}

/// The byte strings that an account's encoding lists: nonce and balance as
/// minimal big-endian numbers, then the two hashes.
pub open spec fn account_fields(a: Account) -> Seq<Seq<u8>> {
    seq![be_bytes(a.nonce as nat), be_bytes(a.balance as nat), a.storage_root@, a.code_hash@]
}

/// An account's RLP encoding.
pub open spec fn spec_account_encoding(a: Account) -> Seq<u8> {
    rlp_list(rlp_strings(account_fields(a)))
}

/// The decoder reads the account `a` from `b`.
pub open spec fn decodes_to(b: Seq<u8>, a: Account) -> bool {
    &&& rlp_u64_at(b, 0) == Ok::<u64, DecoderError>(a.nonce)
    &&& rlp_u64_at(b, 1) == Ok::<u64, DecoderError>(a.balance)
    &&& rlp_string_at(b, 2) == Ok::<Seq<u8>, DecoderError>(a.storage_root@)
    &&& rlp_string_at(b, 3) == Ok::<Seq<u8>, DecoderError>(a.code_hash@)
}

/// The first error that decoding `b` as an account meets, if any: the
/// nonce, the balance, the storage root and the code hash are read in that
/// order, then the two hash lengths are checked.
pub open spec fn account_decode_error(b: Seq<u8>) -> Option<AccountDecodeError> {
    match rlp_u64_at(b, 0) {
        Err(e) => Some(AccountDecodeError::InvalidRlp(e)),
        Ok(_) => match rlp_u64_at(b, 1) {
            Err(e) => Some(AccountDecodeError::InvalidRlp(e)),
            Ok(_) => match rlp_string_at(b, 2) {
                Err(e) => Some(AccountDecodeError::InvalidRlp(e)),
                Ok(storage_root) => match rlp_string_at(b, 3) {
                    Err(e) => Some(AccountDecodeError::InvalidRlp(e)),
                    Ok(code_hash) => if storage_root.len() != 32 {
                        Some(AccountDecodeError::InvalidStorageRootLength(storage_root.len() as usize))
                    } else if code_hash.len() != 32 {
                        Some(AccountDecodeError::InvalidCodeHashLength(code_hash.len() as usize))
                    } else {
                        None
                    },
                },
            },
        },
    }
}

/// The account that `b` decodes to, if it decodes.
pub open spec fn decoded_account(b: Seq<u8>) -> Option<Account> {
    if account_decode_error(b) is None && exists|a: Account| decodes_to(b, a) {
        Some(choose|a: Account| decodes_to(b, a))
    } else {
        None
    }
}

/// Bytes decode to at most one account.
pub proof fn lemma_decodes_to_unique(b: Seq<u8>, a: Account, c: Account)
    requires
        decodes_to(b, a),
        decodes_to(b, c),
    ensures
        a == c,
{
    assert(a.storage_root =~= c.storage_root);
    assert(a.code_hash =~= c.code_hash);
}

/// Bytes that decode to `a` without error are `a`'s.
pub proof fn lemma_decoded_account(b: Seq<u8>, a: Account)
    requires
        account_decode_error(b) is None,
        decodes_to(b, a),
    ensures
        decoded_account(b) == Some(a),
{
    let c = choose|c: Account| decodes_to(b, c);
    lemma_decodes_to_unique(b, a, c);
}

/// An account's encoding is short.
proof fn lemma_account_encoding_len(a: Account)
    ensures
        concat(rlp_strings(account_fields(a))).len() < 200,
        spec_account_encoding(a).len() < max_value_len(),
{
    let fields = account_fields(a);
    let items = rlp_strings(fields);
    crate::codec::lemma_be_bytes_len_u64(a.nonce);
    crate::codec::lemma_be_bytes_len_u64(a.balance);
    assert forall|i: int| 0 <= i < items.len() implies (#[trigger] items[i]).len() <= 37 by {
        lemma_rlp_bytes_len(fields[i]);
    }
    lemma_concat_len(items, 37);
    let c = concat(items);
    if c.len() > 55 {
        crate::codec::lemma_be_bytes_len(c.len());
        assert(c.len() % size_limit() == c.len());
    }
}

impl Account {
    /// An externally owned account: empty storage and no code.
    pub fn new_eoa(nonce: u64, balance: u64) -> (account: Self)
        ensures
            account.nonce == nonce,
            account.balance == balance,
            account.storage_root@ == Seq::new(32, |i: int| 0u8),
            account.code_hash@ == Seq::new(32, |i: int| 0u8),
    {
        let account = Account { nonce, balance, storage_root: [0u8; 32], code_hash: [0u8; 32] };
        assert(account.storage_root@ =~= Seq::new(32, |i: int| 0u8));
        assert(account.code_hash@ =~= Seq::new(32, |i: int| 0u8));
        account
    }

    /// An account with the given fields.
    pub fn new_contract(
        nonce: u64,
        balance: u64,
        storage_root: crate::types::Hash,
        code_hash: crate::types::Hash,
    ) -> (account: Self)
        ensures
            account == (Account { nonce, balance, storage_root, code_hash }),
    {
        Account { nonce, balance, storage_root, code_hash }
    }

    /// The storage root of an account whose storage is empty: 32 zero bytes.
    pub fn empty_storage_root() -> (root: crate::types::Hash)
        ensures
            root@ == Seq::new(32, |i: int| 0u8),
    {
        let root = [0u8; 32];
        assert(root@ =~= Seq::new(32, |i: int| 0u8));
        root
    }

    /// RLP-encodes the account as the list of its nonce, balance, storage
    /// root and code hash; decoding the result gives the account back.
    pub fn encode(&self) -> (encoded: Vec<u8>)
        ensures
            encoded@ == spec_account_encoding(*self),
            account_decode_error(encoded@) is None,
            decodes_to(encoded@, *self),
            decoded_account(encoded@) == Some(*self),
            0 < encoded@.len() < max_value_len(),
    {
        let ghost fields = account_fields(*self);
        let mut stream = stream_new_list(4);
        stream_append_u64(&mut stream, self.nonce);
        stream_append_u64(&mut stream, self.balance);
        stream_append_bytes(&mut stream, self.storage_root.as_slice());
        stream_append_bytes(&mut stream, self.code_hash.as_slice());
        assert(stream_items(stream) =~= rlp_strings(fields));
        let encoded = stream_out(stream);
        proof {
            lemma_account_encoding_len(*self);
            assert(reads_back_strings(encoded@, fields));
            assert(rlp_string_at(encoded@, 2) == Ok::<Seq<u8>, DecoderError>(fields[2]));
            assert(rlp_string_at(encoded@, 3) == Ok::<Seq<u8>, DecoderError>(fields[3]));
            assert(rlp_u64_at(encoded@, 0) == Ok::<u64, DecoderError>(self.nonce));
            assert(rlp_u64_at(encoded@, 1) == Ok::<u64, DecoderError>(self.balance));
            lemma_decoded_account(encoded@, *self);
        }
        encoded
    }

    /// Decodes an account: reads the nonce, balance, storage root and code
    /// hash, and checks that both hashes are 32 bytes long.
    pub fn try_decode(bytes: &[u8]) -> (res: Result<Self, AccountDecodeError>)
        ensures
            match res {
                Ok(a) => account_decode_error(bytes@) is None && decodes_to(bytes@, a)
                    && decoded_account(bytes@) == Some(a),
                Err(e) => account_decode_error(bytes@) == Some(e),
            },
    {
        let nonce = match u64_at(bytes, 0) {
            Ok(v) => v,
            Err(e) => return Err(AccountDecodeError::InvalidRlp(e)),
        };
        let balance = match u64_at(bytes, 1) {
            Ok(v) => v,
            Err(e) => return Err(AccountDecodeError::InvalidRlp(e)),
        };
        let storage_root_vec = match string_at(bytes, 2) {
            Ok(v) => v,
            Err(e) => return Err(AccountDecodeError::InvalidRlp(e)),
        };
        let code_hash_vec = match string_at(bytes, 3) {
            Ok(v) => v,
            Err(e) => return Err(AccountDecodeError::InvalidRlp(e)),
        };
        if storage_root_vec.len() != 32 {
            return Err(AccountDecodeError::InvalidStorageRootLength(storage_root_vec.len()));
        }
        if code_hash_vec.len() != 32 {
            return Err(AccountDecodeError::InvalidCodeHashLength(code_hash_vec.len()));
        }
        let storage_root = crate::mpt::hash_from_slice(storage_root_vec.as_slice());
        let code_hash = crate::mpt::hash_from_slice(code_hash_vec.as_slice());
        let account = Account { nonce, balance, storage_root, code_hash };
        proof {
            lemma_decoded_account(bytes@, account);
        }
        Ok(account)
    }
}

/// `b` is the account trie `a` after `account` was written for `address`:
/// the store keeps its invariant and what `a` wrote, a well-kept trie stays
/// well kept, rewriting the encoding already stored keeps the root, and where
/// no two encodings written to the store share a hash, any other write moves
/// the root, `address` holds `account` and every address with another hash
/// keeps its account.
pub open spec fn account_inserted(
    a: AccountTrie,
    b: AccountTrie,
    address: Seq<u8>,
    account: Account,
) -> bool {
    &&& b.inner().store().inv()
    &&& b.inner().root_ref() is Some
    &&& decoded_account(spec_account_encoding(account)) == Some(account)
    &&& a.inner().store().written_within(b.inner().store())
    &&& (b.inner().store().collision_free() ==> a.inner().store().collision_free())
    &&& (a.inner().wf() ==> b.inner().wf())
    &&& (a.inner().canonical() && b.inner().store().collision_free() ==> b.inner().canonical())
    &&& (a.inner().wf() && a.inner()@.contains_key(spec_keccak256(address)) && a.inner()@[spec_keccak256(
        address,
    )] == spec_account_encoding(account) ==> b.inner().root_ref() == a.inner().root_ref())
    &&& (a.inner().wf() && b.inner().store().collision_free() && !(a.inner()@.contains_key(
        spec_keccak256(address),
    ) && a.inner()@[spec_keccak256(address)] == spec_account_encoding(account))
        ==> b.inner().root_ref() != a.inner().root_ref())
    &&& (a.inner().wf() && b.inner().store().collision_free() ==> {
        &&& b.inner()@ == a.inner()@.insert(spec_keccak256(address), spec_account_encoding(account))
        &&& b.account_at(address) == Some(account)
        &&& forall|other: Seq<u8>|
            spec_keccak256(other) != spec_keccak256(address) ==> #[trigger] b.account_at(other)
                == a.account_at(other)
    })
}

/// The trie of accounts: each account's encoding under the Keccak-256 hash
/// of its address.
#[derive(Clone)]
pub struct AccountTrie {
    trie: MptTrie,
}

impl AccountTrie {
    /// The underlying trie.
    pub closed spec fn inner(self) -> MptTrie {
        self.trie
    }

    /// The account stored for `address`, if its encoding is present and decodes.
    pub open spec fn account_at(self, address: Seq<u8>) -> Option<Account> {
        let key = spec_keccak256(address);
        if self.inner()@.contains_key(key) {
            decoded_account(self.inner()@[key])
        } else {
            None
        }
    }

    /// An account proof that verifies against the root of a well-kept,
    /// nonempty account trie, and whose nodes agree with the trie's store
    /// wherever their hashes are stored, proves the encoding that the trie
    /// holds for the address.
    pub proof fn lemma_account_proof_sound(
        self,
        address: Seq<u8>,
        account: Account,
        nodes: Seq<Seq<u8>>,
    )
        requires
            self.inner().wf(),
            self.inner().root_ref() is Some,
            spec_verify_mpt_proof(
                self.inner().spec_root_hash(),
                spec_keccak256(address),
                spec_account_encoding(account),
                nodes,
            ),
            nodes_agree(self.inner().store()@, nodes),
        ensures
            self.inner()@.contains_key(spec_keccak256(address)),
            self.inner()@[spec_keccak256(address)] == spec_account_encoding(account),
    {
        self.inner().lemma_verify_then_holds(
            spec_keccak256(address),
            spec_account_encoding(account),
            nodes,
        );
    }

    /// Where the trie holds the encoding of `account` for `address` (as
    /// `insert_account` writes it), the account has a proof, and the proof
    /// verifies `account` for `address` against the root hash.
    pub proof fn lemma_account_proof_verifies(self, address: Seq<u8>, account: Account)
        requires
            self.inner().store().inv(),
            self.inner()@.contains_key(spec_keccak256(address)),
            self.inner()@[spec_keccak256(address)] == spec_account_encoding(account),
        ensures
            self.inner().proof_of(spec_keccak256(address)) is Some,
            spec_verify_mpt_proof(
                self.inner().spec_root_hash(),
                spec_keccak256(address),
                spec_account_encoding(account),
                self.inner().proof_of(spec_keccak256(address))->Some_0,
            ),
    {
        self.inner().lemma_value_has_proof(spec_keccak256(address));
    }

    /// An empty account trie.
    pub fn new() -> (trie: Self)
        ensures
            trie.inner()@ == Map::<Seq<u8>, Seq<u8>>::empty(),
            trie.inner().wf(),
            trie.inner().canonical(),
            trie.inner().store().collision_free(),
            trie.inner().root_ref() is None,
    {
        AccountTrie { trie: MptTrie::new() }
    }

    /// An account trie over an existing store, rooted at `root`.
    pub fn from_root(db: MptNodeDb, root: NodeRef) -> (trie: Self)
        ensures
            trie.inner().store() == db,
            trie.inner().root_ref() == Some(root@),
    {
        AccountTrie { trie: MptTrie::from_root(db, root) }
    }

    /// A copy of the account trie.
    pub fn duplicate(&self) -> (d: Self)
        ensures
            MptTrie::same_trie(d.inner(), self.inner()),
    {
        AccountTrie { trie: self.trie.duplicate() }
    }

    /// The store and the root hash, taken apart.
    pub fn into_parts(self) -> (parts: (MptNodeDb, Option<NodeRef>))
        ensures
            parts.0 == self.inner().store(),
            self.inner().root_ref() == (match parts.1 {
                Some(r) => Some(r@),
                None => None,
            }),
    {
        self.trie.into_parts()
    }

    /// The root hash of the account trie (32 zero bytes when empty).
    pub fn root_hash(&self) -> (hash: NodeRef)
        ensures
            hash@ == self.inner().spec_root_hash(),
    {
        self.trie.root_hash()
    }

    /// Stores the account's encoding under the hash of its address.
    ///
    /// On a well-kept trie the trie stays well kept; where no two encodings
    /// written to its store share a hash, the address then holds `account`
    /// and every address with another hash keeps its account.
    pub fn insert_account(&mut self, address: Address, account: Account)
        requires
            old(self).inner().can_insert(spec_keccak256(address@)),
        ensures
            account_inserted(*old(self), *final(self), address@, account),
    {
        let account_key = keccak256(address.as_slice());
        let encoded = account.encode();
        proof {
            assert(account_key@.len() == 32);
        }
        self.trie.insert(account_key.as_slice(), encoded);
    }

    /// Checks the trie (see `MptTrie::check_well_kept`), then inserts the
    /// account as `insert_account` does; nothing is inserted when the check
    /// fails, which it does not on a well-kept trie. Unverified callers
    /// that cannot show `insert_account`'s requirement use this.
    pub fn try_insert_account(&mut self, address: Address, account: Account) -> (inserted: bool)
        ensures
            old(self).inner().wf() ==> inserted,
            !inserted ==> final(self).inner()@ == old(self).inner()@ && final(self).inner().root_ref()
                == old(self).inner().root_ref(),
            inserted ==> exists|checked: AccountTrie|
                {
                    &&& checked.inner()@ == old(self).inner()@
                    &&& checked.inner().root_ref() == old(self).inner().root_ref()
                    &&& checked.inner().store()@ == old(self).inner().store()@
                    &&& checked.inner().wf()
                    &&& #[trigger] account_inserted(checked, *final(self), address@, account)
                },
    {
        if !self.trie.check_well_kept() {
            return false;
        }
        let ghost checked = *self;
        proof {
            self.inner().lemma_wf_can_insert(spec_keccak256(address@));
        }
        self.insert_account(address, account);
        proof {
            assert(account_inserted(checked, *self, address@, account));
        }
        true
    }

    /// The account stored for `address`, decoded; `None` when nothing is
    /// stored there or the bytes do not decode as an account.
    pub fn get_account(&self, address: Address) -> (account: Option<Account>)
        ensures
            account == self.account_at(address@),
    {
        let account_key = keccak256(address.as_slice());
        let encoded = match self.trie.get(account_key.as_slice()) {
            Some(e) => e,
            None => return None,
        };
        match Account::try_decode(encoded.as_slice()) {
            Ok(a) => Some(a),
            Err(_) => None,
        }
    }

    /// The inclusion proof for the account of `address`.
    pub fn prove_account(&self, address: Address) -> (nodes: Option<ProofNodes>)
        ensures
            match nodes {
                Some(p) => self.inner().proof_of(spec_keccak256(address@)) == Some(bytes_list_view(p@)),
                None => self.inner().proof_of(spec_keccak256(address@)) is None,
            },
    {
        let account_key = keccak256(address.as_slice());
        self.trie.prove(account_key.as_slice())
    }

    /// Checks an account proof: the account's encoding under the hash of
    /// `address`, against `root`.
    pub fn verify_account_proof(
        root: NodeRef,
        address: Address,
        account: &Account,
        nodes: &[Vec<u8>],
    ) -> (ok: bool)
        ensures
            ok == spec_verify_mpt_proof(
                root@,
                spec_keccak256(address@),
                spec_account_encoding(*account),
                bytes_list_view(nodes@),
            ),
    {
        let account_key = keccak256(address.as_slice());
        let encoded = account.encode();
        verify_mpt_proof(root, account_key.as_slice(), encoded.as_slice(), nodes)
    }
}

impl Default for AccountTrie {
    /// The same as `AccountTrie::new()`.
    fn default() -> (d: Self)
        ensures
            d.inner()@ == Map::<Seq<u8>, Seq<u8>>::empty(),
            d.inner().wf(),
            d.inner().store().collision_free(),
            d.inner().root_ref() is None,
    {
        AccountTrie::new()
    }
}

} // verus!
