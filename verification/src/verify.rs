//! Holding an upstream node's claims against an authenticated state root.
//!
//! A claim passes where the trie under the root holds exactly what is claimed,
//! fails where it holds something else, and is an error where the nodes that
//! came with it prove nothing.

use vstd::prelude::*;
use crate::account::{
    account_rlp,
    decode_account,
    decode_account_spec,
    decode_storage_value,
    lemma_account_encoding_is_unique,
    storage_value,
    AccountFields,
    AccountState,
};
use crate::bytes::{be_nat, bytes_eq, lemma_be_nat_all_zero, lemma_be_nat_injective, zeros};
use crate::config::Config;
use crate::error::ProofError;
use crate::keccak::{keccak256, keccak256_digest, EMPTY_CODE_HASH, EMPTY_ROOT_HASH};
use crate::rlp::views;
use crate::trie::{mpt_walk, verify_mpt_proof};
use crate::types::{ProofData, StorageProofData};

verus! {

/// The account that nothing was ever done to: the state trie has no entry for
/// it.
pub open spec fn empty_account() -> AccountFields {
    AccountFields {
        nonce: 0,
        balance: 0,
        storage_root: EMPTY_ROOT_HASH@,
        code_hash: EMPTY_CODE_HASH@,
    }
}

/// The verdict on a claimed account, given what the walk through the state
/// trie found under the account's key.
pub open spec fn account_verdict(found: Option<Seq<u8>>, claimed: AccountFields) -> Result<
    bool,
    ProofError,
> {
    match found {
        None => Ok(claimed == empty_account()),
        Some(value) => match decode_account_spec(value) {
            Err(e) => Err(ProofError::Decode(e)),
            Ok(account) => Ok(account == claimed),
        },
    }
}

/// The verdict on a claimed slot value, given what the walk through the
/// storage trie found under the slot's key.
pub open spec fn storage_verdict(found: Option<Seq<u8>>, claimed: nat) -> Result<bool, ProofError> {
    match found {
        None => Ok(claimed == 0),
        Some(value) => match storage_value(value) {
            Err(e) => Err(ProofError::Decode(e)),
            Ok(n) => Ok(n == claimed),
        },
    }
}

/// Whether the state trie under `state_root` holds the claimed account under
/// the digest of its address.
pub open spec fn verify_account_spec(state_root: Seq<u8>, proof: ProofData) -> Result<
    bool,
    ProofError,
> {
    match mpt_walk(state_root, keccak256_digest(proof.address@), views(proof.account_proof@)) {
        Err(e) => Err(e),
        Ok(found) => account_verdict(found, proof.claimed()),
    }
}

/// Whether the storage trie under `storage_root` holds the claimed value under
/// the digest of the slot. A claim without nodes passes only for the value
/// zero in the empty trie.
pub open spec fn verify_storage_spec(storage_root: Seq<u8>, slot: StorageProofData) -> Result<
    bool,
    ProofError,
> {
    if slot.proof@.len() == 0 {
        Ok(be_nat(slot.value@) == 0 && storage_root == EMPTY_ROOT_HASH@)
    } else {
        match mpt_walk(storage_root, keccak256_digest(slot.key@), views(slot.proof@)) {
            Err(e) => Err(e),
            Ok(found) => storage_verdict(found, be_nat(slot.value@)),
        }
    }
}

/// Whether the slots from `from` on all pass, taken in order: the first that
/// fails or proves nothing decides.
pub open spec fn verify_slots_spec(
    storage_root: Seq<u8>,
    slots: Seq<StorageProofData>,
    from: nat,
) -> Result<bool, ProofError>
    decreases slots.len() - from,
{
    if from >= slots.len() {
        Ok(true)
    } else {
        match verify_storage_spec(storage_root, slots[from as int]) {
            Err(e) => Err(e),
            Ok(false) => Ok(false),
            Ok(true) => verify_slots_spec(storage_root, slots, from + 1),
        }
    }
}

/// Whether the account passes and then every slot passes against the claimed
/// storage root.
pub open spec fn verify_complete_spec(state_root: Seq<u8>, proof: ProofData) -> Result<
    bool,
    ProofError,
> {
    match verify_account_spec(state_root, proof) {
        Err(e) => Err(e),
        Ok(false) => Ok(false),
        Ok(true) => verify_slots_spec(proof.storage_hash@, proof.storage_proof@, 0),
    }
}

/// Whether a word of 32 bytes denotes zero.
fn is_zero(word: &[u8; 32]) -> (r: bool)
    ensures
        r == (be_nat(word@) == 0),
{
    let zero = [0u8; 32];
    proof {
        assert(zero@ =~= zeros(32));
        lemma_be_nat_all_zero(32);
        if be_nat(word@) == 0 {
            lemma_be_nat_injective(word@, zero@);
        }
    }
    bytes_eq(word.as_slice(), zero.as_slice())
}

/// Whether two words of 32 bytes denote the same number.
fn same_number(a: &[u8; 32], b: &[u8; 32]) -> (r: bool)
    ensures
        r == (be_nat(a@) == be_nat(b@)),
{
    proof {
        if be_nat(a@) == be_nat(b@) {
            lemma_be_nat_injective(a@, b@);
        }
    }
    bytes_eq(a.as_slice(), b.as_slice())
}

/// Whether the claim describes `account`.
fn matches_claim(account: &AccountState, proof: &ProofData) -> (r: bool)
    ensures
        r == (account@ == proof.claimed()),
{
    account.nonce == proof.nonce && same_number(&account.balance, &proof.balance) && bytes_eq(
        account.storage_root.as_slice(),
        proof.storage_hash.as_slice(),
    ) && bytes_eq(account.code_hash.as_slice(), proof.code_hash.as_slice())
}

/// The model's view of what a walk found.
pub open spec fn found_view(found: Option<Vec<u8>>) -> Option<Seq<u8>> {
    match found {
        Some(value) => Some(value@),
        None => None,
    }
}

/// Judges a claimed account by what the walk through the state trie found.
///
/// Without an entry the claim passes if it describes the empty account. With
/// one, the entry has to decode, which is an error otherwise, and the claim
/// passes if all four fields are those of the entry.
pub fn check_account(found: &Option<Vec<u8>>, proof: &ProofData) -> (r: Result<bool, ProofError>)
    ensures
        r == account_verdict(found_view(*found), proof.claimed()),
{
    match found {
        None => {
            let empty = AccountState {
                nonce: 0,
                balance: [0u8; 32],
                storage_root: EMPTY_ROOT_HASH,
                code_hash: EMPTY_CODE_HASH,
            };
            proof {
                assert(empty.balance@ =~= zeros(32));
                lemma_be_nat_all_zero(32);
            }
            Ok(matches_claim(&empty, proof))
        },
        Some(value) => match decode_account(value.as_slice()) {
            Err(e) => Err(ProofError::Decode(e)),
            Ok(account) => Ok(matches_claim(&account, proof)),
        },
    }
}

/// Judges a claimed slot value by what the walk through the storage trie
/// found.
///
/// Without an entry the claim passes if the value is zero. With one, the
/// entry has to decode, which is an error otherwise, and the claim passes if
/// the value is that of the entry.
pub fn check_storage(found: &Option<Vec<u8>>, value: &[u8; 32]) -> (r: Result<bool, ProofError>)
    ensures
        r == storage_verdict(found_view(*found), be_nat(value@)),
{
    match found {
        None => Ok(is_zero(value)),
        Some(bytes) => match decode_storage_value(bytes.as_slice()) {
            Err(e) => Err(ProofError::Decode(e)),
            Ok(word) => Ok(same_number(&word, value)),
        },
    }
}

/// Checks claims against state roots.
pub struct ProofGenerator {
    config: Config,
}

impl ProofGenerator {
    /// The configuration that the checker was made with.
    pub closed spec fn config(&self) -> Config {
        self.config
    }

    /// A checker that keeps a copy of `config`.
    pub fn new(config: &Config) -> (generator: Self)
        ensures
            generator.config() == *config,
    {
        Self { config: config.clone() }
    }

    /// Verifies an account claim against a state root.
    ///
    /// `Ok(true)` where the state trie holds the account as claimed, or holds
    /// no entry and the claim is the empty account; `Ok(false)` where it holds
    /// something else; an error where the nodes prove nothing or the entry
    /// does not decode.
    pub fn verify_account_proof(&self, state_root: [u8; 32], proof: &ProofData) -> (r: Result<
        bool,
        ProofError,
    >)
        ensures
            r == verify_account_spec(state_root@, *proof),
    {
        let key = keccak256(proof.address.as_slice());
        let found = verify_mpt_proof(&state_root, &key, &proof.account_proof)?;
        check_account(&found, proof)
    }

    /// Verifies a storage claim against the root of a storage trie.
    ///
    /// A claim without nodes is `Ok(true)` only for the value zero under the
    /// empty root, and `Ok(false)` otherwise. With nodes it is `Ok(true)`
    /// where the trie holds the value as claimed, or no entry and the value
    /// is zero; `Ok(false)` where it holds another value; an error where the
    /// nodes prove nothing or the entry does not decode.
    pub fn verify_storage_proof(&self, storage_root: [u8; 32], proof: &StorageProofData) -> (r:
        Result<bool, ProofError>)
        ensures
            r == verify_storage_spec(storage_root@, *proof),
    {
        if proof.proof.len() == 0 {
            return Ok(
                is_zero(&proof.value) && bytes_eq(
                    storage_root.as_slice(),
                    EMPTY_ROOT_HASH.as_slice(),
                ),
            );
        }
        let key = keccak256(proof.key.as_slice());
        let found = verify_mpt_proof(&storage_root, &key, &proof.proof)?;
        check_storage(&found, &proof.value)
    }

    /// Verifies an account claim and then each of its storage claims against
    /// the claimed storage root. The first claim that fails or proves nothing
    /// decides.
    pub fn verify_complete_proof(&self, state_root: [u8; 32], proof: &ProofData) -> (r: Result<
        bool,
        ProofError,
    >)
        ensures
            r == verify_complete_spec(state_root@, *proof),
    {
        if !self.verify_account_proof(state_root, proof)? {
            return Ok(false);
        }
        let mut i: usize = 0;
        while i < proof.storage_proof.len()
            invariant
                i <= proof.storage_proof.len(),
                verify_complete_spec(state_root@, *proof) == verify_slots_spec(
                    proof.storage_hash@,
                    proof.storage_proof@,
                    i as nat,
                ),
            decreases proof.storage_proof.len() - i,
        {
            if !self.verify_storage_proof(proof.storage_hash, &proof.storage_proof[i])? {
                return Ok(false);
            }
            i += 1;
        }
        Ok(true)
    }
}

/// What a passed account claim rests on. Where the walk found an entry, the
/// entry is the encoding of the claimed account, byte for byte, and so has
/// its digest; where it found none, the claim is the empty account.
pub proof fn lemma_verified_account_is_the_entry(state_root: Seq<u8>, proof: ProofData)
    requires
        verify_account_spec(state_root, proof) == Ok::<bool, ProofError>(true),
    ensures
        match mpt_walk(
            state_root,
            keccak256_digest(proof.address@),
            views(proof.account_proof@),
        ) {
            Ok(Some(entry)) => entry == account_rlp(proof.claimed()) && keccak256_digest(entry)
                == keccak256_digest(account_rlp(proof.claimed())),
            Ok(None) => proof.claimed() == empty_account(),
            Err(_) => false,
        },
{
    let walked = mpt_walk(
        state_root,
        keccak256_digest(proof.address@),
        views(proof.account_proof@),
    );
    if let Ok(Some(entry)) = walked {
        lemma_account_encoding_is_unique(entry);
    }
}

/// A storage claim without nodes, held against the empty root, passes for the
/// value zero and fails for every other value.
pub proof fn lemma_storage_claim_without_nodes(slot: StorageProofData)
    requires
        slot.proof@.len() == 0,
    ensures
        verify_storage_spec(EMPTY_ROOT_HASH@, slot) == Ok::<bool, ProofError>(
            be_nat(slot.value@) == 0,
        ),
{
}

} // verus!
