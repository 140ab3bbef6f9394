//! What an upstream node claims of an account, and the head it is held against.

use vstd::prelude::*;
use crate::account::AccountFields;
use crate::bytes::be_nat;

verus! {

/// The head that the light client vouches for.
#[derive(Clone, Copy, Debug)]
pub struct ConsensusProof {
    /// The root of the state trie at that block.
    pub state_root: [u8; 32],
    /// The beacon slot of the block.
    pub slot: u64,
    /// The number of the block.
    pub block_number: u64,
}

/// What is claimed of one storage slot, with the nodes that are to prove it.
#[derive(Clone, Debug)]
pub struct StorageProofData {
    /// The slot.
    pub key: [u8; 32],
    /// The claimed value, 32 bytes big-endian.
    pub value: [u8; 32],
    /// Nodes of the storage trie, from its root down.
    pub proof: Vec<Vec<u8>>,
}

/// What is claimed of one account, with the nodes that are to prove it.
#[derive(Clone, Debug)]
pub struct ProofData {
    /// The account's address.
    pub address: [u8; 20],
    /// The claimed balance, 32 bytes big-endian.
    pub balance: [u8; 32],
    /// The claimed hash of the account's code.
    pub code_hash: [u8; 32],
    /// The claimed nonce.
    pub nonce: u64,
    /// The claimed root of the account's storage trie.
    pub storage_hash: [u8; 32],
    /// Nodes of the state trie, from its root down.
    pub account_proof: Vec<Vec<u8>>,
    /// The claims on storage slots.
    pub storage_proof: Vec<StorageProofData>,
}

impl ProofData {
    /// The account that the claim describes.
    pub open spec fn claimed(&self) -> AccountFields {
        AccountFields {
            nonce: self.nonce as nat,
            balance: be_nat(self.balance@),
            storage_root: self.storage_hash@,
            code_hash: self.code_hash@,
        }
    }
}

} // verus!
