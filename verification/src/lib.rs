//! Verification of Ethereum state proofs against an authenticated state root.
//!
//! A gateway that answers state reads from an upstream node it does not trust
//! asks that node for a Merkle proof with every answer. This library decides
//! whether the proof holds: it decodes the nodes (`rlp`, `hp`), walks the key
//! through them from the root (`trie`), decodes what it finds (`account`) and
//! holds it against what was claimed (`verify`). `model` says what a trie is
//! and proves that the walk finds in it what it holds. `rpc`, `config` and
//! `checkpoint` hold the decisions of the front end and of the start-up.

pub mod account;
pub mod bytes;
pub mod checkpoint;
pub mod config;
pub mod error;
pub mod hp;
pub mod keccak;
pub mod model;
pub mod rlp;
pub mod rpc;
pub mod trie;
pub mod types;
pub mod verify;
