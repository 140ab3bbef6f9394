use dvrpc_node::config::{
    Config, ConsensusConfig, EthereumConfig, LoggingConfig, Network, ProofConfig, ServerConfig,
};
use dvrpc_node::error::{DecodeError, ProofError};
use dvrpc_node::hp::{bytes_to_nibbles, encode_hp_path};
use dvrpc_node::keccak::{keccak256, EMPTY_CODE_HASH, EMPTY_ROOT_HASH};
use dvrpc_node::types::{ProofData, StorageProofData};
use dvrpc_node::verify::{check_account, check_storage, ProofGenerator};

fn config() -> Config {
    Config {
        server: ServerConfig { host: "127.0.0.1".to_string(), port: 8545, max_connections: 10 },
        ethereum: EthereumConfig {
            network: Network::Mainnet,
            execution_rpc: "http://localhost:8545".to_string(),
            consensus_rpc: "http://localhost:5052".to_string(),
            chain_id: 1,
        },
        consensus: ConsensusConfig {
            enabled: true,
            checkpoint: None,
            data_dir: "./data".to_string(),
        },
        proof: ProofConfig { enabled: true, cache_size: 16 },
        logging: LoggingConfig { level: "info".to_string(), format: "pretty".to_string() },
    }
}

fn word(n: u128) -> [u8; 32] {
    let mut out = [0u8; 32];
    out[16..].copy_from_slice(&n.to_be_bytes());
    out
}

fn rlp_string(payload: &[u8]) -> Vec<u8> {
    if payload.len() == 1 && payload[0] < 0x80 {
        return payload.to_vec();
    }
    assert!(payload.len() < 256);
    let mut out = if payload.len() <= 55 {
        vec![0x80 + payload.len() as u8]
    } else {
        vec![0xb8, payload.len() as u8]
    };
    out.extend_from_slice(payload);
    out
}

fn rlp_list(items: &[Vec<u8>]) -> Vec<u8> {
    let payload: Vec<u8> = items.iter().flatten().copied().collect();
    assert!(payload.len() < 256);
    let mut out = if payload.len() <= 55 {
        vec![0xc0 + payload.len() as u8]
    } else {
        vec![0xf8, payload.len() as u8]
    };
    out.extend_from_slice(&payload);
    out
}

fn rlp_uint(word: &[u8; 32]) -> Vec<u8> {
    let trimmed: Vec<u8> = word.iter().copied().skip_while(|b| *b == 0).collect();
    rlp_string(&trimmed)
}

fn account_rlp(nonce: u64, balance: &[u8; 32], storage: &[u8; 32], code: &[u8; 32]) -> Vec<u8> {
    rlp_list(&[
        rlp_uint(&word(nonce as u128)),
        rlp_uint(balance),
        rlp_string(storage),
        rlp_string(code),
    ])
}

fn leaf(key: &[u8; 32], value: &[u8]) -> Vec<u8> {
    rlp_list(&[rlp_string(&encode_hp_path(&bytes_to_nibbles(key), true)), rlp_string(value)])
}

fn empty_claim(address: [u8; 20]) -> ProofData {
    ProofData {
        address,
        balance: [0u8; 32],
        code_hash: EMPTY_CODE_HASH,
        nonce: 0,
        storage_hash: EMPTY_ROOT_HASH,
        account_proof: vec![],
        storage_proof: vec![],
    }
}

// A state trie that holds one account, and the claim that describes it.
fn one_account(balance: u128) -> ([u8; 32], ProofData) {
    let address = [0x42u8; 20];
    let entry = account_rlp(3, &word(balance), &EMPTY_ROOT_HASH, &EMPTY_CODE_HASH);
    let node = leaf(&keccak256(&address), &entry);
    let root = keccak256(&node);
    let claim = ProofData {
        address,
        balance: word(balance),
        code_hash: EMPTY_CODE_HASH,
        nonce: 3,
        storage_hash: EMPTY_ROOT_HASH,
        account_proof: vec![node],
        storage_proof: vec![],
    };
    (root, claim)
}

// A storage trie that holds one slot, and the claim that describes it.
fn one_slot(value: u128) -> ([u8; 32], StorageProofData) {
    let key = word(7);
    let node = leaf(&keccak256(&key), &rlp_uint(&word(value)));
    (keccak256(&node), StorageProofData { key, value: word(value), proof: vec![node] })
}

#[test]
fn empty_account_under_empty_root() {
    let generator = ProofGenerator::new(&config());
    for address in [[0u8; 20], [0xff; 20], [0x42; 20]] {
        assert_eq!(
            generator.verify_account_proof(EMPTY_ROOT_HASH, &empty_claim(address)),
            Ok(true)
        );
    }
}

#[test]
fn absent_account_with_claims_fails() {
    let generator = ProofGenerator::new(&config());
    let mut claim = empty_claim([1u8; 20]);
    claim.balance = word(1);
    assert_eq!(generator.verify_account_proof(EMPTY_ROOT_HASH, &claim), Ok(false));
    let mut claim = empty_claim([1u8; 20]);
    claim.nonce = 1;
    assert_eq!(generator.verify_account_proof(EMPTY_ROOT_HASH, &claim), Ok(false));
    let mut claim = empty_claim([1u8; 20]);
    claim.storage_hash = [0u8; 32];
    assert_eq!(generator.verify_account_proof(EMPTY_ROOT_HASH, &claim), Ok(false));
    let mut claim = empty_claim([1u8; 20]);
    claim.code_hash = [0u8; 32];
    assert_eq!(generator.verify_account_proof(EMPTY_ROOT_HASH, &claim), Ok(false));
}

#[test]
fn account_without_nodes_under_other_root_is_an_error() {
    let generator = ProofGenerator::new(&config());
    assert_eq!(
        generator.verify_account_proof([0x99; 32], &empty_claim([1u8; 20])),
        Err(ProofError::EmptyProof)
    );
}

#[test]
fn one_account_verifies_and_a_changed_balance_fails() {
    let generator = ProofGenerator::new(&config());
    let (root, claim) = one_account(1_000_000);
    assert_eq!(generator.verify_account_proof(root, &claim), Ok(true));
    assert_eq!(generator.verify_complete_proof(root, &claim), Ok(true));
    let mut more = claim.clone();
    more.balance = word(1_000_001);
    assert_eq!(generator.verify_account_proof(root, &more), Ok(false));
    let mut less = claim.clone();
    less.balance = word(999_999);
    assert_eq!(generator.verify_account_proof(root, &less), Ok(false));
    let mut nonce = claim.clone();
    nonce.nonce = 4;
    assert_eq!(generator.verify_account_proof(root, &nonce), Ok(false));
    let mut storage = claim.clone();
    storage.storage_hash = [0u8; 32];
    assert_eq!(generator.verify_account_proof(root, &storage), Ok(false));
    let mut code = claim.clone();
    code.code_hash = [0u8; 32];
    assert_eq!(generator.verify_account_proof(root, &code), Ok(false));
}

#[test]
fn verified_account_entry_hashes_like_its_encoding() {
    let (root, claim) = one_account(77);
    let generator = ProofGenerator::new(&config());
    assert_eq!(generator.verify_account_proof(root, &claim), Ok(true));
    let entry = dvrpc_node::trie::verify_mpt_proof(
        &root,
        &keccak256(&claim.address),
        &claim.account_proof,
    )
    .unwrap()
    .unwrap();
    let expected = account_rlp(claim.nonce, &claim.balance, &claim.storage_hash, &claim.code_hash);
    assert_eq!(keccak256(&entry), keccak256(&expected));
    assert_eq!(entry, expected);
}

#[test]
fn account_under_another_address_is_absent() {
    let generator = ProofGenerator::new(&config());
    let (root, claim) = one_account(5);
    let mut other = claim.clone();
    other.address = [0x43; 20];
    assert_eq!(generator.verify_account_proof(root, &other), Ok(false));
    let mut absent = empty_claim([0x43; 20]);
    absent.account_proof = claim.account_proof.clone();
    assert_eq!(generator.verify_account_proof(root, &absent), Ok(true));
}

#[test]
fn tampered_account_node_is_an_error() {
    let generator = ProofGenerator::new(&config());
    let (root, claim) = one_account(5);
    let mut bad = claim.clone();
    let last = bad.account_proof[0].len() - 1;
    bad.account_proof[0][last] ^= 1;
    assert_eq!(
        generator.verify_account_proof(root, &bad),
        Err(ProofError::HashMismatch { index: 0 })
    );
    assert_eq!(
        generator.verify_complete_proof(root, &bad),
        Err(ProofError::HashMismatch { index: 0 })
    );
}

#[test]
fn malformed_account_entry_is_an_error() {
    let generator = ProofGenerator::new(&config());
    let address = [0x42u8; 20];
    let node = leaf(&keccak256(&address), b"not an account");
    let mut claim = empty_claim(address);
    claim.account_proof = vec![node.clone()];
    assert_eq!(
        generator.verify_account_proof(keccak256(&node), &claim),
        Err(ProofError::Decode(DecodeError::UnexpectedKind))
    );
}

#[test]
fn storage_without_nodes() {
    let generator = ProofGenerator::new(&config());
    for key in [[0u8; 32], [0xab; 32]] {
        let zero = StorageProofData { key, value: [0u8; 32], proof: vec![] };
        assert_eq!(generator.verify_storage_proof(EMPTY_ROOT_HASH, &zero), Ok(true));
        let one = StorageProofData { key, value: word(1), proof: vec![] };
        assert_eq!(generator.verify_storage_proof(EMPTY_ROOT_HASH, &one), Ok(false));
        let top = StorageProofData { key, value: [0xff; 32], proof: vec![] };
        assert_eq!(generator.verify_storage_proof(EMPTY_ROOT_HASH, &top), Ok(false));
        assert_eq!(generator.verify_storage_proof([0x01; 32], &zero), Ok(false));
    }
}

#[test]
fn storage_slot_verifies_and_a_changed_value_fails() {
    let generator = ProofGenerator::new(&config());
    for value in [1u128, 0x7f, 0x80, 0xffff, u128::MAX] {
        let (root, claim) = one_slot(value);
        assert_eq!(generator.verify_storage_proof(root, &claim), Ok(true));
        let mut other = claim.clone();
        other.value = word(value - 1);
        assert_eq!(generator.verify_storage_proof(root, &other), Ok(false));
    }
}

#[test]
fn absent_storage_slot_is_zero() {
    let generator = ProofGenerator::new(&config());
    let (root, claim) = one_slot(9);
    let absent = StorageProofData { key: word(8), value: [0u8; 32], proof: claim.proof.clone() };
    assert_eq!(generator.verify_storage_proof(root, &absent), Ok(true));
    let wrong = StorageProofData { key: word(8), value: word(9), proof: claim.proof.clone() };
    assert_eq!(generator.verify_storage_proof(root, &wrong), Ok(false));
}

#[test]
fn malformed_storage_entry_is_an_error() {
    let generator = ProofGenerator::new(&config());
    let key = word(7);
    let node = leaf(&keccak256(&key), &[0x82, 0x00, 0x01]);
    let claim = StorageProofData { key, value: word(1), proof: vec![node.clone()] };
    assert_eq!(
        generator.verify_storage_proof(keccak256(&node), &claim),
        Err(ProofError::Decode(DecodeError::NonCanonical))
    );
}

#[test]
fn complete_proof_checks_every_slot_against_the_claimed_storage_root() {
    let generator = ProofGenerator::new(&config());
    let (storage_root, slot) = one_slot(0xbeef);
    let address = [0x42u8; 20];
    let entry = account_rlp(1, &word(10), &storage_root, &EMPTY_CODE_HASH);
    let node = leaf(&keccak256(&address), &entry);
    let root = keccak256(&node);
    let claim = ProofData {
        address,
        balance: word(10),
        code_hash: EMPTY_CODE_HASH,
        nonce: 1,
        storage_hash: storage_root,
        account_proof: vec![node],
        storage_proof: vec![slot.clone()],
    };
    assert_eq!(generator.verify_complete_proof(root, &claim), Ok(true));

    let mut wrong_value = claim.clone();
    wrong_value.storage_proof[0].value = word(0xbeee);
    assert_eq!(generator.verify_complete_proof(root, &wrong_value), Ok(false));

    let mut second_fails = claim.clone();
    second_fails.storage_proof.push(StorageProofData {
        key: word(8),
        value: word(1),
        proof: slot.proof.clone(),
    });
    assert_eq!(generator.verify_complete_proof(root, &second_fails), Ok(false));

    let mut broken = claim.clone();
    broken.storage_proof[0].proof[0][0] ^= 1;
    assert_eq!(
        generator.verify_complete_proof(root, &broken),
        Err(ProofError::HashMismatch { index: 0 })
    );

    // a failing account ends the check before any slot is looked at
    let mut wrong_account = broken.clone();
    wrong_account.balance = word(11);
    assert_eq!(generator.verify_complete_proof(root, &wrong_account), Ok(false));
}

#[test]
fn verdicts_from_what_a_walk_found() {
    let (_, claim) = one_account(5);
    let entry = account_rlp(3, &word(5), &EMPTY_ROOT_HASH, &EMPTY_CODE_HASH);
    assert_eq!(check_account(&Some(entry.clone()), &claim), Ok(true));
    assert_eq!(check_account(&None, &claim), Ok(false));
    assert_eq!(check_account(&None, &empty_claim([0u8; 20])), Ok(true));
    assert_eq!(
        check_account(&Some(vec![0x01]), &claim),
        Err(ProofError::Decode(DecodeError::UnexpectedKind))
    );
    let other = account_rlp(3, &word(6), &EMPTY_ROOT_HASH, &EMPTY_CODE_HASH);
    assert_eq!(check_account(&Some(other), &claim), Ok(false));

    assert_eq!(check_storage(&None, &[0u8; 32]), Ok(true));
    assert_eq!(check_storage(&None, &word(1)), Ok(false));
    assert_eq!(check_storage(&Some(vec![0x05]), &word(5)), Ok(true));
    assert_eq!(check_storage(&Some(vec![0x05]), &word(6)), Ok(false));
    assert_eq!(check_storage(&Some(vec![0x82, 0x01, 0x00]), &word(256)), Ok(true));
    assert_eq!(
        check_storage(&Some(vec![]), &word(0)),
        Err(ProofError::Decode(DecodeError::Empty))
    );
}
