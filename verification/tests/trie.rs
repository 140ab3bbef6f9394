use dvrpc_node::error::{DecodeError, ProofError};
use dvrpc_node::hp::{bytes_to_nibbles, encode_hp_path};
use dvrpc_node::keccak::{keccak256, EMPTY_ROOT_HASH};
use dvrpc_node::rlp::{bytes_to_usize, decode_rlp_item, decode_rlp_length, decode_rlp_list};
use dvrpc_node::trie::{
    process_branch, process_leaf_extension, read_node, verify_hashed_proof, verify_mpt_proof,
    HashedNode, NodeTarget, WalkStep,
};

fn rlp_length(len: usize, offset: u8) -> Vec<u8> {
    if len <= 55 {
        vec![offset + len as u8]
    } else {
        let be: Vec<u8> = len.to_be_bytes().iter().copied().skip_while(|b| *b == 0).collect();
        let mut out = vec![offset + 55 + be.len() as u8];
        out.extend_from_slice(&be);
        out
    }
}

fn rlp_string(payload: &[u8]) -> Vec<u8> {
    if payload.len() == 1 && payload[0] < 0x80 {
        return payload.to_vec();
    }
    let mut out = rlp_length(payload.len(), 0x80);
    out.extend_from_slice(payload);
    out
}

fn rlp_list(items: &[Vec<u8>]) -> Vec<u8> {
    let payload: Vec<u8> = items.iter().flatten().copied().collect();
    let mut out = rlp_length(payload.len(), 0xc0);
    out.extend_from_slice(&payload);
    out
}

fn leaf(path: &[u8], value: &[u8]) -> Vec<u8> {
    rlp_list(&[rlp_string(&encode_hp_path(path, true)), rlp_string(value)])
}

fn reference(node: &[u8]) -> Vec<u8> {
    if node.len() < 32 {
        node.to_vec()
    } else {
        rlp_string(&keccak256(node))
    }
}

fn extension(path: &[u8], child: &[u8]) -> Vec<u8> {
    rlp_list(&[rlp_string(&encode_hp_path(path, false)), reference(child)])
}

fn branch(children: &[(u8, Vec<u8>)], value: &[u8]) -> Vec<u8> {
    let mut items: Vec<Vec<u8>> = vec![vec![0x80]; 16];
    for (nibble, child) in children {
        items[*nibble as usize] = reference(child);
    }
    items.push(rlp_string(value));
    rlp_list(&items)
}

fn key_with(first: u8, fill: u8) -> [u8; 32] {
    let mut key = [fill; 32];
    key[0] = first;
    key
}

// A trie of two entries under a branch: keys 0x1a.. and 0x2b.., with two
// leaves that are held by hash.
fn two_leaf_trie() -> ([u8; 32], [u8; 32], Vec<u8>, Vec<u8>, Vec<u8>) {
    let k1 = key_with(0x1a, 0x11);
    let k2 = key_with(0x2b, 0x22);
    let l1 = leaf(&bytes_to_nibbles(&k1)[1..], b"first value");
    let l2 = leaf(&bytes_to_nibbles(&k2)[1..], b"second value");
    let root = branch(&[(1, l1.clone()), (2, l2.clone())], b"");
    (k1, k2, root, l1, l2)
}

#[test]
fn empty_root_without_nodes_has_no_key() {
    for key in [[0u8; 32], [0xff; 32], key_with(7, 9)] {
        assert_eq!(verify_mpt_proof(&EMPTY_ROOT_HASH, &key, &vec![]), Ok(None));
    }
}

#[test]
fn other_root_without_nodes_proves_nothing() {
    assert_eq!(verify_mpt_proof(&[0u8; 32], &[0u8; 32], &vec![]), Err(ProofError::EmptyProof));
}

#[test]
fn single_entry_trie_gives_back_its_value() {
    for (key, value) in [
        ([0u8; 32], b"v".to_vec()),
        (key_with(0xab, 0xcd), vec![0x55; 40]),
        ([0xff; 32], vec![]),
        (key_with(1, 2), vec![0x7f]),
        (key_with(1, 2), vec![0x80; 100]),
    ] {
        let node = leaf(&bytes_to_nibbles(&key), &value);
        let root = keccak256(&node);
        assert_eq!(verify_mpt_proof(&root, &key, &vec![node]), Ok(Some(value)));
    }
}

#[test]
fn single_entry_trie_holds_no_other_key() {
    let key = key_with(0xab, 0xcd);
    let node = leaf(&bytes_to_nibbles(&key), b"value");
    let root = keccak256(&node);
    let mut other = key;
    other[31] ^= 1;
    assert_eq!(verify_mpt_proof(&root, &other, &vec![node.clone()]), Ok(None));
    assert_eq!(verify_mpt_proof(&root, &[0u8; 32], &vec![node]), Ok(None));
}

#[test]
fn branch_leads_to_both_leaves() {
    let (k1, k2, root, l1, l2) = two_leaf_trie();
    let hash = keccak256(&root);
    assert_eq!(
        verify_mpt_proof(&hash, &k1, &vec![root.clone(), l1]),
        Ok(Some(b"first value".to_vec()))
    );
    assert_eq!(
        verify_mpt_proof(&hash, &k2, &vec![root, l2]),
        Ok(Some(b"second value".to_vec()))
    );
}

#[test]
fn absent_keys_walk_to_none() {
    let (k1, _, root, l1, _) = two_leaf_trie();
    let hash = keccak256(&root);
    // an empty slot of the branch
    assert_eq!(verify_mpt_proof(&hash, &key_with(0x3a, 0x11), &vec![root.clone()]), Ok(None));
    // a leaf whose path is another
    let mut near = k1;
    near[31] ^= 0x10;
    assert_eq!(verify_mpt_proof(&hash, &near, &vec![root, l1]), Ok(None));
}

#[test]
fn truncated_proof_is_incomplete() {
    let (k1, _, root, _, _) = two_leaf_trie();
    let hash = keccak256(&root);
    assert_eq!(verify_mpt_proof(&hash, &k1, &vec![root]), Err(ProofError::Incomplete));
}

#[test]
fn corrupted_node_is_a_hash_mismatch_at_that_node() {
    let k = key_with(0x12, 0x34);
    let nibbles = bytes_to_nibbles(&k);
    let l = leaf(&nibbles[2..], b"deep value");
    let middle = branch(&[(2, l.clone())], b"");
    let top = branch(&[(1, middle.clone())], b"");
    let hash = keccak256(&top);
    let good = vec![top.clone(), middle.clone(), l.clone()];
    assert_eq!(verify_mpt_proof(&hash, &k, &good), Ok(Some(b"deep value".to_vec())));
    for position in [0, 1, middle.len() / 2, middle.len() - 1] {
        let mut bad = middle.clone();
        bad[position] ^= 0x01;
        assert_eq!(
            verify_mpt_proof(&hash, &k, &vec![top.clone(), bad, l.clone()]),
            Err(ProofError::HashMismatch { index: 1 })
        );
    }
    let mut bad_top = top.clone();
    bad_top[3] ^= 0x80;
    assert_eq!(
        verify_mpt_proof(&hash, &k, &vec![bad_top, middle.clone(), l.clone()]),
        Err(ProofError::HashMismatch { index: 0 })
    );
    let mut bad_leaf = l.clone();
    let last = bad_leaf.len() - 1;
    bad_leaf[last] ^= 0xff;
    assert_eq!(
        verify_mpt_proof(&hash, &k, &vec![top, middle, bad_leaf]),
        Err(ProofError::HashMismatch { index: 2 })
    );
}

#[test]
fn extension_path_mismatch_walks_to_none() {
    let k = key_with(0xab, 0xcd);
    let nibbles = bytes_to_nibbles(&k);
    let l = leaf(&nibbles[5..], b"behind the extension");
    let b = branch(&[(nibbles[4], l.clone())], b"");
    let ext = extension(&nibbles[..4], &b);
    let hash = keccak256(&ext);
    assert_eq!(
        verify_mpt_proof(&hash, &k, &vec![ext.clone(), b.clone(), l]),
        Ok(Some(b"behind the extension".to_vec()))
    );
    // the key leaves the extension's path at nibble 0, 1, 2 and 3
    for byte in 0..2 {
        for mask in [0x10u8, 0x01] {
            let mut other = k;
            other[byte] ^= mask;
            assert_eq!(verify_mpt_proof(&hash, &other, &vec![ext.clone()]), Ok(None));
        }
    }
}

#[test]
fn extension_needs_its_child() {
    let k = key_with(0xab, 0xcd);
    let nibbles = bytes_to_nibbles(&k);
    let l = leaf(&nibbles[5..], b"behind the extension");
    let b = branch(&[(nibbles[4], l)], b"");
    let ext = extension(&nibbles[..4], &b);
    assert_eq!(
        verify_mpt_proof(&keccak256(&ext), &k, &vec![ext]),
        Err(ProofError::Incomplete)
    );
    let hollow = rlp_list(&[rlp_string(&encode_hp_path(&nibbles[..4], false)), vec![0x80]]);
    assert_eq!(
        verify_mpt_proof(&keccak256(&hollow), &k, &vec![hollow]),
        Err(ProofError::InvalidReference { index: 0 })
    );
}

// An extension of 62 nibbles over a branch that holds one short leaf: branch
// and leaf are both short enough to stand inside their parents.
fn embedded_trie() -> ([u8; 32], Vec<u8>, Vec<u8>, Vec<u8>) {
    let k = key_with(0x01, 0x23);
    let nibbles = bytes_to_nibbles(&k);
    let l = leaf(&nibbles[63..], &[0x05]);
    let b = branch(&[(nibbles[62], l.clone())], b"");
    assert!(l.len() < 32 && b.len() < 32);
    let ext = extension(&nibbles[..62], &b);
    (k, ext, b, l)
}

#[test]
fn embedded_nodes_are_read_in_place() {
    let (k, ext, _, _) = embedded_trie();
    let hash = keccak256(&ext);
    assert_eq!(verify_mpt_proof(&hash, &k, &vec![ext.clone()]), Ok(Some(vec![0x05])));
    let mut sibling = k;
    sibling[31] ^= 0x01;
    assert_eq!(verify_mpt_proof(&hash, &sibling, &vec![ext.clone()]), Ok(None));
    let mut cousin = k;
    cousin[31] ^= 0x10;
    assert_eq!(verify_mpt_proof(&hash, &cousin, &vec![ext]), Ok(None));
}

#[test]
fn embedded_nodes_may_follow_as_entries() {
    let (k, ext, b, l) = embedded_trie();
    let hash = keccak256(&ext);
    assert_eq!(
        verify_mpt_proof(&hash, &k, &vec![ext.clone(), b.clone()]),
        Ok(Some(vec![0x05]))
    );
    assert_eq!(
        verify_mpt_proof(&hash, &k, &vec![ext.clone(), b, l.clone()]),
        Ok(Some(vec![0x05]))
    );
    assert_eq!(verify_mpt_proof(&hash, &k, &vec![ext, l]), Ok(Some(vec![0x05])));
}

#[test]
fn branch_value_is_returned_when_the_key_is_used_up() {
    let k = key_with(0x01, 0x23);
    let nibbles = bytes_to_nibbles(&k);
    let with_value = branch(&[], b"at the branch");
    let ext = extension(&nibbles, &with_value);
    assert_eq!(
        verify_mpt_proof(&keccak256(&ext), &k, &vec![ext]),
        Ok(Some(b"at the branch".to_vec()))
    );
    let without = branch(&[], b"");
    let ext = extension(&nibbles, &without);
    assert_eq!(verify_mpt_proof(&keccak256(&ext), &k, &vec![ext]), Ok(None));
}

#[test]
fn malformed_nodes_are_errors() {
    let k = [0u8; 32];
    let three = rlp_list(&[vec![0x01], vec![0x02], vec![0x03]]);
    assert_eq!(
        verify_mpt_proof(&keccak256(&three), &k, &vec![three]),
        Err(ProofError::InvalidNode { index: 0 })
    );
    let truncated = vec![0xc5, 0x01, 0x02];
    assert_eq!(
        verify_mpt_proof(&keccak256(&truncated), &k, &vec![truncated]),
        Err(ProofError::Decode(DecodeError::Truncated))
    );
    let cut_item = vec![0xc2, 0x01, 0x83];
    assert_eq!(
        verify_mpt_proof(&keccak256(&cut_item), &k, &vec![cut_item]),
        Err(ProofError::Decode(DecodeError::Truncated))
    );
    let no_bytes: Vec<u8> = vec![];
    assert_eq!(
        verify_mpt_proof(&keccak256(&no_bytes), &k, &vec![no_bytes]),
        Err(ProofError::InvalidNode { index: 0 })
    );
    let mut children: Vec<Vec<u8>> = vec![vec![0x80]; 17];
    children[0] = rlp_string(&[0xaa; 33]);
    let long_reference = rlp_list(&children);
    assert_eq!(
        verify_mpt_proof(&keccak256(&long_reference), &k, &vec![long_reference]),
        Err(ProofError::InvalidReference { index: 0 })
    );
}

#[test]
fn hashed_walk_goes_by_the_digests_it_is_given() {
    let (k1, _, root, l1, _) = two_leaf_trie();
    let nodes = vec![
        HashedNode { bytes: &root, hash: keccak256(&root) },
        HashedNode { bytes: &l1, hash: keccak256(&l1) },
    ];
    assert_eq!(
        verify_hashed_proof(&keccak256(&root), &k1, &nodes),
        Ok(Some(b"first value".to_vec()))
    );
    let wrong = vec![
        HashedNode { bytes: &root, hash: keccak256(&root) },
        HashedNode { bytes: &l1, hash: [0u8; 32] },
    ];
    assert_eq!(
        verify_hashed_proof(&keccak256(&root), &k1, &wrong),
        Err(ProofError::HashMismatch { index: 1 })
    );
    // any digest will do as long as the references agree with it
    let node = leaf(&bytes_to_nibbles(&k1), b"x");
    let made_up = vec![HashedNode { bytes: &node, hash: [7u8; 32] }];
    assert_eq!(verify_hashed_proof(&[7u8; 32], &k1, &made_up), Ok(Some(b"x".to_vec())));
    assert_eq!(
        verify_hashed_proof(&[8u8; 32], &k1, &made_up),
        Err(ProofError::HashMismatch { index: 0 })
    );
}

#[test]
fn branch_and_leaf_targets() {
    let key = bytes_to_nibbles(&key_with(0x1a, 0x11));
    let mut items: Vec<Vec<u8>> = vec![vec![]; 17];
    items[1] = vec![0xee; 32];
    items[16] = b"here".to_vec();
    match process_branch(&items, &key, 0) {
        NodeTarget::Child { reference, cursor } => {
            assert_eq!(reference, vec![0xee; 32]);
            assert_eq!(cursor, 1);
        }
        NodeTarget::Value(_) => panic!("the slot under nibble 1 is taken"),
    }
    assert!(matches!(process_branch(&items, &key, 1), NodeTarget::Value(None)));
    match process_branch(&items, &key, 64) {
        NodeTarget::Value(Some(value)) => assert_eq!(value, b"here".to_vec()),
        _ => panic!("the key is used up"),
    }
    let leaf_items = vec![encode_hp_path(&key[2..], true), b"leaf".to_vec()];
    match process_leaf_extension(&leaf_items, &key, 2) {
        Ok(NodeTarget::Value(Some(value))) => assert_eq!(value, b"leaf".to_vec()),
        _ => panic!("the path is the rest of the key"),
    }
    assert!(matches!(process_leaf_extension(&leaf_items, &key, 3), Ok(NodeTarget::Value(None))));
    let ext_items = vec![encode_hp_path(&key[2..5], false), vec![0xdd; 32]];
    match process_leaf_extension(&ext_items, &key, 2) {
        Ok(NodeTarget::Child { reference, cursor }) => {
            assert_eq!(reference, vec![0xdd; 32]);
            assert_eq!(cursor, 5);
        }
        _ => panic!("the path starts the rest of the key"),
    }
    assert!(matches!(process_leaf_extension(&ext_items, &key, 0), Ok(NodeTarget::Value(None))));
}

#[test]
fn read_node_follows_a_hash() {
    let (k1, _, root, l1, _) = two_leaf_trie();
    let nodes = vec![
        HashedNode { bytes: &root, hash: keccak256(&root) },
        HashedNode { bytes: &l1, hash: keccak256(&l1) },
    ];
    let key = bytes_to_nibbles(&k1);
    match read_node(&root, &key, 0, &nodes, 0) {
        Ok(WalkStep::Follow { expected, cursor, embedded }) => {
            assert_eq!(expected, keccak256(&l1).to_vec());
            assert_eq!(cursor, 1);
            assert!(!embedded);
        }
        _ => panic!("the branch refers to the leaf by hash"),
    }
    match read_node(&l1, &key, 1, &nodes, 1) {
        Ok(WalkStep::Done(Some(value))) => assert_eq!(value, b"first value".to_vec()),
        _ => panic!("the leaf holds the value"),
    }
}

#[test]
fn rlp_prefix_ranges() {
    // a single byte stands for itself
    assert_eq!(decode_rlp_item(&[0x00]), Ok((vec![0x00], 1)));
    assert_eq!(decode_rlp_item(&[0x7f, 0xff]), Ok((vec![0x7f], 1)));
    // short strings
    assert_eq!(decode_rlp_item(&[0x80]), Ok((vec![], 1)));
    assert_eq!(decode_rlp_item(&[0x83, 1, 2, 3, 4]), Ok((vec![1, 2, 3], 4)));
    assert_eq!(decode_rlp_item(&[0x83, 1, 2]), Err(DecodeError::Truncated));
    // long strings
    let mut long = vec![0xb8, 56];
    long.extend_from_slice(&[0xaa; 56]);
    assert_eq!(decode_rlp_item(&long), Ok((vec![0xaa; 56], 58)));
    assert_eq!(decode_rlp_item(&long[..57]), Err(DecodeError::Truncated));
    assert_eq!(decode_rlp_item(&[0xb9, 0x01]), Err(DecodeError::Truncated));
    let mut two_length_bytes = vec![0xb9, 0x01, 0x00];
    two_length_bytes.extend_from_slice(&[0xbb; 256]);
    assert_eq!(decode_rlp_item(&two_length_bytes), Ok((vec![0xbb; 256], 259)));
    // lists hand over their whole encoding
    assert_eq!(decode_rlp_item(&[0xc0]), Ok((vec![0xc0], 1)));
    assert_eq!(decode_rlp_item(&[0xc2, 0x01, 0x02, 0x03]), Ok((vec![0xc2, 0x01, 0x02], 3)));
    assert_eq!(decode_rlp_item(&[0xc2, 0x01]), Err(DecodeError::Truncated));
    let mut long_list = vec![0xf8, 56];
    long_list.extend_from_slice(&[0x01; 56]);
    assert_eq!(decode_rlp_item(&long_list), Ok((long_list.clone(), 58)));
    assert_eq!(decode_rlp_item(&[]), Err(DecodeError::Empty));
    assert_eq!(
        decode_rlp_item(&[0xbf, 0xff, 0xff, 0xff, 0xff, 0xff, 0xff, 0xff, 0xff]),
        Err(DecodeError::Truncated)
    );
}

#[test]
fn rlp_length_splits_prefix_and_payload() {
    assert_eq!(decode_rlp_length(&[0x05]), Ok((&[0x05u8][..], 1)));
    assert_eq!(decode_rlp_length(&[0x82, 7, 8, 9]), Ok((&[7u8, 8][..], 3)));
    assert_eq!(decode_rlp_length(&[0xc3, 1, 2, 3]), Ok((&[1u8, 2, 3][..], 4)));
    assert_eq!(decode_rlp_length(&[]), Err(DecodeError::Empty));
    assert_eq!(decode_rlp_length(&[0xf8]), Err(DecodeError::Truncated));
}

#[test]
fn rlp_list_items() {
    assert_eq!(decode_rlp_list(&[]), Ok(vec![]));
    assert_eq!(decode_rlp_list(&[0xc0]), Ok(vec![]));
    assert_eq!(
        decode_rlp_list(&[0xc6, 0x01, 0x82, 0xaa, 0xbb, 0xc1, 0x05]),
        Ok(vec![vec![0x01], vec![0xaa, 0xbb], vec![0xc1, 0x05]])
    );
    // bytes behind the list are not looked at
    assert_eq!(decode_rlp_list(&[0xc1, 0x01, 0xff, 0xff]), Ok(vec![vec![0x01]]));
    assert_eq!(decode_rlp_list(&[0xc2, 0x01, 0x85]), Err(DecodeError::Truncated));
}

#[test]
fn big_endian_lengths() {
    assert_eq!(bytes_to_usize(&[]), Ok(0));
    assert_eq!(bytes_to_usize(&[0x01, 0x00]), Ok(256));
    assert_eq!(bytes_to_usize(&[0x00, 0x12, 0x34]), Ok(0x1234));
    let word = std::mem::size_of::<usize>();
    assert_eq!(bytes_to_usize(&vec![0xff; word]), Ok(usize::MAX));
    assert_eq!(bytes_to_usize(&vec![0x00; word + 1]), Err(DecodeError::LengthTooLarge));
}

#[test]
fn short_node_held_by_hash_is_misplaced() {
    let (k, ext, b, l) = embedded_trie();
    // the same extension, but with its short branch referred to by hash
    let nibbles = bytes_to_nibbles(&k);
    let by_hash = rlp_list(&[
        rlp_string(&encode_hp_path(&nibbles[..62], false)),
        rlp_string(&keccak256(&b)),
    ]);
    assert_eq!(
        verify_mpt_proof(&keccak256(&by_hash), &k, &vec![by_hash.clone(), b.clone()]),
        Err(ProofError::MisplacedNode { index: 1 })
    );
    assert_eq!(
        verify_mpt_proof(&keccak256(&by_hash), &k, &vec![by_hash, l.clone()]),
        Err(ProofError::HashMismatch { index: 1 })
    );
    // a short root is in place
    let short_root = rlp_list(&[vec![0x20], vec![0x01]]);
    assert!(short_root.len() < 32);
    assert_eq!(verify_mpt_proof(&keccak256(&short_root), &k, &vec![short_root]), Ok(None));
    // as is the embedded node that follows its parent as an entry
    assert_eq!(verify_mpt_proof(&keccak256(&ext), &k, &vec![ext, b]), Ok(Some(vec![0x05])));
    assert_eq!(
        ProofError::MisplacedNode { index: 4 }.message(),
        "Invalid embedded node at index 4"
    );
}
