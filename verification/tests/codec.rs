use dvrpc_node::hp::{bytes_to_nibbles, decode_hp_path, encode_hp_path};
use dvrpc_node::keccak::{keccak256, EMPTY_CODE_HASH, EMPTY_ROOT_HASH};

#[test]
fn test_bytes_to_nibbles() {
    let bytes = vec![0xab, 0xcd];
    let nibbles = bytes_to_nibbles(&bytes);
    assert_eq!(nibbles, vec![0xa, 0xb, 0xc, 0xd]);
}

#[test]
fn test_decode_hp_path_leaf_even() {
    // Leaf with even path: prefix 0x20
    let encoded = vec![0x20, 0xab, 0xcd];
    let (nibbles, is_leaf) = decode_hp_path(&encoded).unwrap();
    assert!(is_leaf);
    assert_eq!(nibbles, vec![0xa, 0xb, 0xc, 0xd]);
}

#[test]
fn test_decode_hp_path_leaf_odd() {
    // Leaf with odd path: prefix 0x3X where X is first nibble
    let encoded = vec![0x3a, 0xbc];
    let (nibbles, is_leaf) = decode_hp_path(&encoded).unwrap();
    assert!(is_leaf);
    assert_eq!(nibbles, vec![0xa, 0xb, 0xc]);
}

#[test]
fn test_decode_hp_path_extension_even() {
    // Extension with even path: prefix 0x00
    let encoded = vec![0x00, 0xab, 0xcd];
    let (nibbles, is_leaf) = decode_hp_path(&encoded).unwrap();
    assert!(!is_leaf);
    assert_eq!(nibbles, vec![0xa, 0xb, 0xc, 0xd]);
}

#[test]
fn test_empty_root_hash() {
    // Verify the empty root hash constant
    let empty_rlp = hex::decode("80").unwrap();
    let hash = keccak256(&empty_rlp);
    assert_eq!(hash, EMPTY_ROOT_HASH);
}

#[test]
fn test_empty_code_hash() {
    // Verify the empty code hash constant
    let hash = keccak256(&[]);
    assert_eq!(hash, EMPTY_CODE_HASH);
}

#[test]
fn hp_round_trip_on_concrete_paths() {
    for leaf in [false, true] {
        for path in [vec![], vec![0x1], vec![0xf, 0x0], vec![0x1, 0x2, 0x3], vec![0x0, 0x0, 0x0, 0x0]] {
            let encoded = encode_hp_path(&path, leaf);
            assert_eq!(decode_hp_path(&encoded).unwrap(), (path, leaf));
        }
    }
}

#[test]
fn hp_flags_are_read_bit_by_bit() {
    assert_eq!(decode_hp_path(&[]).unwrap(), (vec![], false));
    assert_eq!(decode_hp_path(&[0x00]).unwrap(), (vec![], false));
    assert_eq!(decode_hp_path(&[0x20]).unwrap(), (vec![], true));
    assert_eq!(decode_hp_path(&[0x1f]).unwrap(), (vec![0xf], false));
    assert_eq!(decode_hp_path(&[0x3f]).unwrap(), (vec![0xf], true));
    // of the high nibble only the two low bits count
    assert_eq!(decode_hp_path(&[0x4a, 0xbc]).unwrap(), (vec![0xb, 0xc], false));
    assert_eq!(decode_hp_path(&[0x5a, 0xbc]).unwrap(), (vec![0xa, 0xb, 0xc], false));
    assert_eq!(decode_hp_path(&[0x6a, 0xbc]).unwrap(), (vec![0xb, 0xc], true));
    assert_eq!(decode_hp_path(&[0xfa, 0xbc]).unwrap(), (vec![0xa, 0xb, 0xc], true));
    // the low nibble of an even path's first byte is not looked at
    assert_eq!(decode_hp_path(&[0x27, 0x12]).unwrap(), (vec![0x1, 0x2], true));
}

#[test]
fn hp_encoding_exact_bytes() {
    assert_eq!(encode_hp_path(&[], false), vec![0x00]);
    assert_eq!(encode_hp_path(&[], true), vec![0x20]);
    assert_eq!(encode_hp_path(&[0xa], false), vec![0x1a]);
    assert_eq!(encode_hp_path(&[0xa], true), vec![0x3a]);
    assert_eq!(encode_hp_path(&[0xa, 0xb], false), vec![0x00, 0xab]);
    assert_eq!(encode_hp_path(&[0xa, 0xb, 0xc], true), vec![0x3a, 0xbc]);
    assert_eq!(encode_hp_path(&[0x0, 0xf, 0x1, 0xc, 0xb, 0x8], true), vec![0x20, 0x0f, 0x1c, 0xb8]);
}
