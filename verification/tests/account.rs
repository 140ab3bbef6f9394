use alloy_rlp::{Decodable, Encodable, Header};
use dvrpc_node::account::{decode_account, decode_storage_value, AccountState};
use dvrpc_node::bytes::{bytes_eq, left_pad_32};
use dvrpc_node::error::DecodeError;
use dvrpc_node::keccak::{EMPTY_CODE_HASH, EMPTY_ROOT_HASH};

fn word(n: u128) -> [u8; 32] {
    let mut out = [0u8; 32];
    out[16..].copy_from_slice(&n.to_be_bytes());
    out
}

fn trimmed(word: &[u8; 32]) -> Vec<u8> {
    word.iter().copied().skip_while(|b| *b == 0).collect()
}

// The encoding that the reference encoder writes for an account.
fn encoded(nonce: u64, balance: &[u8; 32], storage_root: &[u8; 32], code_hash: &[u8; 32]) -> Vec<u8> {
    let mut payload: Vec<u8> = Vec::new();
    nonce.encode(&mut payload);
    trimmed(balance).as_slice().encode(&mut payload);
    storage_root.encode(&mut payload);
    code_hash.encode(&mut payload);
    let mut out: Vec<u8> = Vec::new();
    Header { list: true, payload_length: payload.len() }.encode(&mut out);
    out.extend_from_slice(&payload);
    out
}

// What the reference decoder makes of the same bytes, field by field.
fn reference_decode(value: &[u8]) -> Option<(u64, Vec<u8>, [u8; 32], [u8; 32])> {
    let mut buf = value;
    let header = Header::decode(&mut buf).ok()?;
    if !header.list || buf.len() != header.payload_length {
        return None;
    }
    let nonce = u64::decode(&mut buf).ok()?;
    let balance = Header::decode_bytes(&mut buf, false).ok()?;
    if balance.len() > 32 || balance.first() == Some(&0) {
        return None;
    }
    let storage_root = <[u8; 32]>::decode(&mut buf).ok()?;
    let code_hash = <[u8; 32]>::decode(&mut buf).ok()?;
    if !buf.is_empty() {
        return None;
    }
    Some((nonce, balance.to_vec(), storage_root, code_hash))
}

fn fields(account: &AccountState) -> (u64, [u8; 32], [u8; 32], [u8; 32]) {
    (account.nonce, account.balance, account.storage_root, account.code_hash)
}

#[test]
fn account_round_trip_against_reference_encoder() {
    let cases = [
        (0u64, word(0), EMPTY_ROOT_HASH, EMPTY_CODE_HASH),
        (1, word(1), [0x11; 32], [0x22; 32]),
        (0x7f, word(0x7f), [0; 32], [0xff; 32]),
        (0x80, word(0x80), [1; 32], [2; 32]),
        (u64::MAX, [0xff; 32], [3; 32], [4; 32]),
        (256, word(1_000_000_000_000_000_000), EMPTY_ROOT_HASH, EMPTY_CODE_HASH),
    ];
    for (nonce, balance, storage_root, code_hash) in cases {
        let bytes = encoded(nonce, &balance, &storage_root, &code_hash);
        let account = decode_account(&bytes).unwrap();
        assert_eq!(fields(&account), (nonce, balance, storage_root, code_hash));
        assert!(reference_decode(&bytes).is_some());
    }
}

#[test]
fn account_exact_bytes() {
    let mut bytes = vec![0xf8, 0x44, 0x01, 0x80, 0xa0];
    bytes.extend_from_slice(&EMPTY_ROOT_HASH);
    bytes.push(0xa0);
    bytes.extend_from_slice(&EMPTY_CODE_HASH);
    let account = decode_account(&bytes).unwrap();
    assert_eq!(fields(&account), (1, [0u8; 32], EMPTY_ROOT_HASH, EMPTY_CODE_HASH));
    assert_eq!(bytes, encoded(1, &[0u8; 32], &EMPTY_ROOT_HASH, &EMPTY_CODE_HASH));
}

#[test]
fn account_decode_errors() {
    let good = encoded(5, &word(300), &[0x11; 32], &[0x22; 32]);
    assert!(decode_account(&good).is_ok());

    assert_eq!(decode_account(&[]).map(|a| fields(&a)), Err(DecodeError::Empty));

    let mut trailing = good.clone();
    trailing.push(0x00);
    assert_eq!(decode_account(&trailing).map(|a| fields(&a)), Err(DecodeError::TrailingBytes));

    let cut = &good[..good.len() - 1];
    assert_eq!(decode_account(cut).map(|a| fields(&a)), Err(DecodeError::Truncated));

    // a byte string in place of the list
    let mut string = vec![0xb8, (good.len() - 2) as u8];
    string.extend_from_slice(&good[2..]);
    assert_eq!(decode_account(&string).map(|a| fields(&a)), Err(DecodeError::UnexpectedKind));

    // nonce 5 written with a prefix it does not need
    let mut payload = vec![0x81, 0x05, 0x80];
    payload.push(0xa0);
    payload.extend_from_slice(&[0x11; 32]);
    payload.push(0xa0);
    payload.extend_from_slice(&[0x22; 32]);
    let mut padded = vec![0xf8, payload.len() as u8];
    padded.extend_from_slice(&payload);
    assert_eq!(decode_account(&padded).map(|a| fields(&a)), Err(DecodeError::NonCanonical));
    assert!(reference_decode(&padded).is_none());

    // nonce with a zero byte in front
    let mut payload = vec![0x82, 0x00, 0x85, 0x80];
    payload.push(0xa0);
    payload.extend_from_slice(&[0x11; 32]);
    payload.push(0xa0);
    payload.extend_from_slice(&[0x22; 32]);
    let mut zero = vec![0xf8, payload.len() as u8];
    zero.extend_from_slice(&payload);
    assert_eq!(decode_account(&zero).map(|a| fields(&a)), Err(DecodeError::NonCanonical));
    assert!(reference_decode(&zero).is_none());

    // nonce of nine bytes
    let mut payload = vec![0x89, 1, 2, 3, 4, 5, 6, 7, 8, 9, 0x80];
    payload.push(0xa0);
    payload.extend_from_slice(&[0x11; 32]);
    payload.push(0xa0);
    payload.extend_from_slice(&[0x22; 32]);
    let mut wide = vec![0xf8, payload.len() as u8];
    wide.extend_from_slice(&payload);
    assert_eq!(decode_account(&wide).map(|a| fields(&a)), Err(DecodeError::WrongLength));
    assert!(reference_decode(&wide).is_none());

    // a storage root of 31 bytes
    let mut payload = vec![0x05, 0x80, 0x9f];
    payload.extend_from_slice(&[0x11; 31]);
    payload.push(0xa0);
    payload.extend_from_slice(&[0x22; 32]);
    let mut short = vec![0xf8, payload.len() as u8];
    short.extend_from_slice(&payload);
    assert_eq!(decode_account(&short).map(|a| fields(&a)), Err(DecodeError::WrongLength));
    assert!(reference_decode(&short).is_none());

    // three fields only
    let mut payload = vec![0x05, 0x80, 0xa0];
    payload.extend_from_slice(&[0x11; 32]);
    let mut three = vec![0xe3];
    three.extend_from_slice(&payload);
    assert_eq!(decode_account(&three).map(|a| fields(&a)), Err(DecodeError::Empty));
    assert!(reference_decode(&three).is_none());

    // a fifth field
    let mut payload = vec![0x05, 0x80, 0xa0];
    payload.extend_from_slice(&[0x11; 32]);
    payload.push(0xa0);
    payload.extend_from_slice(&[0x22; 32]);
    payload.push(0x01);
    let mut five = vec![0xf8, payload.len() as u8];
    five.extend_from_slice(&payload);
    assert_eq!(decode_account(&five).map(|a| fields(&a)), Err(DecodeError::TrailingBytes));
    assert!(reference_decode(&five).is_none());

    // the long form of a length that the short form holds
    let mut short_payload = vec![0xf8, 0x03, 0x01, 0x02, 0x03];
    assert_eq!(
        decode_account(&short_payload).map(|a| fields(&a)),
        Err(DecodeError::NonCanonical)
    );
    short_payload[0] = 0xf9;
    assert_eq!(
        decode_account(&short_payload).map(|a| fields(&a)),
        Err(DecodeError::Truncated)
    );

    // a list in place of a field
    let mut payload = vec![0xc0, 0x80, 0xa0];
    payload.extend_from_slice(&[0x11; 32]);
    payload.push(0xa0);
    payload.extend_from_slice(&[0x22; 32]);
    let mut list_field = vec![0xf8, payload.len() as u8];
    list_field.extend_from_slice(&payload);
    assert_eq!(decode_account(&list_field).map(|a| fields(&a)), Err(DecodeError::UnexpectedKind));
}

#[test]
fn account_decoder_agrees_with_reference_on_mutations() {
    let good = encoded(0x1234, &word(0xabcdef), &[0x11; 32], &[0x22; 32]);
    for position in 0..6 {
        for byte in 0..=255u8 {
            let mut bytes = good.clone();
            bytes[position] = byte;
            let ours = decode_account(&bytes).ok().map(|a| {
                (a.nonce, trimmed(&a.balance), a.storage_root, a.code_hash)
            });
            assert_eq!(ours, reference_decode(&bytes), "position {} byte {}", position, byte);
        }
    }
}

#[test]
fn storage_values() {
    assert_eq!(decode_storage_value(&[0x00]), Ok(word(0)));
    assert_eq!(decode_storage_value(&[0x01]), Ok(word(1)));
    assert_eq!(decode_storage_value(&[0x7f]), Ok(word(0x7f)));
    assert_eq!(decode_storage_value(&[0x80]), Ok(word(0)));
    assert_eq!(decode_storage_value(&[0x81, 0x80]), Ok(word(0x80)));
    assert_eq!(decode_storage_value(&[0x82, 0x01, 0x00]), Ok(word(256)));
    let mut full = vec![0xa0];
    full.extend_from_slice(&[0xff; 32]);
    assert_eq!(decode_storage_value(&full), Ok([0xff; 32]));
}

#[test]
fn storage_value_errors() {
    assert_eq!(decode_storage_value(&[]), Err(DecodeError::Empty));
    assert_eq!(decode_storage_value(&[0x81, 0x05]), Err(DecodeError::NonCanonical));
    assert_eq!(decode_storage_value(&[0x82, 0x00, 0x01]), Err(DecodeError::NonCanonical));
    assert_eq!(decode_storage_value(&[0x82, 0x01]), Err(DecodeError::Truncated));
    assert_eq!(decode_storage_value(&[0x01, 0x02]), Err(DecodeError::TrailingBytes));
    assert_eq!(decode_storage_value(&[0x81, 0x80, 0x00]), Err(DecodeError::TrailingBytes));
    assert_eq!(decode_storage_value(&[0xc0]), Err(DecodeError::UnexpectedKind));
    let mut wide = vec![0xa1];
    wide.extend_from_slice(&[0x01; 33]);
    assert_eq!(decode_storage_value(&wide), Err(DecodeError::WrongLength));
}

#[test]
fn byte_helpers() {
    assert!(bytes_eq(&[], &[]));
    assert!(bytes_eq(&[1, 2, 3], &[1, 2, 3]));
    assert!(!bytes_eq(&[1, 2, 3], &[1, 2, 4]));
    assert!(!bytes_eq(&[1, 2], &[1, 2, 3]));
    assert_eq!(left_pad_32(&[]), [0u8; 32]);
    assert_eq!(left_pad_32(&[0x12, 0x34]), word(0x1234));
    assert_eq!(left_pad_32(&[0xee; 32]), [0xee; 32]);
}
