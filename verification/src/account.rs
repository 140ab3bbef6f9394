//! The values that the state trie and the storage tries hold.
//!
//! An account is stored as the RLP list of its nonce, its balance, the root of
//! its storage trie and the hash of its code; a storage slot as the RLP
//! encoding of its value. Both are read strictly: of all the bytes that would
//! decode to a value, only its one canonical encoding is accepted, so that a
//! value has no second spelling.

use vstd::prelude::*;
use crate::bytes::{
    be_nat,
    left_pad_32,
    lemma_be_nat_bound,
    lemma_minimal_be_denotes,
    lemma_minimal_be_len,
    lemma_minimal_be_unique,
    minimal_be,
    no_leading_zero,
    pow256,
};
use crate::error::DecodeError;
use crate::rlp::{
    decode_rlp_length,
    lemma_encoded_list_is_canonical,
    lemma_encoded_string_is_canonical,
    lemma_strict_header_is_encoding,
    rlp_encode_list,
    rlp_encode_string,
    rlp_encode_uint,
    strict_header,
};

verus! {

/// An account as the state trie stores it.
#[derive(Clone, Copy, Debug)]
pub struct AccountState {
    /// The number of transactions sent from the account.
    pub nonce: u64,
    /// The balance, 32 bytes big-endian.
    pub balance: [u8; 32],
    /// The root of the account's storage trie.
    pub storage_root: [u8; 32],
    /// The Keccak-256 digest of the account's code.
    pub code_hash: [u8; 32],
}

/// An account as a value of the model: its numbers and its two hashes.
pub struct AccountFields {
    pub nonce: nat,
    pub balance: nat,
    pub storage_root: Seq<u8>,
    pub code_hash: Seq<u8>,
}

impl View for AccountState {
    type V = AccountFields;

    open spec fn view(&self) -> AccountFields {
        AccountFields {
            nonce: self.nonce as nat,
            balance: be_nat(self.balance@),
            storage_root: self.storage_root@,
            code_hash: self.code_hash@,
        }
    }
}

/// The encoding of an account: the list of its four fields.
pub open spec fn account_rlp(account: AccountFields) -> Seq<u8> {
    rlp_encode_list(
        rlp_encode_uint(account.nonce) + rlp_encode_uint(account.balance) + rlp_encode_string(
            account.storage_root,
        ) + rlp_encode_string(account.code_hash),
    )
}

/// The canonical byte string at the start of `data`: its payload and the
/// number of bytes it takes up.
pub open spec fn strict_string(data: Seq<u8>) -> Result<(Seq<u8>, nat), DecodeError> {
    match strict_header(data) {
        Err(e) => Err(e),
        Ok(h) => if h.list {
            Err(DecodeError::UnexpectedKind)
        } else {
            Ok((data.subrange(h.offset as int, (h.offset + h.len) as int), h.offset + h.len))
        },
    }
}

/// The unsigned integer of at most `width` bytes at the start of `data`, and
/// the number of bytes it takes up. Its bytes are the shortest that denote it.
pub open spec fn strict_uint(data: Seq<u8>, width: nat) -> Result<(nat, nat), DecodeError> {
    match strict_string(data) {
        Err(e) => Err(e),
        Ok((payload, used)) => if payload.len() > width {
            Err(DecodeError::WrongLength)
        } else if !no_leading_zero(payload) {
            Err(DecodeError::NonCanonical)
        } else {
            Ok((be_nat(payload), used))
        },
    }
}

/// The 32-byte hash at the start of `data`, and the number of bytes it takes up.
pub open spec fn strict_hash(data: Seq<u8>) -> Result<(Seq<u8>, nat), DecodeError> {
    match strict_string(data) {
        Err(e) => Err(e),
        Ok((payload, used)) => if payload.len() != 32 {
            Err(DecodeError::WrongLength)
        } else {
            Ok((payload, used))
        },
    }
}

/// The account whose four fields, and nothing else, make up `payload`.
pub open spec fn account_fields(payload: Seq<u8>) -> Result<AccountFields, DecodeError> {
    match strict_uint(payload, 8) {
        Err(e) => Err(e),
        Ok((nonce, a)) => match strict_uint(payload.skip(a as int), 32) {
            Err(e) => Err(e),
            Ok((balance, b)) => match strict_hash(payload.skip((a + b) as int)) {
                Err(e) => Err(e),
                Ok((storage_root, c)) => match strict_hash(payload.skip((a + b + c) as int)) {
                    Err(e) => Err(e),
                    Ok((code_hash, d)) => if a + b + c + d != payload.len() {
                        Err(DecodeError::TrailingBytes)
                    } else {
                        Ok(AccountFields { nonce, balance, storage_root, code_hash })
                    },
                },
            },
        },
    }
}

/// The account that `value` encodes: a canonical list that fills `value` and
/// holds a nonce of at most 8 bytes, a balance of at most 32, and two hashes
/// of 32 bytes each.
pub open spec fn decode_account_spec(value: Seq<u8>) -> Result<AccountFields, DecodeError> {
    match strict_header(value) {
        Err(e) => Err(e),
        Ok(h) => if !h.list {
            Err(DecodeError::UnexpectedKind)
        } else if value.len() != h.offset + h.len {
            Err(DecodeError::TrailingBytes)
        } else {
            account_fields(value.subrange(h.offset as int, (h.offset + h.len) as int))
        },
    }
}

/// The value that the bytes under a storage slot encode: a single byte up to
/// `0x7f` is the value itself, anything else is the canonical encoding of an
/// integer of at most 32 bytes, with nothing behind it.
pub open spec fn storage_value(value: Seq<u8>) -> Result<nat, DecodeError> {
    if value.len() == 1 && value[0] <= 0x7f {
        Ok(value[0] as nat)
    } else {
        match strict_uint(value, 32) {
            Err(e) => Err(e),
            Ok((n, used)) => if used != value.len() {
                Err(DecodeError::TrailingBytes)
            } else {
                Ok(n)
            },
        }
    }
}

/// Reads the canonical header at the start of `data`: whether the item is a
/// list, its payload, and the number of bytes it takes up.
fn decode_strict_header(data: &[u8]) -> (r: Result<(bool, &[u8], usize), DecodeError>)
    ensures
        match strict_header(data@) {
            Err(e) => r == Err::<(bool, &[u8], usize), DecodeError>(e),
            Ok(h) => r matches Ok((list, payload, total)) && list == h.list && payload@
                == data@.subrange(h.offset as int, (h.offset + h.len) as int) && total == h.offset
                + h.len,
        },
{
    let (payload, total) = decode_rlp_length(data)?;
    let prefix = data[0];
    let long = (0xb8 <= prefix && prefix <= 0xbf) || prefix >= 0xf8;
    if long {
        if data[1] == 0 || payload.len() < 56 {
            return Err(DecodeError::NonCanonical);
        }
    } else if 0x80 <= prefix && prefix <= 0xb7 {
        if payload.len() == 1 && payload[0] < 0x80 {
            return Err(DecodeError::NonCanonical);
        }
    }
    Ok((prefix >= 0xc0, payload, total))
}

/// Reads the canonical byte string at the start of `data`.
fn decode_strict_string(data: &[u8]) -> (r: Result<(&[u8], usize), DecodeError>)
    ensures
        match strict_string(data@) {
            Err(e) => r == Err::<(&[u8], usize), DecodeError>(e),
            Ok((payload, used)) => r matches Ok((bytes, n)) && bytes@ == payload && n == used,
        },
{
    let (list, payload, total) = decode_strict_header(data)?;
    if list {
        return Err(DecodeError::UnexpectedKind);
    }
    Ok((payload, total))
}

/// Reads the unsigned integer of at most `width` bytes at the start of `data`
/// and hands back its bytes.
fn decode_strict_uint(data: &[u8], width: usize) -> (r: Result<(&[u8], usize), DecodeError>)
    ensures
        match strict_uint(data@, width as nat) {
            Err(e) => r == Err::<(&[u8], usize), DecodeError>(e),
            Ok((value, used)) => r matches Ok((bytes, n)) && be_nat(bytes@) == value && n == used
                && bytes@.len() <= width && no_leading_zero(bytes@),
        },
{
    let (payload, total) = decode_strict_string(data)?;
    if payload.len() > width {
        return Err(DecodeError::WrongLength);
    }
    if payload.len() > 0 && payload[0] == 0 {
        return Err(DecodeError::NonCanonical);
    }
    Ok((payload, total))
}

/// Reads the 32-byte hash at the start of `data`.
fn decode_strict_hash(data: &[u8]) -> (r: Result<([u8; 32], usize), DecodeError>)
    ensures
        match strict_hash(data@) {
            Err(e) => r == Err::<([u8; 32], usize), DecodeError>(e),
            Ok((hash, used)) => r matches Ok((bytes, n)) && bytes@ == hash && n == used,
        },
{
    let (payload, total) = decode_strict_string(data)?;
    if payload.len() != 32 {
        return Err(DecodeError::WrongLength);
    }
    let hash = left_pad_32(payload);
    assert(hash@ =~= payload@);
    Ok((hash, total))
}

/// The number that at most 8 big-endian bytes denote.
fn be_to_u64(bytes: &[u8]) -> (n: u64)
    requires
        bytes.len() <= 8,
    ensures
        n == be_nat(bytes@),
{
    let mut n: u64 = 0;
    let mut i: usize = 0;
    while i < bytes.len()
        invariant
            i <= bytes.len() <= 8,
            n == be_nat(bytes@.take(i as int)),
        decreases bytes.len() - i,
    {
        proof {
            let next = bytes@.take(i + 1);
            assert(next.drop_last() == bytes@.take(i as int));
            lemma_be_nat_bound(next);
            reveal_with_fuel(pow256, 9);
        }
        n = n * 256 + bytes[i] as u64;
        i += 1;
    }
    assert(bytes@.take(i as int) == bytes@);
    n
}

/// Decodes an account from the value that the state trie holds under its key.
///
/// Succeeds exactly on the canonical encoding of an account and fails with the
/// first fault that reading from left to right meets.
pub fn decode_account(value: &[u8]) -> (r: Result<AccountState, DecodeError>)
    ensures
        match decode_account_spec(value@) {
            Err(e) => r == Err::<AccountState, DecodeError>(e),
            Ok(fields) => r matches Ok(account) && account@ == fields,
        },
{
    let (list, payload, total) = decode_strict_header(value)?;
    if !list {
        return Err(DecodeError::UnexpectedKind);
    }
    if value.len() != total {
        return Err(DecodeError::TrailingBytes);
    }
    let (nonce_bytes, a) = decode_strict_uint(payload, 8)?;
    let rest = &payload[a..payload.len()];
    assert(rest@ == payload@.skip(a as int));
    let (balance_bytes, b) = decode_strict_uint(rest, 32)?;
    let rest = &payload[a + b..payload.len()];
    assert(rest@ == payload@.skip(a + b));
    let (storage_root, c) = decode_strict_hash(rest)?;
    let rest = &payload[a + b + c..payload.len()];
    assert(rest@ == payload@.skip(a + b + c));
    let (code_hash, d) = decode_strict_hash(rest)?;
    if a + b + c + d != payload.len() {
        return Err(DecodeError::TrailingBytes);
    }
    Ok(
        AccountState {
            nonce: be_to_u64(nonce_bytes),
            balance: left_pad_32(balance_bytes),
            storage_root,
            code_hash,
        },
    )
}

/// Decodes the value of a storage slot from the bytes that the storage trie
/// holds under its key, as 32 bytes big-endian.
pub fn decode_storage_value(data: &[u8]) -> (r: Result<[u8; 32], DecodeError>)
    ensures
        match storage_value(data@) {
            Err(e) => r == Err::<[u8; 32], DecodeError>(e),
            Ok(n) => r matches Ok(word) && be_nat(word@) == n,
        },
{
    if data.len() == 1 && data[0] <= 0x7f {
        let word = left_pad_32(data);
        assert(be_nat(data@) == data@[0]) by {
            assert(data@.drop_last() =~= Seq::<u8>::empty());
            reveal_with_fuel(be_nat, 2);
        }
        return Ok(word);
    }
    let (bytes, used) = decode_strict_uint(data, 32)?;
    if used != data.len() {
        return Err(DecodeError::TrailingBytes);
    }
    Ok(left_pad_32(bytes))
}

/// A canonical byte string is the encoding of its payload and lies within
/// the bytes it was read from.
proof fn lemma_strict_string_is_encoding(data: Seq<u8>)
    ensures
        strict_string(data) matches Ok((payload, used)) ==> used <= data.len() && data.take(
            used as int,
        ) == rlp_encode_string(payload),
{
    lemma_strict_header_is_encoding(data);
}

/// A canonical integer is the encoding of its value.
proof fn lemma_strict_uint_is_encoding(data: Seq<u8>, width: nat)
    ensures
        strict_uint(data, width) matches Ok((n, used)) ==> used <= data.len() && data.take(
            used as int,
        ) == rlp_encode_uint(n),
{
    lemma_strict_string_is_encoding(data);
    if let Ok((payload, used)) = strict_string(data) {
        if no_leading_zero(payload) {
            lemma_minimal_be_unique(payload);
        }
    }
}

/// A canonical hash is the encoding of its bytes.
proof fn lemma_strict_hash_is_encoding(data: Seq<u8>)
    ensures
        strict_hash(data) matches Ok((hash, used)) ==> used <= data.len() && data.take(used as int)
            == rlp_encode_string(hash),
{
    lemma_strict_string_is_encoding(data);
}

/// Four fields that fill a payload are the payload.
proof fn lemma_account_fields_are_payload(payload: Seq<u8>)
    ensures
        account_fields(payload) matches Ok(account) ==> payload == rlp_encode_uint(account.nonce)
            + rlp_encode_uint(account.balance) + rlp_encode_string(account.storage_root)
            + rlp_encode_string(account.code_hash),
{
    if let Ok(account) = account_fields(payload) {
        let a = strict_uint(payload, 8)->Ok_0.1;
        let second = payload.skip(a as int);
        let b = strict_uint(second, 32)->Ok_0.1;
        let third = payload.skip((a + b) as int);
        let c = strict_hash(third)->Ok_0.1;
        let fourth = payload.skip((a + b + c) as int);
        let d = strict_hash(fourth)->Ok_0.1;
        lemma_strict_uint_is_encoding(payload, 8);
        lemma_strict_uint_is_encoding(second, 32);
        lemma_strict_hash_is_encoding(third);
        lemma_strict_hash_is_encoding(fourth);
        assert(payload =~= payload.take(a as int) + second.take(b as int) + third.take(c as int)
            + fourth.take(d as int));
    }
}

/// An encoded account has one spelling: bytes that decode to an account are
/// the encoding of that account.
pub proof fn lemma_account_encoding_is_unique(value: Seq<u8>)
    ensures
        decode_account_spec(value) matches Ok(account) ==> value == account_rlp(account),
{
    if let Ok(account) = decode_account_spec(value) {
        let h = strict_header(value)->Ok_0;
        lemma_strict_header_is_encoding(value);
        assert(value.take((h.offset + h.len) as int) == value);
        lemma_account_fields_are_payload(
            value.subrange(h.offset as int, (h.offset + h.len) as int),
        );
    }
}

/// An account that can be written down: a nonce of 64 bits, a balance of 256
/// bits and two hashes of 32 bytes.
pub open spec fn is_account(account: AccountFields) -> bool {
    &&& account.nonce < pow256(8)
    &&& account.balance < pow256(32)
    &&& account.storage_root.len() == 32
    &&& account.code_hash.len() == 32
}

/// An encoded integer of at most `width` bytes is read back as that integer,
/// whatever follows it.
proof fn lemma_uint_round_trip(n: nat, width: nat, rest: Seq<u8>)
    requires
        n < pow256(width),
        width <= 32,
    ensures
        strict_uint(rlp_encode_uint(n) + rest, width) == Ok::<(nat, nat), DecodeError>(
            (n, rlp_encode_uint(n).len()),
        ),
{
    lemma_minimal_be_len(n, width);
    lemma_minimal_be_denotes(n);
    lemma_encoded_string_is_canonical(minimal_be(n), rest);
}

/// An encoded hash is read back as that hash, whatever follows it.
proof fn lemma_hash_round_trip(hash: Seq<u8>, rest: Seq<u8>)
    requires
        hash.len() == 32,
    ensures
        strict_hash(rlp_encode_string(hash) + rest) == Ok::<(Seq<u8>, nat), DecodeError>(
            (hash, rlp_encode_string(hash).len()),
        ),
        rlp_encode_string(hash).len() == 33,
{
    lemma_encoded_string_is_canonical(hash, rest);
}

/// The four encoded fields of an account are read back as the account.
proof fn lemma_fields_round_trip(account: AccountFields)
    requires
        is_account(account),
    ensures
        account_fields(
            rlp_encode_uint(account.nonce) + rlp_encode_uint(account.balance) + rlp_encode_string(
                account.storage_root,
            ) + rlp_encode_string(account.code_hash),
        ) == Ok::<AccountFields, DecodeError>(account),
{
    let n = rlp_encode_uint(account.nonce);
    let b = rlp_encode_uint(account.balance);
    let s = rlp_encode_string(account.storage_root);
    let c = rlp_encode_string(account.code_hash);
    let payload = n + b + s + c;
    lemma_uint_round_trip(account.nonce, 8, b + s + c);
    lemma_uint_round_trip(account.balance, 32, s + c);
    lemma_hash_round_trip(account.storage_root, c);
    lemma_hash_round_trip(account.code_hash, Seq::empty());
    assert(payload =~= n + (b + s + c));
    assert(payload.skip(n.len() as int) =~= b + (s + c));
    assert(b + s + c =~= b + (s + c));
    assert(payload.skip((n.len() + b.len()) as int) =~= s + c);
    assert(payload.skip((n.len() + b.len() + s.len()) as int) =~= c + Seq::<u8>::empty());
}

/// Every account is read back from its encoding: the decoder accepts the
/// encoding of every account and gives the account back.
pub proof fn lemma_account_round_trip(account: AccountFields)
    requires
        is_account(account),
    ensures
        decode_account_spec(account_rlp(account)) == Ok::<AccountFields, DecodeError>(account),
{
    let payload = rlp_encode_uint(account.nonce) + rlp_encode_uint(account.balance)
        + rlp_encode_string(account.storage_root) + rlp_encode_string(account.code_hash);
    lemma_minimal_be_len(account.nonce, 8);
    lemma_minimal_be_len(account.balance, 32);
    lemma_fields_round_trip(account);
    lemma_encoded_list_is_canonical(payload, Seq::empty());
    assert(account_rlp(account) + Seq::<u8>::empty() =~= account_rlp(account));
}

/// A stored value has one spelling: bytes that decode to a storage value are
/// its canonical encoding, or the single zero byte for zero.
pub proof fn lemma_storage_encoding_is_unique(value: Seq<u8>)
    ensures
        storage_value(value) matches Ok(n) ==> value == rlp_encode_uint(n) || (n == 0 && value
            == seq![0u8]),
{
    if let Ok(n) = storage_value(value) {
        if value.len() == 1 && value[0] <= 0x7f {
            if value[0] != 0 {
                lemma_minimal_be_unique(value);
                assert(value.drop_last() =~= Seq::<u8>::empty());
                reveal_with_fuel(be_nat, 2);
            } else {
                assert(value =~= seq![0u8]);
            }
        } else {
            lemma_strict_uint_is_encoding(value, 32);
            assert(value.take(value.len() as int) == value);
        }
    }
}

} // verus!
