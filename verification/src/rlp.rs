//! Recursive-length-prefix decoding of trie nodes.
//!
//! A node is a list of byte strings. The decoder reads one length prefix at a
//! time and checks every announced length against the bytes that are there.

use vstd::prelude::*;
use vstd::slice::slice_to_vec;
use crate::bytes::{
    be_nat,
    lemma_minimal_be_denotes,
    lemma_minimal_be_of_word,
    lemma_minimal_be_unique,
    lemma_word_holds,
    minimal_be,
    word_bytes,
};
use crate::error::DecodeError;

verus! {

/// What a length prefix says of the item it starts.
pub struct RlpHeader {
    /// The item is a list.
    pub list: bool,
    /// Where the payload starts, counted from the prefix byte.
    pub offset: nat,
    /// How many bytes the payload has.
    pub len: nat,
}

/// The header that the long form of a prefix announces: `n` length bytes
/// follow the prefix byte, and then the payload.
pub open spec fn rlp_long_header(data: Seq<u8>, n: nat, list: bool) -> Result<RlpHeader, DecodeError> {
    let len = be_nat(data.subrange(1, 1 + n as int));
    if data.len() < 1 + n {
        Err(DecodeError::Truncated)
    } else if n > word_bytes() {
        Err(DecodeError::LengthTooLarge)
    } else if data.len() < 1 + n + len {
        Err(DecodeError::Truncated)
    } else {
        Ok(RlpHeader { list, offset: 1 + n, len })
    }
}

/// The header of the item that starts `data`.
pub open spec fn rlp_header(data: Seq<u8>) -> Result<RlpHeader, DecodeError> {
    if data.len() == 0 {
        Err(DecodeError::Empty)
    } else {
        let prefix = data[0];
        if prefix <= 0x7f {
            Ok(RlpHeader { list: false, offset: 0, len: 1 })
        } else if prefix <= 0xb7 {
            if data.len() < 1 + (prefix - 0x80) {
                Err(DecodeError::Truncated)
            } else {
                Ok(RlpHeader { list: false, offset: 1, len: (prefix - 0x80) as nat })
            }
        } else if prefix <= 0xbf {
            rlp_long_header(data, (prefix - 0xb7) as nat, false)
        } else if prefix <= 0xf7 {
            if data.len() < 1 + (prefix - 0xc0) {
                Err(DecodeError::Truncated)
            } else {
                Ok(RlpHeader { list: true, offset: 1, len: (prefix - 0xc0) as nat })
            }
        } else {
            rlp_long_header(data, (prefix - 0xf7) as nat, true)
        }
    }
}

/// The bytes that the item at the start of `data` hands to its reader, and the
/// number of bytes it takes up. A byte string hands over its payload, a list
/// its whole encoding, prefix included.
pub open spec fn rlp_item(data: Seq<u8>) -> Result<(Seq<u8>, nat), DecodeError> {
    match rlp_header(data) {
        Err(e) => Err(e),
        Ok(h) => Ok(
            (
                data.subrange(if h.list { 0 } else { h.offset as int }, (h.offset + h.len) as int),
                h.offset + h.len,
            ),
        ),
    }
}

/// The items that lie one behind the other in `payload`.
pub open spec fn rlp_items(payload: Seq<u8>) -> Result<Seq<Seq<u8>>, DecodeError>
    decreases payload.len(),
{
    if payload.len() == 0 {
        Ok(Seq::empty())
    } else {
        match rlp_item(payload) {
            Err(e) => Err(e),
            Ok((item, used)) => match rlp_items(payload.skip(used as int)) {
                Err(e) => Err(e),
                Ok(rest) => Ok(seq![item] + rest),
            },
        }
    }
}

/// The items of the list that `data` encodes. The outermost prefix is read
/// for its length alone, so a byte string's payload is split into items like
/// a list's. No bytes at all count as the empty list; bytes behind the list
/// are not looked at.
pub open spec fn rlp_list(data: Seq<u8>) -> Result<Seq<Seq<u8>>, DecodeError> {
    if data.len() == 0 {
        Ok(Seq::empty())
    } else {
        match rlp_header(data) {
            Err(e) => Err(e),
            Ok(h) => rlp_items(data.subrange(h.offset as int, (h.offset + h.len) as int)),
        }
    }
}

/// No item is longer than the payload it was read from.
pub proof fn lemma_rlp_items_within(payload: Seq<u8>)
    ensures
        rlp_items(payload) matches Ok(items) ==> forall|i: int|
            0 <= i < items.len() ==> (#[trigger] items[i]).len() <= payload.len(),
    decreases payload.len(),
{
    if payload.len() > 0 {
        if let Ok((item, used)) = rlp_item(payload) {
            let tail = payload.skip(used as int);
            lemma_rlp_items_within(tail);
            if let Ok(rest) = rlp_items(tail) {
                let items = seq![item] + rest;
                assert forall|i: int| 0 <= i < items.len() implies (#[trigger] items[i]).len()
                    <= payload.len() by {
                    if i > 0 {
                        assert(items[i] == rest[i - 1]);
                    }
                }
            }
        }
    }
}

/// In a list of two or more items every item is shorter than the list's own
/// encoding, so a node embedded in a node is shorter than the node.
pub proof fn lemma_rlp_list_items_shorter(data: Seq<u8>)
    ensures
        rlp_list(data) matches Ok(items) ==> items.len() >= 2 ==> forall|i: int|
            0 <= i < items.len() ==> (#[trigger] items[i]).len() < data.len(),
{
    if data.len() > 0 {
        if let Ok(h) = rlp_header(data) {
            let payload = data.subrange(h.offset as int, (h.offset + h.len) as int);
            lemma_rlp_items_within(payload);
            if data[0] <= 0x7f {
                assert(rlp_items(payload.skip(1)) == Ok::<Seq<Seq<u8>>, DecodeError>(Seq::empty()));
            }
        }
    }
}

/// The byte strings that a vector of vectors holds.
pub open spec fn views(items: Seq<Vec<u8>>) -> Seq<Seq<u8>> {
    Seq::new(items.len(), |i: int| items[i]@)
}

/// Reads `bytes` as a big-endian length.
///
/// Fails with `LengthTooLarge` exactly when there are more bytes than a
/// machine word has.
pub fn bytes_to_usize(bytes: &[u8]) -> (r: Result<usize, DecodeError>)
    ensures
        bytes@.len() > word_bytes() ==> r == Err::<usize, DecodeError>(DecodeError::LengthTooLarge),
        bytes@.len() <= word_bytes() ==> r == Ok::<usize, DecodeError>(be_nat(bytes@) as usize)
            && be_nat(bytes@) <= usize::MAX,
{
    if bytes.len() > (usize::BITS / 8) as usize {
        return Err(DecodeError::LengthTooLarge);
    }
    let mut result: usize = 0;
    let mut i: usize = 0;
    while i < bytes.len()
        invariant
            i <= bytes.len(),
            bytes@.len() <= word_bytes(),
            result == be_nat(bytes@.take(i as int)),
        decreases bytes.len() - i,
    {
        proof {
            let next = bytes@.take(i + 1);
            assert(next.drop_last() == bytes@.take(i as int));
            lemma_word_holds(next);
        }
        result = result * 256 + bytes[i] as usize;
        i += 1;
    }
    proof {
        assert(bytes@.take(i as int) == bytes@);
        lemma_word_holds(bytes@);
    }
    Ok(result)
}

/// Splits the item at the start of `data` into its payload and the number of
/// bytes that the item takes up, prefix included.
///
/// Fails exactly where `rlp_header` does: on no input, on a prefix that
/// announces more than is there, and on a length field wider than a word.
pub fn decode_rlp_length(data: &[u8]) -> (r: Result<(&[u8], usize), DecodeError>)
    ensures
        match rlp_header(data@) {
            Err(e) => r == Err::<(&[u8], usize), DecodeError>(e),
            Ok(h) => r matches Ok((payload, total))
                && payload@ == data@.subrange(h.offset as int, (h.offset + h.len) as int)
                && total == h.offset + h.len,
        },
{
    if data.len() == 0 {
        return Err(DecodeError::Empty);
    }
    let prefix = data[0];
    if prefix <= 0x7f {
        Ok((&data[0..1], 1))
    } else if prefix <= 0xb7 {
        let len = (prefix - 0x80) as usize;
        if data.len() - 1 < len {
            return Err(DecodeError::Truncated);
        }
        Ok((&data[1..1 + len], 1 + len))
    } else if prefix <= 0xbf {
        decode_long_payload(data, (prefix - 0xb7) as usize, false)
    } else if prefix <= 0xf7 {
        let len = (prefix - 0xc0) as usize;
        if data.len() - 1 < len {
            return Err(DecodeError::Truncated);
        }
        Ok((&data[1..1 + len], 1 + len))
    } else {
        decode_long_payload(data, (prefix - 0xf7) as usize, true)
    }
}

/// The payload behind a long-form prefix with `n` length bytes.
fn decode_long_payload(data: &[u8], n: usize, list: bool) -> (r: Result<(&[u8], usize), DecodeError>)
    requires
        1 <= n <= 8,
    ensures
        match rlp_long_header(data@, n as nat, list) {
            Err(e) => r == Err::<(&[u8], usize), DecodeError>(e),
            Ok(h) => r matches Ok((payload, total))
                && payload@ == data@.subrange(h.offset as int, (h.offset + h.len) as int)
                && total == h.offset + h.len,
        },
{
    if data.len() < 1 + n {
        return Err(DecodeError::Truncated);
    }
    let len = bytes_to_usize(&data[1..1 + n])?;
    if data.len() - 1 - n < len {
        return Err(DecodeError::Truncated);
    }
    Ok((&data[1 + n..1 + n + len], 1 + n + len))
}

/// Decodes the item at the start of `data`: the bytes it hands to its reader
/// and the number of bytes it takes up. A byte string hands over its payload,
/// a list its whole encoding.
pub fn decode_rlp_item(data: &[u8]) -> (r: Result<(Vec<u8>, usize), DecodeError>)
    ensures
        match rlp_item(data@) {
            Err(e) => r == Err::<(Vec<u8>, usize), DecodeError>(e),
            Ok((item, used)) => r matches Ok((bytes, n)) && bytes@ == item && n == used,
        },
{
    if data.len() == 0 {
        return Err(DecodeError::Empty);
    }
    let list = data[0] >= 0xc0;
    let (payload, total) = decode_rlp_length(data)?;
    if list {
        Ok((slice_to_vec(&data[0..total]), total))
    } else {
        Ok((slice_to_vec(payload), total))
    }
}

/// Decodes a trie node into its items. The outermost prefix is read for its
/// length alone. No bytes at all give the empty list; bytes behind the list
/// are not looked at.
pub fn decode_rlp_list(data: &[u8]) -> (r: Result<Vec<Vec<u8>>, DecodeError>)
    ensures
        match rlp_list(data@) {
            Err(e) => r == Err::<Vec<Vec<u8>>, DecodeError>(e),
            Ok(items) => r matches Ok(v) && views(v@) == items,
        },
{
    if data.len() == 0 {
        let empty: Vec<Vec<u8>> = Vec::new();
        assert(views(empty@) =~= Seq::<Seq<u8>>::empty());
        return Ok(empty);
    }
    let (payload, _) = decode_rlp_length(data)?;
    let mut items: Vec<Vec<u8>> = Vec::new();
    let mut offset: usize = 0;
    assert(payload@.skip(0) == payload@);
    assert(views(items@) =~= Seq::<Seq<u8>>::empty());
    while offset < payload.len()
        invariant
            offset <= payload.len(),
            rlp_list(data@) == rlp_items(payload@),
            match rlp_items(payload@.skip(offset as int)) {
                Err(e) => rlp_items(payload@) == Err::<Seq<Seq<u8>>, DecodeError>(e),
                Ok(rest) => rlp_items(payload@) == Ok::<Seq<Seq<u8>>, DecodeError>(views(items@) + rest),
            },
        decreases payload.len() - offset,
    {
        let rest = &payload[offset..payload.len()];
        assert(rest@ == payload@.skip(offset as int));
        let (item, used) = decode_rlp_item(rest)?;
        proof {
            assert(rest@.skip(used as int) == payload@.skip(offset + used));
            let tail = rlp_items(rest@.skip(used as int));
            if tail is Ok {
                assert(views(items@.push(item)) + tail->Ok_0 =~= views(items@) + (seq![item@] + tail->Ok_0));
            }
        }
        items.push(item);
        offset += used;
    }
    assert(views(items@) + Seq::<Seq<u8>>::empty() =~= views(items@));
    Ok(items)
}

/// The encoding of a byte string: a byte below `0x80` stands for itself, up to
/// 55 bytes follow a prefix that holds their count, and longer strings follow
/// a prefix that holds the length of their count, and the count.
pub open spec fn rlp_encode_string(payload: Seq<u8>) -> Seq<u8> {
    if payload.len() == 1 && payload[0] < 0x80 {
        payload
    } else if payload.len() <= 55 {
        seq![(0x80 + payload.len()) as u8] + payload
    } else {
        let count = minimal_be(payload.len());
        seq![(0xb7 + count.len()) as u8] + count + payload
    }
}

/// The encoding of a list whose items, already encoded and laid end to end,
/// are `payload`.
pub open spec fn rlp_encode_list(payload: Seq<u8>) -> Seq<u8> {
    if payload.len() <= 55 {
        seq![(0xc0 + payload.len()) as u8] + payload
    } else {
        let count = minimal_be(payload.len());
        seq![(0xf7 + count.len()) as u8] + count + payload
    }
}

/// The encoding of an unsigned integer: that of its shortest big-endian bytes.
pub open spec fn rlp_encode_uint(n: nat) -> Seq<u8> {
    rlp_encode_string(minimal_be(n))
}

/// Whether the header `h` of the item at the start of `data` is the shortest
/// that announces its payload: no prefix before a single byte below `0x80`,
/// and the long form, without a zero byte in front of the count, only for 56
/// bytes and more.
pub open spec fn canonical_header(data: Seq<u8>, h: RlpHeader) -> bool {
    let prefix = data[0];
    if prefix <= 0x7f {
        true
    } else if prefix <= 0xb7 {
        !(h.len == 1 && data[1] < 0x80)
    } else if prefix <= 0xbf {
        data[1] != 0 && h.len >= 56
    } else if prefix <= 0xf7 {
        true
    } else {
        data[1] != 0 && h.len >= 56
    }
}

/// The header of the item that starts `data`, where it is canonical.
pub open spec fn strict_header(data: Seq<u8>) -> Result<RlpHeader, DecodeError> {
    match rlp_header(data) {
        Err(e) => Err(e),
        Ok(h) => if canonical_header(data, h) {
            Ok(h)
        } else {
            Err(DecodeError::NonCanonical)
        },
    }
}

/// An item with a canonical header is the encoding of its payload: no other
/// bytes decode to that payload.
pub proof fn lemma_strict_header_is_encoding(data: Seq<u8>)
    ensures
        strict_header(data) matches Ok(h) ==> {
            let payload = data.subrange(h.offset as int, (h.offset + h.len) as int);
            data.take((h.offset + h.len) as int) == if h.list {
                rlp_encode_list(payload)
            } else {
                rlp_encode_string(payload)
            }
        },
{
    if let Ok(h) = strict_header(data) {
        let payload = data.subrange(h.offset as int, (h.offset + h.len) as int);
        let item = data.take((h.offset + h.len) as int);
        let prefix = data[0];
        if prefix <= 0x7f {
            assert(item =~= payload);
        } else if prefix <= 0xb7 {
            assert(item =~= seq![prefix] + payload);
        } else if prefix <= 0xbf {
            let count = data.subrange(1, h.offset as int);
            lemma_minimal_be_unique(count);
            assert(item =~= seq![prefix] + count + payload);
        } else if prefix <= 0xf7 {
            assert(item =~= seq![prefix] + payload);
        } else {
            let count = data.subrange(1, h.offset as int);
            lemma_minimal_be_unique(count);
            assert(item =~= seq![prefix] + count + payload);
        }
    }
}

/// The header of an encoded byte string announces its payload, whatever
/// follows the encoding.
pub proof fn lemma_header_of_encoded_string(payload: Seq<u8>, rest: Seq<u8>)
    requires
        payload.len() <= usize::MAX,
    ensures
        rlp_item(rlp_encode_string(payload) + rest) == Ok::<(Seq<u8>, nat), DecodeError>(
            (payload, rlp_encode_string(payload).len()),
        ),
        rlp_encode_string(payload).len() > 0,
{
    let encoded = rlp_encode_string(payload);
    let data = encoded + rest;
    if payload.len() == 1 && payload[0] < 0x80 {
        assert(data.subrange(0, 1) =~= payload);
    } else if payload.len() <= 55 {
        assert(data.subrange(1, 1 + payload.len() as int) =~= payload);
    } else {
        let count = minimal_be(payload.len());
        lemma_minimal_be_of_word(payload.len());
        lemma_minimal_be_denotes(payload.len());
        assert(data.subrange(1, 1 + count.len() as int) =~= count);
        assert(data.subrange(
            1 + count.len() as int,
            1 + count.len() as int + payload.len() as int,
        ) =~= payload);
    }
}

/// An encoding is at least as long as what it encodes.
pub proof fn lemma_encoding_is_longer(payload: Seq<u8>)
    ensures
        rlp_encode_string(payload).len() >= payload.len(),
        rlp_encode_list(payload).len() >= payload.len(),
{
}

/// The items of an encoded list are the items in its payload.
pub proof fn lemma_list_of_encoded_list(payload: Seq<u8>)
    requires
        payload.len() <= usize::MAX,
    ensures
        rlp_list(rlp_encode_list(payload)) == rlp_items(payload),
{
    let data = rlp_encode_list(payload);
    if payload.len() <= 55 {
        assert(data.subrange(1, 1 + payload.len() as int) =~= payload);
    } else {
        let count = minimal_be(payload.len());
        lemma_minimal_be_of_word(payload.len());
        lemma_minimal_be_denotes(payload.len());
        assert(data.subrange(1, 1 + count.len() as int) =~= count);
        assert(data.subrange(
            1 + count.len() as int,
            1 + count.len() as int + payload.len() as int,
        ) =~= payload);
    }
}

/// Reading an encoded list as an item gives the whole encoding, whatever
/// follows it.
pub proof fn lemma_item_of_encoded_list(payload: Seq<u8>, rest: Seq<u8>)
    requires
        payload.len() <= usize::MAX,
    ensures
        rlp_item(rlp_encode_list(payload) + rest) == Ok::<(Seq<u8>, nat), DecodeError>(
            (rlp_encode_list(payload), rlp_encode_list(payload).len()),
        ),
        rlp_encode_list(payload).len() > 0,
{
    let encoded = rlp_encode_list(payload);
    let data = encoded + rest;
    if payload.len() > 55 {
        let count = minimal_be(payload.len());
        lemma_minimal_be_of_word(payload.len());
        lemma_minimal_be_denotes(payload.len());
        assert(data.subrange(1, 1 + count.len() as int) =~= count);
    }
    assert(data.subrange(0, encoded.len() as int) =~= encoded);
}

/// The items of an encoded byte string followed by `rest` are the string and
/// the items of `rest`.
pub proof fn lemma_items_after_string(first: Seq<u8>, rest: Seq<u8>)
    requires
        first.len() <= usize::MAX,
    ensures
        rlp_items(rlp_encode_string(first) + rest) == match rlp_items(rest) {
            Err(e) => Err::<Seq<Seq<u8>>, DecodeError>(e),
            Ok(items) => Ok(seq![first] + items),
        },
{
    let encoded = rlp_encode_string(first);
    lemma_header_of_encoded_string(first, rest);
    assert((encoded + rest).skip(encoded.len() as int) =~= rest);
}

/// A list of two encoded byte strings decodes to the two strings.
pub proof fn lemma_list_of_two_strings(first: Seq<u8>, second: Seq<u8>)
    requires
        rlp_encode_list(rlp_encode_string(first) + rlp_encode_string(second)).len() <= usize::MAX,
    ensures
        rlp_list(rlp_encode_list(rlp_encode_string(first) + rlp_encode_string(second))) == Ok::<
            Seq<Seq<u8>>,
            DecodeError,
        >(seq![first, second]),
{
    let a = rlp_encode_string(first);
    let b = rlp_encode_string(second);
    lemma_encoding_is_longer(first);
    lemma_encoding_is_longer(second);
    lemma_encoding_is_longer(a + b);
    lemma_list_of_encoded_list(a + b);
    lemma_items_after_string(first, b);
    lemma_items_after_string(second, Seq::empty());
    assert(b + Seq::<u8>::empty() =~= b);
    assert(rlp_items(Seq::<u8>::empty()) == Ok::<Seq<Seq<u8>>, DecodeError>(Seq::empty()));
    assert(rlp_items(b) == Ok::<Seq<Seq<u8>>, DecodeError>(seq![second] + Seq::empty()));
    assert(seq![first] + (seq![second] + Seq::<Seq<u8>>::empty()) =~= seq![first, second]);
}

/// An encoded byte string has a canonical header that announces its payload,
/// whatever follows the encoding.
pub proof fn lemma_encoded_string_is_canonical(payload: Seq<u8>, rest: Seq<u8>)
    requires
        payload.len() <= usize::MAX,
    ensures
        strict_header(rlp_encode_string(payload) + rest) matches Ok(h) && !h.list && h.offset
            + h.len == rlp_encode_string(payload).len() && (rlp_encode_string(payload)
            + rest).subrange(h.offset as int, (h.offset + h.len) as int) == payload,
{
    let encoded = rlp_encode_string(payload);
    let data = encoded + rest;
    lemma_header_of_encoded_string(payload, rest);
    if payload.len() == 1 && payload[0] < 0x80 {
    } else if payload.len() <= 55 {
        if payload.len() == 1 {
            assert(data[1] == payload[0]);
        }
    } else {
        let count = minimal_be(payload.len());
        lemma_minimal_be_of_word(payload.len());
        lemma_minimal_be_denotes(payload.len());
        assert(data[1] == count[0]);
        assert(data.subrange(1, 1 + count.len() as int) =~= count);
    }
}

/// An encoded list has a canonical header that announces its payload,
/// whatever follows the encoding.
pub proof fn lemma_encoded_list_is_canonical(payload: Seq<u8>, rest: Seq<u8>)
    requires
        payload.len() <= usize::MAX,
    ensures
        strict_header(rlp_encode_list(payload) + rest) matches Ok(h) && h.list && h.offset + h.len
            == rlp_encode_list(payload).len() && (rlp_encode_list(payload) + rest).subrange(
            h.offset as int,
            (h.offset + h.len) as int,
        ) == payload,
{
    let encoded = rlp_encode_list(payload);
    let data = encoded + rest;
    if payload.len() <= 55 {
        assert(data.subrange(1, 1 + payload.len() as int) =~= payload);
    } else {
        let count = minimal_be(payload.len());
        lemma_minimal_be_of_word(payload.len());
        lemma_minimal_be_denotes(payload.len());
        assert(data[1] == count[0]);
        assert(data.subrange(1, 1 + count.len() as int) =~= count);
        assert(data.subrange(
            1 + count.len() as int,
            1 + count.len() as int + payload.len() as int,
        ) =~= payload);
    }
}

} // verus!
