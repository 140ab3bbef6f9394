//! Nibble paths and their hex-prefix encoding.
//!
//! A key is walked four bits at a time. A leaf or extension node stores its
//! part of the path packed two nibbles to a byte, behind a first byte whose
//! high nibble says whether the node is a leaf and whether the path has an odd
//! number of nibbles.

use vstd::prelude::*;
use crate::error::DecodeError;

verus! {

/// The nibbles of `bytes`: for each byte its high four bits, then its low four.
pub open spec fn nibbles_of(bytes: Seq<u8>) -> Seq<u8> {
    Seq::new(
        2 * bytes.len(),
        |i: int|
            if i % 2 == 0 {
                bytes[i / 2] / 16
            } else {
                bytes[i / 2] % 16
            },
    )
}

/// Every element is a nibble, a number from 0 to 15.
pub open spec fn all_nibbles(path: Seq<u8>) -> bool {
    forall|i: int| 0 <= i < path.len() ==> #[trigger] path[i] < 16
}

/// The bytes that an even number of nibbles pack into.
pub open spec fn pack_nibbles(path: Seq<u8>) -> Seq<u8> {
    Seq::new(path.len() / 2, |i: int| (path[2 * i] * 16 + path[2 * i + 1]) as u8)
}

/// The path and the leaf flag that a hex-prefix encoding stands for. The empty
/// encoding stands for the empty path of an extension.
pub open spec fn hp_decode(encoded: Seq<u8>) -> (Seq<u8>, bool) {
    if encoded.len() == 0 {
        (Seq::empty(), false)
    } else {
        let flags = encoded[0] / 16;
        let tail = nibbles_of(encoded.skip(1));
        (
            if flags % 2 == 1 {
                seq![encoded[0] % 16] + tail
            } else {
                tail
            },
            (flags / 2) % 2 == 1,
        )
    }
}

/// The hex-prefix encoding of a path and its leaf flag.
pub open spec fn hp_encode(path: Seq<u8>, leaf: bool) -> Seq<u8> {
    let flags: int = if leaf { 2 } else { 0 };
    if path.len() % 2 == 1 {
        seq![((flags + 1) * 16 + path[0]) as u8] + pack_nibbles(path.skip(1))
    } else {
        seq![(flags * 16) as u8] + pack_nibbles(path)
    }
}

/// Packing nibbles and taking the bytes apart again gives the nibbles back.
pub proof fn lemma_nibbles_of_pack(path: Seq<u8>)
    requires
        path.len() % 2 == 0,
        all_nibbles(path),
    ensures
        nibbles_of(pack_nibbles(path)) == path,
{
    let back = nibbles_of(pack_nibbles(path));
    assert forall|i: int| 0 <= i < path.len() implies back[i] == path[i] by {
        let k = i / 2;
        assert(path[2 * k] < 16 && path[2 * k + 1] < 16);
    }
    assert(back =~= path);
}

/// Decoding an encoded path gives back the path and the flag, whatever the
/// nibbles and whichever the kind of node.
pub proof fn lemma_hp_round_trip(path: Seq<u8>, leaf: bool)
    requires
        all_nibbles(path),
    ensures
        hp_decode(hp_encode(path, leaf)) == (path, leaf),
{
    let encoded = hp_encode(path, leaf);
    if path.len() % 2 == 1 {
        let rest = path.skip(1);
        assert(path[0] < 16);
        assert(all_nibbles(rest)) by {
            assert forall|i: int| 0 <= i < rest.len() implies #[trigger] rest[i] < 16 by {
                assert(path[i + 1] < 16);
            }
        }
        lemma_nibbles_of_pack(rest);
        assert(encoded.skip(1) =~= pack_nibbles(rest));
        assert(seq![path[0]] + rest =~= path);
    } else {
        lemma_nibbles_of_pack(path);
        assert(encoded.skip(1) =~= pack_nibbles(path));
    }
}

/// Expands bytes into nibbles, high nibble first.
pub fn bytes_to_nibbles(bytes: &[u8]) -> (nibbles: Vec<u8>)
    ensures
        nibbles@ == nibbles_of(bytes@),
        all_nibbles(nibbles@),
{
    let mut nibbles: Vec<u8> = Vec::new();
    let mut i: usize = 0;
    while i < bytes.len()
        invariant
            i <= bytes.len(),
            nibbles@ == nibbles_of(bytes@.take(i as int)),
        decreases bytes.len() - i,
    {
        let byte = bytes[i];
        assert(byte >> 4 == byte / 16 && byte & 0x0f == byte % 16) by (bit_vector);
        nibbles.push(byte >> 4);
        nibbles.push(byte & 0x0f);
        i += 1;
        assert(nibbles@ =~= nibbles_of(bytes@.take(i as int)));
    }
    assert(bytes@.take(i as int) == bytes@);
    nibbles
}

/// Decodes a hex-prefix encoded path into its nibbles and its leaf flag.
/// Every input decodes; no input at all is the empty path of an extension.
pub fn decode_hp_path(encoded: &[u8]) -> (r: Result<(Vec<u8>, bool), DecodeError>)
    ensures
        r matches Ok((path, leaf)) && (path@, leaf) == hp_decode(encoded@) && all_nibbles(path@),
{
    if encoded.len() == 0 {
        return Ok((Vec::new(), false));
    }
    let first = encoded[0];
    let flags = first >> 4;
    let is_leaf = flags & 2 != 0;
    let is_odd = flags & 1 != 0;
    assert(first >> 4 == first / 16 && first & 0x0f == first % 16) by (bit_vector);
    assert((flags & 2 != 0) == ((flags / 2) % 2 == 1) && (flags & 1 != 0) == (flags % 2 == 1))
        by (bit_vector);
    let mut path: Vec<u8> = Vec::new();
    if is_odd {
        path.push(first & 0x0f);
    }
    let ghost head = path@;
    let mut i: usize = 1;
    while i < encoded.len()
        invariant
            1 <= i <= encoded.len(),
            path@ == head + nibbles_of(encoded@.subrange(1, i as int)),
        decreases encoded.len() - i,
    {
        let byte = encoded[i];
        assert(byte >> 4 == byte / 16 && byte & 0x0f == byte % 16) by (bit_vector);
        path.push(byte >> 4);
        path.push(byte & 0x0f);
        i += 1;
        assert(path@ =~= head + nibbles_of(encoded@.subrange(1, i as int)));
    }
    assert(encoded@.subrange(1, i as int) == encoded@.skip(1));
    Ok((path, is_leaf))
}

/// Encodes a path and its leaf flag in hex-prefix form.
pub fn encode_hp_path(path: &[u8], is_leaf: bool) -> (encoded: Vec<u8>)
    requires
        all_nibbles(path@),
    ensures
        encoded@ == hp_encode(path@, is_leaf),
        hp_decode(encoded@) == (path@, is_leaf),
{
    let flags: u8 = if is_leaf { 2 } else { 0 };
    let mut encoded: Vec<u8> = Vec::new();
    let mut i: usize = 0;
    if path.len() % 2 == 1 {
        assert(path@[0] < 16);
        encoded.push((flags + 1) * 16 + path[0]);
        i = 1;
    } else {
        encoded.push(flags * 16);
    }
    let ghost head = encoded@;
    let start = i;
    while i < path.len()
        invariant
            start <= i <= path.len(),
            (path.len() - i) % 2 == 0,
            (i - start) % 2 == 0,
            all_nibbles(path@),
            encoded@ == head + pack_nibbles(path@.subrange(start as int, i as int)),
        decreases path.len() - i,
    {
        assert(path@[i as int] < 16 && path@[i + 1] < 16);
        let ghost packed = pack_nibbles(path@.subrange(start as int, i as int));
        encoded.push(path[i] * 16 + path[i + 1]);
        i += 2;
        proof {
            let longer = pack_nibbles(path@.subrange(start as int, i as int));
            assert(longer.len() == packed.len() + 1);
            assert forall|k: int| 0 <= k < packed.len() implies longer[k] == packed[k] by {}
            assert(longer =~= packed.push(longer[packed.len() as int]));
            assert(encoded@ =~= head + longer);
        }
    }
    proof {
        assert(path@.subrange(start as int, i as int) == path@.skip(start as int));
        assert(path@.skip(0) == path@);
        lemma_hp_round_trip(path@, is_leaf);
    }
    encoded
}

/// The nibbles of bytes are nibbles.
pub proof fn lemma_nibbles_of_are_nibbles(bytes: Seq<u8>)
    ensures
        all_nibbles(nibbles_of(bytes)),
{
    assert forall|i: int| 0 <= i < nibbles_of(bytes).len() implies #[trigger] nibbles_of(bytes)[i]
        < 16 by {
        let byte = bytes[i / 2];
        assert(byte / 16 < 16 && byte % 16 < 16);
    }
}

/// Bytes with the same nibbles are the same bytes.
pub proof fn lemma_nibbles_of_injective(a: Seq<u8>, b: Seq<u8>)
    requires
        nibbles_of(a) == nibbles_of(b),
    ensures
        a == b,
{
    assert(a.len() == b.len()) by {
        assert(nibbles_of(a).len() == 2 * a.len());
        assert(nibbles_of(b).len() == 2 * b.len());
    }
    assert forall|i: int| 0 <= i < a.len() implies a[i] == b[i] by {
        assert(nibbles_of(a)[2 * i] == nibbles_of(b)[2 * i]);
        assert(nibbles_of(a)[2 * i + 1] == nibbles_of(b)[2 * i + 1]);
        assert(nibbles_of(a)[2 * i] == a[i] / 16 && nibbles_of(a)[2 * i + 1] == a[i] % 16);
        assert(nibbles_of(b)[2 * i] == b[i] / 16 && nibbles_of(b)[2 * i + 1] == b[i] % 16);
    }
    assert(a =~= b);
}

} // verus!
