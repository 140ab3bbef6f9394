//! The checkpoint from which the light client starts: a block root of 32
//! bytes, written in hexadecimal.

use vstd::prelude::*;
use vstd::string::StringSliceAdditionalSpecFns;
use crate::bytes::left_pad_32;
use crate::error::ConfigError;

verus! {

/// The value of a hexadecimal digit in either case, and `None` for any other
/// byte.
pub open spec fn hex_digit(c: u8) -> Option<u8> {
    if 0x30 <= c <= 0x39 {
        Some((c - 0x30) as u8)
    } else if 0x61 <= c <= 0x66 {
        Some((c - 0x61 + 10) as u8)
    } else if 0x41 <= c <= 0x46 {
        Some((c - 0x41 + 10) as u8)
    } else {
        None
    }
}

/// `text` is an even number of hexadecimal digits.
pub open spec fn is_hex(text: Seq<u8>) -> bool {
    text.len() % 2 == 0 && forall|i: int| 0 <= i < text.len() ==> (#[trigger] hex_digit(
        text[i],
    )) is Some
}

/// The bytes that pairs of hexadecimal digits denote, high digit first.
pub open spec fn hex_bytes(text: Seq<u8>) -> Seq<u8> {
    Seq::new(
        text.len() / 2,
        |i: int| (hex_digit(text[2 * i])->Some_0 * 16 + hex_digit(text[2 * i + 1])->Some_0) as u8,
    )
}

/// Calls `hex::decode`. Trusted: it gives the bytes that the digits denote
/// where `text` is an even number of hexadecimal digits of either case, and
/// fails on every other text.
#[verifier::external_body]
fn hex_decode(text: &[u8]) -> (r: Option<Vec<u8>>)
    ensures
        match r {
            Some(bytes) => is_hex(text@) && bytes@ == hex_bytes(text@),
            None => !is_hex(text@),
        },
{
    hex::decode(text).ok()
}

/// `text` without the `0x` that stands in front of it, however often.
pub open spec fn without_0x(text: Seq<u8>) -> Seq<u8>
    decreases text.len(),
{
    if text.len() >= 2 && text[0] == 0x30 && text[1] == 0x78 {
        without_0x(text.skip(2))
    } else {
        text
    }
}

/// The block root that a text denotes: 64 hexadecimal digits behind any
/// number of `0x`.
pub open spec fn checkpoint_root(text: Seq<u8>) -> Option<Seq<u8>> {
    let digits = without_0x(text);
    if is_hex(digits) && digits.len() == 64 {
        Some(hex_bytes(digits))
    } else {
        None
    }
}

/// Reads a checkpoint: 64 hexadecimal digits of either case, with or without
/// `0x` in front. Any other text is an `InvalidCheckpoint`.
pub fn parse_checkpoint(checkpoint: &str) -> (r: Result<[u8; 32], ConfigError>)
    ensures
        match checkpoint_root(checkpoint.spec_bytes()) {
            Some(root) => r matches Ok(bytes) && bytes@ == root,
            None => r == Err::<[u8; 32], ConfigError>(ConfigError::InvalidCheckpoint),
        },
{
    let text = checkpoint.as_bytes();
    let mut start: usize = 0;
    assert(text@.skip(0) == text@);
    while text.len() - start >= 2 && text[start] == 0x30 && text[start + 1] == 0x78
        invariant
            start <= text.len(),
            without_0x(text@) == without_0x(text@.skip(start as int)),
        decreases text.len() - start,
    {
        assert(text@.skip(start as int).skip(2) == text@.skip(start + 2));
        start += 2;
    }
    let digits = &text[start..text.len()];
    assert(digits@ == text@.skip(start as int));
    match hex_decode(digits) {
        Some(bytes) => {
            if bytes.len() != 32 {
                return Err(ConfigError::InvalidCheckpoint);
            }
            let root = left_pad_32(bytes.as_slice());
            assert(root@ =~= bytes@);
            Ok(root)
        },
        None => Err(ConfigError::InvalidCheckpoint),
    }
}

} // verus!
