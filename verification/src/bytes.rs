//! Byte strings as numbers and the comparisons the rest of the crate needs.

use vstd::prelude::*;

verus! {

/// The number that `bytes` denotes when read as a big-endian unsigned integer.
pub open spec fn be_nat(bytes: Seq<u8>) -> nat
    decreases bytes.len(),
{
    if bytes.len() == 0 {
        0
    } else {
        be_nat(bytes.drop_last()) * 256 + bytes.last() as nat
    }
}

/// 256 to the power `n`: one more than the largest number that `n` bytes hold.
pub open spec fn pow256(n: nat) -> nat
    decreases n,
{
    if n == 0 {
        1
    } else {
        256 * pow256((n - 1) as nat)
    }
}

/// The number of bytes in a machine word.
pub open spec fn word_bytes() -> nat {
    (usize::BITS / 8) as nat
}

/// `n` bytes hold a number below `pow256(n)`.
pub proof fn lemma_be_nat_bound(bytes: Seq<u8>)
    ensures
        be_nat(bytes) < pow256(bytes.len()),
    decreases bytes.len(),
{
    if bytes.len() > 0 {
        lemma_be_nat_bound(bytes.drop_last());
    }
}

/// A machine word holds every number that `word_bytes()` bytes denote.
pub proof fn lemma_word_holds(bytes: Seq<u8>)
    requires
        bytes.len() <= word_bytes(),
    ensures
        be_nat(bytes) <= usize::MAX,
{
    lemma_be_nat_bound(bytes);
    lemma_pow256_monotone(bytes.len(), word_bytes());
    reveal_with_fuel(pow256, 9);
    assert(pow256(4) == 0x1_0000_0000);
    assert(pow256(8) == 0x1_0000_0000_0000_0000);
}

/// `pow256` grows with its argument.
pub proof fn lemma_pow256_monotone(a: nat, b: nat)
    requires
        a <= b,
    ensures
        pow256(a) <= pow256(b),
        pow256(a) >= 1,
    decreases b,
{
    if a < b {
        lemma_pow256_monotone(a, (b - 1) as nat);
    } else if a > 0 {
        lemma_pow256_monotone((a - 1) as nat, (b - 1) as nat);
    }
}

/// Whether two byte strings hold the same bytes.
pub fn bytes_eq(a: &[u8], b: &[u8]) -> (same: bool)
    ensures
        same == (a@ == b@),
{
    if a.len() != b.len() {
        return false;
    }
    let mut i: usize = 0;
    while i < a.len()
        invariant
            i <= a.len(),
            a.len() == b.len(),
            forall|k: int| 0 <= k < i ==> a@[k] == b@[k],
        decreases a.len() - i,
    {
        if a[i] != b[i] {
            return false;
        }
        i += 1;
    }
    assert(a@ =~= b@);
    true
}

/// The shortest big-endian encoding of `n`: no byte at all for zero, and no
/// zero byte in front for any other number.
pub open spec fn minimal_be(n: nat) -> Seq<u8>
    decreases n,
{
    if n == 0 {
        Seq::empty()
    } else {
        minimal_be(n / 256).push((n % 256) as u8)
    }
}

/// `bytes` does not start with a zero byte.
pub open spec fn no_leading_zero(bytes: Seq<u8>) -> bool {
    bytes.len() == 0 || bytes[0] != 0
}

/// `count` zero bytes.
pub open spec fn zeros(count: nat) -> Seq<u8> {
    Seq::new(count, |i: int| 0u8)
}

/// The shortest encoding of `n` denotes `n` and has no zero byte in front.
pub proof fn lemma_minimal_be_denotes(n: nat)
    ensures
        be_nat(minimal_be(n)) == n,
        no_leading_zero(minimal_be(n)),
        n > 0 ==> minimal_be(n).len() > 0,
    decreases n,
{
    if n > 0 {
        lemma_minimal_be_denotes(n / 256);
        let head = minimal_be(n / 256);
        assert(minimal_be(n).drop_last() == head);
        if head.len() > 0 {
            assert(minimal_be(n)[0] == head[0]);
        }
    }
}

/// A byte string that starts with a byte other than zero denotes a number
/// other than zero.
pub proof fn lemma_be_nat_positive(bytes: Seq<u8>)
    requires
        bytes.len() > 0,
        bytes[0] != 0,
    ensures
        be_nat(bytes) > 0,
    decreases bytes.len(),
{
    if bytes.len() > 1 {
        assert(bytes.drop_last()[0] == bytes[0]);
        lemma_be_nat_positive(bytes.drop_last());
    }
}

/// A byte string without a zero byte in front is the shortest encoding of the
/// number it denotes.
pub proof fn lemma_minimal_be_unique(bytes: Seq<u8>)
    requires
        no_leading_zero(bytes),
    ensures
        minimal_be(be_nat(bytes)) == bytes,
    decreases bytes.len(),
{
    if bytes.len() > 0 {
        let head = bytes.drop_last();
        lemma_be_nat_positive(bytes);
        if head.len() > 0 {
            assert(head[0] == bytes[0]);
        }
        lemma_minimal_be_unique(head);
        let n = be_nat(bytes);
        assert(n / 256 == be_nat(head) && n % 256 == bytes.last() as nat);
        assert(minimal_be(n) =~= bytes);
    }
}

/// Zero bytes in front do not change the number.
pub proof fn lemma_be_nat_zeros(count: nat, bytes: Seq<u8>)
    ensures
        be_nat(zeros(count) + bytes) == be_nat(bytes),
    decreases bytes.len(),
{
    let padded = zeros(count) + bytes;
    if bytes.len() == 0 {
        assert(padded =~= zeros(count));
        lemma_be_nat_all_zero(count);
    } else {
        assert(padded.drop_last() =~= zeros(count) + bytes.drop_last());
        lemma_be_nat_zeros(count, bytes.drop_last());
    }
}

/// Zero bytes alone denote zero.
pub proof fn lemma_be_nat_all_zero(count: nat)
    ensures
        be_nat(zeros(count)) == 0,
    decreases count,
{
    if count > 0 {
        assert(zeros(count).drop_last() =~= zeros((count - 1) as nat));
        lemma_be_nat_all_zero((count - 1) as nat);
    }
}

/// Byte strings of one length that denote one number are the same.
pub proof fn lemma_be_nat_injective(a: Seq<u8>, b: Seq<u8>)
    requires
        a.len() == b.len(),
        be_nat(a) == be_nat(b),
    ensures
        a == b,
    decreases a.len(),
{
    if a.len() > 0 {
        assert(be_nat(a) / 256 == be_nat(a.drop_last()) && be_nat(a) % 256 == a.last() as nat);
        assert(be_nat(b) / 256 == be_nat(b.drop_last()) && be_nat(b) % 256 == b.last() as nat);
        lemma_be_nat_injective(a.drop_last(), b.drop_last());
        assert(a =~= a.drop_last().push(a.last()));
        assert(b =~= b.drop_last().push(b.last()));
    } else {
        assert(a =~= b);
    }
}

/// Puts zero bytes in front of `bytes` to make a word of 32 bytes, which
/// denotes the same number.
pub fn left_pad_32(bytes: &[u8]) -> (word: [u8; 32])
    requires
        bytes.len() <= 32,
    ensures
        word@ == zeros((32 - bytes.len()) as nat) + bytes@,
        be_nat(word@) == be_nat(bytes@),
{
    let mut word = [0u8; 32];
    let pad = 32 - bytes.len();
    let mut i: usize = 0;
    while i < bytes.len()
        invariant
            i <= bytes.len(),
            pad == 32 - bytes.len(),
            forall|k: int| 0 <= k < pad ==> word@[k] == 0,
            forall|k: int| 0 <= k < i ==> word@[pad + k] == bytes@[k],
        decreases bytes.len() - i,
    {
        word[pad + i] = bytes[i];
        i += 1;
    }
    proof {
        assert(word@ =~= zeros(pad as nat) + bytes@);
        lemma_be_nat_zeros(pad as nat, bytes@);
    }
    word
}

/// A number below `pow256(k)` has a shortest encoding of at most `k` bytes.
pub proof fn lemma_minimal_be_len(n: nat, k: nat)
    requires
        n < pow256(k),
    ensures
        minimal_be(n).len() <= k,
    decreases n,
{
    if n > 0 {
        assert(k > 0);
        lemma_minimal_be_len(n / 256, (k - 1) as nat);
    }
}

/// What a machine word holds has a shortest encoding of at most
/// `word_bytes()` bytes.
pub proof fn lemma_minimal_be_of_word(n: nat)
    requires
        n <= usize::MAX,
    ensures
        minimal_be(n).len() <= word_bytes() <= 8,
{
    reveal_with_fuel(pow256, 9);
    assert(pow256(4) == 0x1_0000_0000);
    assert(pow256(8) == 0x1_0000_0000_0000_0000);
    lemma_minimal_be_len(n, word_bytes());
}

/// The shortest big-endian bytes of `n`.
pub fn minimal_be_bytes(n: u64) -> (bytes: Vec<u8>)
    ensures
        bytes@ == minimal_be(n as nat),
        bytes@.len() <= 8,
    decreases n,
{
    proof {
        reveal_with_fuel(pow256, 9);
        lemma_minimal_be_len(n as nat, 8);
    }
    if n == 0 {
        Vec::new()
    } else {
        let mut bytes = minimal_be_bytes(n / 256);
        bytes.push((n % 256) as u8);
        bytes
    }
}

} // verus!
