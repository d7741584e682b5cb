//! One's-complement sums over big-endian 16-bit words (RFC 1071) and a
//! bounds-checked bulk copy.
use vstd::prelude::*;

verus! {

/// The weight of the byte at offset `i` inside its 16-bit word.
pub open spec fn byte_weight(i: int) -> int {
    if i % 2 == 0 {
        256
    } else {
        1
    }
}

/// The sum of the big-endian 16-bit words of `s`; an odd trailing byte is
/// the high byte of a word padded with zero.
pub open spec fn word_sum(s: Seq<u8>) -> nat
    decreases s.len(),
{
    if s.len() == 0 {
        0
    } else {
        (word_sum(s.drop_last()) + s.last() * byte_weight(s.len() - 1)) as nat
    }
}

/// The residue of `n` in one's-complement 16-bit arithmetic: zero only for
/// zero, and otherwise the representative in `1..=0xffff` modulo `0xffff`.
pub open spec fn fold16(n: nat) -> nat {
    if n == 0 {
        0
    } else {
        ((n - 1) % 65535 + 1) as nat
    }
}

/// The checksum of an accumulated word sum: the complement of its residue.
/// Accumulators are 32 bits wide, so the sum is taken modulo `2^32`.
pub open spec fn checksum_of(n: nat) -> nat {
    (65535 - fold16(n % 0x1_0000_0000)) as nat
}

/// Sum the big-endian 16-bit words of `data` into a wrapping `u32`.
pub fn sum_u16(data: &[u8]) -> (r: u32)
    ensures
        r == word_sum(data@) % 0x1_0000_0000,
{
    sum_u16_scalar(data)
}

/// The word-at-a-time form of [`sum_u16`].
pub fn sum_u16_scalar(data: &[u8]) -> (r: u32)
    ensures
        r == word_sum(data@) % 0x1_0000_0000,
{
    let mut sum: u32 = 0;
    let mut i: usize = 0;
    let n: usize = data.len();
    while i < n && n - i >= 2
        invariant
            i <= n,
            n == data@.len(),
            i % 2 == 0,
            sum == word_sum(data@.take(i as int)) % 0x1_0000_0000,
        decreases n - i,
    {
        proof {
            let a = data@.take(i as int);
            let b = data@.take(i + 1);
            let c = data@.take(i + 2);
            assert(b.drop_last() =~= a);
            assert(c.drop_last() =~= b);
            assert(b.last() == data@[i as int]);
            assert(c.last() == data@[i + 1]);
            assert(word_sum(b) == word_sum(a) + data@[i as int] * 256);
            assert(word_sum(c) == word_sum(b) + data@[i + 1]);
        }
        sum = sum.wrapping_add(data[i] as u32 * 256 + data[i + 1] as u32);
        i += 2;
    }
    if i < n {
        proof {
            assert(data@.drop_last() =~= data@.take(i as int));
        }
        sum = sum.wrapping_add(data[i] as u32 * 256);
    } else {
        assert(data@.take(i as int) =~= data@);
    }
    sum
}

/// Fold a 32-bit accumulator into its 16-bit one's-complement checksum:
/// add carries until none remain, then complement.
pub fn checksum_finalize(acc: u32) -> (r: u16)
    ensures
        r == checksum_of(acc as nat),
        r == 65535 - fold16(acc as nat),
{
    let mut sum: u32 = acc;
    while sum / 65536 != 0
        invariant
            fold16(sum as nat) == fold16(acc as nat),
        decreases sum,
    {
        proof {
            let q = (sum / 65536) as int;
            let r = (sum % 65536) as int;
            assert(sum - 1 == 65535 * q + (q + r - 1));
        }
        sum = sum % 65536 + sum / 65536;
    }
    (65535 - sum) as u16
}

/// One's-complement checksum of `data`, without a pseudo-header.
pub fn u16_checksum(data: &[u8]) -> (r: u16)
    ensures
        r == checksum_of(word_sum(data@)),
{
    checksum_finalize(sum_u16(data))
}

/// Copy the first `dst.len()` bytes of `src` into `dst`.
pub fn copy_exact(src: &[u8], dst: &mut [u8])
    requires
        old(dst)@.len() <= src@.len(),
    ensures
        final(dst)@ == src@.take(old(dst)@.len() as int),
{
    let n: usize = dst.len();
    let mut i: usize = 0;
    while i < n
        invariant
            i <= n,
            n == dst@.len(),
            n <= src@.len(),
            dst@.take(i as int) == src@.take(i as int),
        decreases n - i,
    {
        let ghost before = dst@;
        dst[i] = src[i];
        i += 1;
        assert(dst@.take(i as int) =~= src@.take(i as int)) by {
            assert forall|j: int| 0 <= j < i implies dst@[j] == src@[j] by {
                if j < i - 1 {
                    assert(dst@[j] == before[j]);
                    assert(before.take(i - 1)[j] == src@.take(i - 1)[j]);
                }
            }
        }
    }
    assert(dst@ =~= dst@.take(n as int));
}

/// Appending to an even number of bytes adds the word sums.
pub proof fn law_word_sum_concat(a: Seq<u8>, b: Seq<u8>)
    requires
        a.len() % 2 == 0,
    ensures
        word_sum(a + b) == word_sum(a) + word_sum(b),
    decreases b.len(),
{
    if b.len() == 0 {
        assert(a + b =~= a);
    } else {
        law_word_sum_concat(a, b.drop_last());
        assert((a + b).drop_last() =~= a + b.drop_last());
        assert((a + b).last() == b.last());
    }
}

/// Replacing one byte moves the word sum by the weighted difference.
pub proof fn law_word_sum_update(s: Seq<u8>, i: int, b: u8)
    requires
        0 <= i < s.len(),
    ensures
        word_sum(s.update(i, b)) == word_sum(s) + (b - s[i]) * byte_weight(i),
    decreases s.len(),
{
    let t = s.update(i, b);
    if i == s.len() - 1 {
        assert(t.drop_last() =~= s.drop_last());
        assert(b * byte_weight(i) == s[i] * byte_weight(i) + (b - s[i]) * byte_weight(i))
            by (nonlinear_arith);
    } else {
        law_word_sum_update(s.drop_last(), i, b);
        assert(t.drop_last() =~= s.drop_last().update(i, b));
        assert(t.last() == s.last());
    }
}

/// A word adds at most `0xffff`, so accumulators of inputs up to 128 KiB
/// do not wrap.
pub proof fn law_word_sum_bound(s: Seq<u8>)
    ensures
        word_sum(s) <= (s.len() + 1) / 2 * 65535,
        s.len() % 2 == 1 ==> word_sum(s) <= s.len() / 2 * 65535 + 65280,
    decreases s.len(),
{
    if s.len() > 0 {
        law_word_sum_bound(s.drop_last());
    }
}

/// Adding the checksum of an accumulator to that accumulator folds to
/// zero: the receiver's test of a correct packet.
pub proof fn law_checksum_folds_to_zero(acc: nat)
    requires
        acc + 65535 < 0x1_0000_0000,
    ensures
        checksum_of(acc) <= 65535,
        checksum_of(acc + checksum_of(acc)) == 0,
{
    let c = checksum_of(acc);
    if acc > 0 {
        let q = (acc - 1) / 65535;
        assert(acc + c - 1 == 65535 * q + 65534);
    }
}

/// Storing the checksum into a zeroed field at an even offset makes the
/// sum of the whole, with any pseudo-header sum `pseudo`, fold to zero.
pub proof fn law_stored_checksum_verifies(s: Seq<u8>, at: int, pseudo: nat, c: u16)
    requires
        0 <= at,
        at % 2 == 0,
        at + 1 < s.len(),
        s[at] == 0,
        s[at + 1] == 0,
        pseudo + word_sum(s) + 65535 < 0x1_0000_0000,
        c == checksum_of(pseudo + word_sum(s)),
    ensures
        ({
            let stored = s.update(at, (c / 256) as u8).update(at + 1, (c % 256) as u8);
            &&& word_sum(stored) == word_sum(s) + c
            &&& checksum_of(pseudo + word_sum(stored)) == 0
        }),
{
    let s1 = s.update(at, (c / 256) as u8);
    law_word_sum_update(s, at, (c / 256) as u8);
    law_word_sum_update(s1, at + 1, (c % 256) as u8);
    law_checksum_folds_to_zero(pseudo + word_sum(s));
}

} // verus!
