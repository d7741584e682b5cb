//! Protocol checksums: IPv4 header, TCP and UDP over IPv4 and IPv6, and
//! the CRC32c of SCTP.
use vstd::prelude::*;
use crate::simd::{checksum_finalize, sum_u16};

verus! {

/// The IPv4 pseudo-header sum: both addresses, the protocol number and the
/// upper-layer length.
pub open spec fn pseudo_v4(src: Seq<u8>, dst: Seq<u8>, proto: nat, len: nat) -> nat {
    crate::simd::word_sum(src) + crate::simd::word_sum(dst) + proto + len
}

/// The IPv6 pseudo-header sum: both addresses, the two halves of the
/// upper-layer length and the next-header number.
pub open spec fn pseudo_v6(src: Seq<u8>, dst: Seq<u8>, next: nat, len: nat) -> nat {
    crate::simd::word_sum(src) + crate::simd::word_sum(dst) + len / 65536 + len % 65536 + next
}

/// IPv4 header checksum (RFC 791) over a header whose checksum field is
/// zero.
pub fn ip_checksum(header: &[u8]) -> (r: u16)
    ensures
        r == crate::simd::checksum_of(crate::simd::word_sum(header@)),
{
    checksum_finalize(sum_u16(header))
}

/// The checksum of `data` added to an accumulated pseudo-header sum.
fn add_words(sum: u32, data: &[u8]) -> (r: u16)
    ensures
        r == crate::simd::checksum_of(sum as nat + crate::simd::word_sum(data@)),
{
    let w: u32 = sum_u16(data);
    let total: u32 = sum.wrapping_add(w);
    proof {
        let n = crate::simd::word_sum(data@);
        let m: nat = 0x1_0000_0000;
        assert(total == (sum + n % m) % m as int);
        assert((sum + n % m) % m as int == (sum + n) % m as int) by {
            vstd::arithmetic::div_mod::lemma_add_mod_noop_right(sum as int, n as int, m as int);
        }
    }
    checksum_finalize(total)
}

/// IPv4 pseudo-header sum: both addresses, protocol and length.
fn ipv4_pseudo_sum(src: [u8; 4], dst: [u8; 4], proto: u8, len: u16) -> (r: u32)
    ensures
        r == pseudo_v4(src@, dst@, proto as nat, len as nat),
{
    proof {
        crate::simd::law_word_sum_bound(src@);
        crate::simd::law_word_sum_bound(dst@);
    }
    let mut sum: u32 = sum_u16(src.as_slice());
    sum = sum.wrapping_add(sum_u16(dst.as_slice()));
    sum = sum.wrapping_add(proto as u32);
    sum.wrapping_add(len as u32)
}

/// TCP checksum with the IPv4 pseudo-header (RFC 793).
pub fn tcp_checksum(src: [u8; 4], dst: [u8; 4], tcp_len: u16, data: &[u8]) -> (r: u16)
    ensures
        r == crate::simd::checksum_of(
            pseudo_v4(src@, dst@, 6, tcp_len as nat) + crate::simd::word_sum(data@),
        ),
{
    let sum: u32 = ipv4_pseudo_sum(src, dst, 6, tcp_len);
    add_words(sum, data)
}

/// UDP checksum with the IPv4 pseudo-header (RFC 768). Always computed,
/// although zero on the wire means "no checksum" on IPv4.
pub fn udp_checksum(src: [u8; 4], dst: [u8; 4], udp_len: u16, data: &[u8]) -> (r: u16)
    ensures
        r == crate::simd::checksum_of(
            pseudo_v4(src@, dst@, 17, udp_len as nat) + crate::simd::word_sum(data@),
        ),
{
    let sum: u32 = ipv4_pseudo_sum(src, dst, 17, udp_len);
    add_words(sum, data)
}

/// IPv6 pseudo-header sum (RFC 2460).
pub fn ipv6_pseudo_sum(src: [u8; 16], dst: [u8; 16], next: u8, len: u32) -> (r: u32)
    ensures
        r == pseudo_v6(src@, dst@, next as nat, len as nat),
{
    proof {
        crate::simd::law_word_sum_bound(src@);
        crate::simd::law_word_sum_bound(dst@);
    }
    let mut sum: u32 = sum_u16(src.as_slice());
    sum = sum.wrapping_add(sum_u16(dst.as_slice()));
    sum = sum.wrapping_add(len / 65536);
    sum = sum.wrapping_add(len % 65536);
    sum.wrapping_add(next as u32)
}

/// TCP checksum with the IPv6 pseudo-header (RFC 2460).
pub fn tcp_checksum_v6(src: [u8; 16], dst: [u8; 16], tcp_len: u32, data: &[u8]) -> (r: u16)
    ensures
        r == crate::simd::checksum_of(
            pseudo_v6(src@, dst@, 6, tcp_len as nat) + crate::simd::word_sum(data@),
        ),
{
    let sum: u32 = ipv6_pseudo_sum(src, dst, 6, tcp_len);
    add_words(sum, data)
}

/// UDP checksum with the IPv6 pseudo-header. The checksum is mandatory on
/// IPv6, so a computed zero is stored as `0xffff`.
pub fn udp_checksum_v6(src: [u8; 16], dst: [u8; 16], udp_len: u32, data: &[u8]) -> (r: u16)
    ensures
        ({
            let c = crate::simd::checksum_of(
                pseudo_v6(src@, dst@, 17, udp_len as nat) + crate::simd::word_sum(data@),
            );
            r == if c == 0 {
                0xffff
            } else {
                c
            }
        }),
{
    let sum: u32 = ipv6_pseudo_sum(src, dst, 17, udp_len);
    let c: u16 = add_words(sum, data);
    if c == 0 {
        0xffff
    } else {
        c
    }
}

/// One step of the reflected Castagnoli shift register.
pub open spec fn crc_bit(c: u32) -> u32 {
    if c & 1u32 != 0 {
        (c >> 1u32) ^ 0x82F6_3B78u32
    } else {
        c >> 1u32
    }
}

/// Eight steps: one input byte.
pub open spec fn crc_byte(c: u32) -> u32 {
    crc_bit(crc_bit(crc_bit(crc_bit(crc_bit(crc_bit(crc_bit(crc_bit(c))))))))
}

/// The shift register after feeding `s` bit by bit into `init`.
pub open spec fn crc_register(init: u32, s: Seq<u8>) -> u32
    decreases s.len(),
{
    if s.len() == 0 {
        init
    } else {
        crc_byte(crc_register(init, s.drop_last()) ^ (s.last() as u32))
    }
}

/// A byte step splits into a table lookup on the low byte and a shift.
proof fn lemma_crc_table_step(x: u32)
    ensures
        crc_byte(x) == crc_byte(x & 0xffu32) ^ (x >> 8u32),
{
    assert(crc_byte(x) == crc_byte(x & 0xffu32) ^ (x >> 8u32)) by (bit_vector);
}

/// CRC32c of an SCTP packet (RFC 3309): all-ones start value, complemented
/// result.
pub fn sctp_checksum(data: &[u8]) -> (r: u32)
    ensures
        r == !crc_register(0xFFFF_FFFF, data@),
{
    crc32c_impl(data)
}

/// The table of byte steps: entry `i` is eight register steps from `i`.
pub fn crc32c_table() -> (table: [u32; 256])
    ensures
        forall|i: int| 0 <= i < 256 ==> table[i] == #[trigger] crc_byte(i as u32),
{
    let mut table: [u32; 256] = [0u32; 256];
    let mut i: usize = 0;
    while i < 256
        invariant
            i <= 256,
            forall|k: int| 0 <= k < i ==> table[k] == #[trigger] crc_byte(k as u32),
        decreases 256 - i,
    {
        let mut crc: u32 = i as u32;
        let mut j: usize = 0;
        let ghost steps = seq![
            crc,
            crc_bit(crc),
            crc_bit(crc_bit(crc)),
            crc_bit(crc_bit(crc_bit(crc))),
            crc_bit(crc_bit(crc_bit(crc_bit(crc)))),
            crc_bit(crc_bit(crc_bit(crc_bit(crc_bit(crc))))),
            crc_bit(crc_bit(crc_bit(crc_bit(crc_bit(crc_bit(crc)))))),
            crc_bit(crc_bit(crc_bit(crc_bit(crc_bit(crc_bit(crc_bit(crc))))))),
            crc_byte(crc),
        ];
        while j < 8
            invariant
                j <= 8,
                steps.len() == 9,
                crc == steps[j as int],
                forall|k: int| 0 <= k < 8 ==> crc_bit(#[trigger] steps[k]) == steps[k + 1],
            decreases 8 - j,
        {
            let ghost at = steps[j as int];
            crc = if crc & 1 != 0 {
                (crc >> 1) ^ 0x82F6_3B78
            } else {
                crc >> 1
            };
            assert(crc == crc_bit(at));
            j += 1;
        }
        table[i] = crc;
        i += 1;
    }
    table
}

/// Table-driven CRC32c, one byte at a time.
fn crc32c_impl(data: &[u8]) -> (r: u32)
    ensures
        r == !crc_register(0xFFFF_FFFF, data@),
{
    let table: [u32; 256] = crc32c_table();
    let mut crc: u32 = 0xFFFF_FFFF;
    let mut i: usize = 0;
    while i < data.len()
        invariant
            i <= data@.len(),
            forall|k: int| 0 <= k < 256 ==> table[k] == #[trigger] crc_byte(k as u32),
            crc == crc_register(0xFFFF_FFFF, data@.take(i as int)),
        decreases data@.len() - i,
    {
        let x: u32 = crc ^ (data[i] as u32);
        let low: u32 = x & 0xff;
        proof {
            assert(data@.take(i + 1).drop_last() =~= data@.take(i as int));
            lemma_crc_table_step(x);
            assert(x & 0xffu32 < 256) by (bit_vector);
            let b = data@[i as int] as u32;
            assert(b < 256 ==> (crc ^ b) >> 8u32 == crc >> 8u32) by (bit_vector);
        }
        crc = table[low as usize] ^ (crc >> 8);
        i += 1;
    }
    assert(data@.take(i as int) =~= data@);
    !crc
}

/// A UDP-over-IPv6 checksum, zero replaced by all ones, still folds the
/// whole datagram to zero.
pub proof fn law_udp_v6_checksum_verifies(acc: nat, c: nat)
    requires
        acc + 65535 < 0x1_0000_0000,
        c == if crate::simd::checksum_of(acc) == 0 {
            0xffff
        } else {
            crate::simd::checksum_of(acc)
        },
    ensures
        c != 0,
        crate::simd::checksum_of(acc + c) == 0,
{
    crate::simd::law_checksum_folds_to_zero(acc);
    if acc > 0 {
        let q = (acc - 1) / 65535;
        assert(acc - 1 == 65535 * q + (acc - 1) % 65535);
        if crate::simd::checksum_of(acc) == 0 {
            assert(acc + 65535 - 1 == 65535 * (q + 1) + 65534);
        }
    }
}

} // verus!
