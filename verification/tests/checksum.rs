use fds::checksum::{
    crc32c_table, ip_checksum, ipv6_pseudo_sum, sctp_checksum, tcp_checksum, tcp_checksum_v6,
    udp_checksum, udp_checksum_v6,
};
use fds::simd::{checksum_finalize, copy_exact, sum_u16, sum_u16_scalar, u16_checksum};

#[test]
fn checksum_ip_checksum_known_vector() {
    let hdr = [
        0x45, 0x00, 0x00, 0x3c, 0x00, 0x00, 0x00, 0x00, 0x40, 0x11, //
        0x00, 0x00, 0xc0, 0xa8, 0x00, 0x01, 0xc0, 0xa8, 0x00, 0x02,
    ];
    let c = ip_checksum(&hdr);
    let sum = sum_u16(&hdr).wrapping_add(c as u32);
    assert_eq!(checksum_finalize(sum), 0, "checksum of header+csum folds to 0");
    assert_eq!(c, 0xf95d);
}

#[test]
fn checksum_udp_checksum_folds_to_zero_with_csum_included() {
    let src = [10, 0, 0, 1];
    let dst = [10, 0, 0, 2];
    let mut udp = [0u8; 8 + 5];
    udp[0..2].copy_from_slice(&1234u16.to_be_bytes());
    udp[2..4].copy_from_slice(&5678u16.to_be_bytes());
    udp[4..6].copy_from_slice(&13u16.to_be_bytes());
    udp[8..].copy_from_slice(b"hello");
    let c = udp_checksum(src, dst, 13, &udp);
    let mut sum = sum_u16(&src).wrapping_add(sum_u16(&dst));
    sum = sum.wrapping_add(17).wrapping_add(13);
    sum = sum.wrapping_add(sum_u16(&udp)).wrapping_add(c as u32);
    assert_eq!(checksum_finalize(sum), 0);
}

#[test]
fn ipv6_udp_checksum_folds_to_zero() {
    let mut src = [0u8; 16];
    let mut dst = [0u8; 16];
    src[15] = 1;
    dst[15] = 2;
    let mut udp = [0u8; 8 + 5];
    udp[0..2].copy_from_slice(&1234u16.to_be_bytes());
    udp[2..4].copy_from_slice(&5678u16.to_be_bytes());
    udp[4..6].copy_from_slice(&13u16.to_be_bytes());
    udp[8..].copy_from_slice(b"hello");
    let c = udp_checksum_v6(src, dst, 13, &udp);
    assert_ne!(c, 0, "IPv6 UDP checksum must not be zero");
    udp[6..8].copy_from_slice(&c.to_be_bytes());
    let mut sum = ipv6_pseudo_sum(src, dst, 17, 13);
    sum = sum.wrapping_add(sum_u16(&udp));
    assert_eq!(checksum_finalize(sum), 0);
}

#[test]
fn ipv6_tcp_checksum_folds_to_zero() {
    let mut src = [0u8; 16];
    let mut dst = [0u8; 16];
    src[15] = 1;
    dst[15] = 2;
    let mut tcp = [0u8; 20];
    tcp[0..2].copy_from_slice(&8080u16.to_be_bytes());
    tcp[2..4].copy_from_slice(&80u16.to_be_bytes());
    tcp[12] = 0x50;
    tcp[13] = 0x02;
    let c = tcp_checksum_v6(src, dst, 20, &tcp);
    tcp[16..18].copy_from_slice(&c.to_be_bytes());
    let mut sum = ipv6_pseudo_sum(src, dst, 6, 20);
    sum = sum.wrapping_add(sum_u16(&tcp));
    assert_eq!(checksum_finalize(sum), 0);
}

#[test]
fn checksum_sctp_checksum_known_vector() {
    assert_eq!(sctp_checksum(b"123456789"), 0xE306_9283);
    assert_eq!(sctp_checksum(b""), 0);
}

#[test]
fn checksum_crc32c_table_is_stable() {
    let table: [u32; 256] = crc32c_table();
    assert_eq!(table[0], 0);
    assert_eq!(table[1], 0xF26B_8303);
}

#[test]
fn scalar_sum_matches_definition() {
    assert_eq!(sum_u16_scalar(b"ab"), 0x6162);
    assert_eq!(sum_u16_scalar(&[0x12, 0x34, 0x56]), 0x1234 + 0x5600);
    assert_eq!(sum_u16_scalar(&[]), 0);
}

#[test]
fn simd_matches_scalar_across_lengths() {
    let mut rng = 0x9E3779B97F4A7C15u64;
    let mut data = vec![0u8; 300];
    for b in data.iter_mut() {
        rng ^= rng << 13;
        rng ^= rng >> 7;
        rng ^= rng << 17;
        *b = (rng >> 32) as u8;
    }
    for len in (0..=300).step_by(7) {
        let s = &data[..len];
        let scalar = sum_u16_scalar(s);
        let fast = sum_u16(s);
        assert_eq!(fast, scalar, "length {len}");
    }
}

#[test]
fn checksum_known_vector() {
    let data = b"hello world";
    let c = u16_checksum(data);
    assert_eq!(c, checksum_finalize(sum_u16_scalar(data)));
    let sum = sum_u16_scalar(data).wrapping_add(c as u32);
    assert_eq!(checksum_finalize(sum), 0);
}

#[test]
fn zero_length_is_safe() {
    assert_eq!(sum_u16(&[]), 0);
    assert_eq!(u16_checksum(&[]), 0xFFFF);
}

#[test]
fn tcp_checksum_of_a_known_segment() {
    let mut tcp = [0u8; 20];
    tcp[0..2].copy_from_slice(&8080u16.to_be_bytes());
    tcp[2..4].copy_from_slice(&80u16.to_be_bytes());
    tcp[12] = 0x50;
    tcp[13] = 0x02;
    let c = tcp_checksum([10, 0, 0, 1], [10, 0, 0, 2], 20, &tcp);
    assert_eq!(c, 0x7C00);
}

#[test]
fn copy_exact_copies_every_byte() {
    let src = [1u8, 2, 3, 4, 5];
    let mut dst = [0u8; 5];
    copy_exact(&src, &mut dst);
    assert_eq!(dst, src);
}

#[test]
fn sctp_checksum_known_vector() {
    assert_eq!(sctp_checksum(b"123456789"), 0xE306_9283);
    assert_eq!(sctp_checksum(b""), 0);
}

#[test]
fn crc32c_table_is_stable() {
    let table: [u32; 256] = crc32c_table();
    assert_eq!(table[0], 0);
    assert_eq!(table[1], 0xF26B_8303);
}
