use fds::parse::{parse_ipv4, parse_ipv6, parse_tcp, parse_udp, ParseError};

fn ipv4_header() -> [u8; 20] {
    [
        0x45, 0x00, 0x00, 0x14, //
        0x12, 0x34, //
        0x40, 0x00, //
        0x40, 0x06, //
        0x00, 0x00, //
        192, 168, 1, 1, //
        10, 0, 0, 1, //
    ]
}

#[test]
fn valid_ipv4() {
    let h = parse_ipv4(&ipv4_header()).unwrap();
    assert_eq!(h.total_len, 20);
    assert_eq!(h.identification, 0x1234);
    assert_eq!(h.flags_fragment, 0x4000);
    assert_eq!(h.ttl, 64);
    assert_eq!(h.protocol, 6);
    assert_eq!(h.src, [192, 168, 1, 1]);
    assert_eq!(h.dst, [10, 0, 0, 1]);
}

#[test]
fn ipv4_truncated() {
    let full = ipv4_header();
    for len in 0..20 {
        assert_eq!(parse_ipv4(&full[..len]), Err(ParseError::Truncated));
    }
}

#[test]
fn ipv4_ihl_beyond_input() {
    let mut input = [0u8; 40];
    input[0] = 0x4F;
    assert_eq!(parse_ipv4(&input), Err(ParseError::BadLength));
}

#[test]
fn ipv4_wrong_version() {
    let mut input = ipv4_header();
    input[0] = 0x65;
    assert_eq!(parse_ipv4(&input), Err(ParseError::BadVersion));
}

fn ipv6_header() -> [u8; 40] {
    let mut h = [0u8; 40];
    h[0] = 0x60;
    h[4..6].copy_from_slice(&20u16.to_be_bytes());
    h[6] = 6;
    h[7] = 64;
    h[8] = 0x20;
    h[9] = 0x01;
    h[10] = 0x0d;
    h[11] = 0xb8;
    h[23] = 1;
    h[24] = 0x20;
    h[25] = 0x01;
    h[26] = 0x0d;
    h[27] = 0xb8;
    h[39] = 2;
    h
}

#[test]
fn valid_ipv6() {
    let h = parse_ipv6(&ipv6_header()).unwrap();
    assert_eq!(h.payload_len, 20);
    assert_eq!(h.next_header, 6);
    assert_eq!(h.hop_limit, 64);
    assert_eq!(h.src[0], 0x20);
    assert_eq!(h.src[15], 1);
    assert_eq!(h.dst[15], 2);
}

#[test]
fn ipv6_truncated() {
    let full = ipv6_header();
    for len in 0..40 {
        assert_eq!(parse_ipv6(&full[..len]), Err(ParseError::Truncated));
    }
}

#[test]
fn ipv6_wrong_version() {
    let mut input = ipv6_header();
    input[0] = 0x40;
    assert_eq!(parse_ipv6(&input), Err(ParseError::BadVersion));
}

#[test]
fn valid_udp() {
    let mut input = [0u8; 8];
    input[0..2].copy_from_slice(&0x1234u16.to_be_bytes());
    input[2..4].copy_from_slice(&0x0035u16.to_be_bytes());
    input[4..6].copy_from_slice(&0x0010u16.to_be_bytes());
    let h = parse_udp(&input).unwrap();
    assert_eq!(h.src_port, 0x1234);
    assert_eq!(h.dst_port, 0x0035);
    assert_eq!(h.len, 16);
}

#[test]
fn udp_truncated() {
    let mut input = [0u8; 8];
    input[4..6].copy_from_slice(&8u16.to_be_bytes());
    for len in 0..8 {
        assert_eq!(parse_udp(&input[..len]), Err(ParseError::Truncated));
    }
}

#[test]
fn udp_bad_length() {
    let mut input = [0u8; 8];
    input[4..6].copy_from_slice(&7u16.to_be_bytes());
    assert_eq!(parse_udp(&input), Err(ParseError::BadLength));
}

fn tcp_header() -> [u8; 20] {
    [
        0x1F, 0x90, //
        0x00, 0x50, //
        0x01, 0x02, 0x03, 0x04, //
        0x05, 0x06, 0x07, 0x08, //
        0x50, 0x12, //
        0x20, 0x00, //
        0x00, 0x00, //
        0x00, 0x00, //
    ]
}

#[test]
fn tcp_truncated() {
    let full = tcp_header();
    for len in 0..20 {
        assert_eq!(parse_tcp(&full[..len]), Err(ParseError::Truncated));
    }
}

#[test]
fn tcp_data_offset_beyond_input() {
    let mut input = tcp_header();
    input[12] = 0xF0;
    assert_eq!(parse_tcp(&input), Err(ParseError::BadLength));
}

#[test]
fn valid_tcp_fields() {
    let h = parse_tcp(&tcp_header()).unwrap();
    assert_eq!(h.src_port, 8080);
    assert_eq!(h.dst_port, 80);
    assert_eq!(h.seq, 0x0102_0304);
    assert_eq!(h.ack, 0x0506_0708);
    assert_eq!(h.data_offset, 5);
    assert_eq!(h.flags, 0x12);
    assert_eq!(h.window, 0x2000);
}

#[test]
fn trailing_bytes_do_not_change_a_header() {
    let mut long = ipv4_header().to_vec();
    long.extend_from_slice(&[1, 2, 3, 4, 5]);
    assert_eq!(parse_ipv4(&long), parse_ipv4(&ipv4_header()));
}

#[test]
fn property_sweep() {
    let mut state: u64 = 0x9E3779B97F4A7C15;
    let mut next = || {
        state ^= state << 13;
        state ^= state >> 7;
        state ^= state << 17;
        state
    };
    let mut buf = [0u8; 64];
    for _ in 0..100_000 {
        let len = (next() as usize) % 65;
        for b in &mut buf {
            *b = next() as u8;
        }
        let input = &buf[..len];
        let ip = parse_ipv4(input);
        if len < 20 {
            assert_eq!(ip, Err(ParseError::Truncated));
        }
        assert_eq!(ip, parse_ipv4(input));
        let ip6 = parse_ipv6(input);
        if len < 40 {
            assert_eq!(ip6, Err(ParseError::Truncated));
        }
        assert_eq!(ip6, parse_ipv6(input));
        let ud = parse_udp(input);
        if len < 8 {
            assert_eq!(ud, Err(ParseError::Truncated));
        }
        assert_eq!(ud, parse_udp(input));
        let tc = parse_tcp(input);
        if len < 20 {
            assert_eq!(tc, Err(ParseError::Truncated));
        }
        assert_eq!(tc, parse_tcp(input));
    }
}

#[test]
fn placeholder() {
    let _ = core::mem::size_of::<ParseError>();
}
