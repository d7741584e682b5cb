use fds::fuzz::{draw, exercise, run, XorShift64, SEED};
use fds::parse::{ParseError, UdpHeader};

#[test]
fn xorshift64_sequence_is_deterministic() {
    let mut a = XorShift64(SEED);
    let mut b = XorShift64(SEED);
    for _ in 0..1000 {
        assert_eq!(a.next(), b.next());
    }
}

#[test]
fn xorshift_first_number() {
    assert_eq!(XorShift64(1).next(), 0x4082_2041);
    let mut x = XorShift64(SEED);
    for _ in 0..10_000 {
        assert_ne!(x.next(), 0);
    }
}

#[test]
fn fuzz_smoke() {
    assert_eq!(run(10_000), vec!["fuzz: 10000 iters, no panics"]);
}

#[test]
fn progress_is_reported_every_hundred_thousand() {
    assert_eq!(run(0), vec!["fuzz: 0 iters, no panics"]);
    assert_eq!(
        run(100_000),
        vec!["fuzz: 100000 iters", "fuzz: 100000 iters, no panics"]
    );
}

#[test]
fn drawn_inputs_are_short_and_repeatable() {
    let mut a = XorShift64(SEED);
    let mut b = XorShift64(SEED);
    for _ in 0..100 {
        let x = draw(&mut a);
        assert!(x.len() <= 128);
        assert_eq!(x, draw(&mut b));
        assert!(exercise(&x).repeated);
    }
}

#[test]
fn findings_of_a_short_input() {
    let f = exercise(&[0, 53, 0, 54, 0, 9, 0, 0]);
    assert_eq!(f.ipv4, Err(ParseError::Truncated));
    assert_eq!(f.tcp, Err(ParseError::Truncated));
    assert_eq!(f.udp, Ok(UdpHeader { src_port: 53, dst_port: 54, len: 9 }));
    assert_eq!(f.ip_sum, !(53 + 54 + 9));
    assert_eq!(f.udp_sum, !(0x0102 + 0x0304 + 0x0506 + 0x0708 + 17 + 8 + 53 + 54 + 9));
    assert_eq!(f.tcp_sum, !(0x0102 + 0x0304 + 0x0506 + 0x0708 + 6 + 8 + 53 + 54 + 9));
}
