//! A deterministic harness that feeds arbitrary byte slices of up to 128
//! bytes to every parser and checksum.
use vstd::prelude::*;
use crate::checksum::{ip_checksum, sctp_checksum, tcp_checksum, udp_checksum};
use crate::order;
use crate::parse::{
    parse_ipv4, parse_tcp, parse_udp, Ipv4Header, ParseError, TcpHeader, UdpHeader,
};
use crate::text;

verus! {

/// Progress-report cadence (iterations).
pub const PROGRESS_EVERY: u64 = 100000;

/// Maximum input length (inclusive).
pub const MAX_LEN: usize = 128;

/// The fixed seed, not zero.
pub const SEED: u64 = 0x9E37_79B9_7F4A_7C15;

/// A xorshift generator with shifts 13, 7 and 17.
pub struct XorShift64(pub u64);

/// The generator's step.
pub open spec fn xorshift(x: u64) -> u64 {
    let a = x ^ (x << 13);
    let b = a ^ (a >> 7);
    b ^ (b << 17)
}

/// The state after `n` steps.
pub open spec fn stepped(x: u64, n: nat) -> u64
    decreases n,
{
    if n == 0 {
        x
    } else {
        xorshift(stepped(x, (n - 1) as nat))
    }
}

impl XorShift64 {
    /// The next number.
    pub fn next(&mut self) -> (r: u64)
        ensures
            r == xorshift(old(self).0),
            final(self).0 == r,
    {
        let mut x: u64 = self.0;
        x = x ^ (x << 13);
        x = x ^ (x >> 7);
        x = x ^ (x << 17);
        self.0 = x;
        x
    }
}

/// The generator never falls into zero, where it would stay.
pub proof fn law_xorshift_stays_nonzero(x: u64)
    requires
        x != 0,
    ensures
        xorshift(x) != 0,
{
    let a = x ^ (x << 13);
    assert(x ^ (x << 13) != 0) by (bit_vector)
        requires
            x != 0,
    ;
    let b = a ^ (a >> 7);
    assert(a ^ (a >> 7) != 0) by (bit_vector)
        requires
            a != 0,
    ;
    assert(b ^ (b << 17) != 0) by (bit_vector)
        requires
            b != 0,
    ;
}

/// The length of an input, from the first number of its round.
pub open spec fn input_len(x: u64) -> nat {
    (x % 129) as nat
}

/// The input of the round that starts at generator state `x`: a length and
/// 128 bytes are drawn, and the input is the front of the bytes.
pub open spec fn round_input(x: u64) -> Seq<u8> {
    Seq::new(input_len(stepped(x, 1)), |i: int| stepped(x, (i + 2) as nat) as u8)
}

/// Draw the input of one round.
pub fn draw(rng: &mut XorShift64) -> (v: Vec<u8>)
    ensures
        v@ == round_input(old(rng).0),
        final(rng).0 == stepped(old(rng).0, 129),
{
    let ghost x = rng.0;
    reveal_with_fuel(stepped, 2);
    let n: u64 = rng.next();
    let len: usize = (n % (MAX_LEN as u64 + 1)) as usize;
    let mut buf: Vec<u8> = Vec::new();
    let mut i: usize = 0;
    while i < MAX_LEN
        invariant
            i <= MAX_LEN,
            buf@ == Seq::new(i as nat, |j: int| stepped(x, (j + 2) as nat) as u8),
            rng.0 == stepped(x, (i + 1) as nat),
        decreases MAX_LEN - i,
    {
        let b: u64 = rng.next();
        buf.push((b % 256) as u8);
        assert((b % 256) as u8 == b as u8) by (bit_vector);
        i += 1;
        assert(buf@ =~= Seq::new(i as nat, |j: int| stepped(x, (j + 2) as nat) as u8));
    }
    buf.truncate(len);
    assert(buf@ =~= round_input(x));
    buf
}

/// What the parsers and checksums gave for one input.
pub struct Findings {
    pub ipv4: Result<Ipv4Header, ParseError>,
    pub udp: Result<UdpHeader, ParseError>,
    pub tcp: Result<TcpHeader, ParseError>,
    pub ip_sum: u16,
    pub udp_sum: u16,
    pub tcp_sum: u16,
    pub sctp_sum: u32,
    /// Whether every parser gave the same result a second time.
    pub repeated: bool,
}

/// The IPv4 checksum with the pseudo-header of the harness's addresses.
pub open spec fn harness_sum(proto: nat, s: Seq<u8>) -> nat {
    crate::simd::checksum_of(
        crate::checksum::pseudo_v4(seq![1u8, 2, 3, 4], seq![5u8, 6, 7, 8], proto, s.len())
            + crate::simd::word_sum(s),
    )
}

/// Whether two IPv4 results are the same.
fn same_ipv4(a: &Result<Ipv4Header, ParseError>, b: &Result<Ipv4Header, ParseError>) -> (r: bool)
    ensures
        r == match (*a, *b) {
            (Ok(x), Ok(y)) => x.total_len == y.total_len && x.identification == y.identification
                && x.flags_fragment == y.flags_fragment && x.ttl == y.ttl && x.protocol
                == y.protocol && x.src@ == y.src@ && x.dst@ == y.dst@,
            (Err(x), Err(y)) => x == y,
            _ => false,
        },
{
    match (a, b) {
        (Ok(x), Ok(y)) => {
            let same = x.total_len == y.total_len && x.identification == y.identification
                && x.flags_fragment == y.flags_fragment && x.ttl == y.ttl && x.protocol
                == y.protocol && same_address(&x.src, &y.src) && same_address(&x.dst, &y.dst);
            same
        },
        (Err(x), Err(y)) => *x == *y,
        _ => false,
    }
}

fn same_address(a: &[u8; 4], b: &[u8; 4]) -> (r: bool)
    ensures
        r == (a@ == b@),
{
    let same = a[0] == b[0] && a[1] == b[1] && a[2] == b[2] && a[3] == b[3];
    assert(same ==> a@ =~= b@);
    same
}

fn same_udp(a: &Result<UdpHeader, ParseError>, b: &Result<UdpHeader, ParseError>) -> (r: bool)
    ensures
        r == (*a == *b),
{
    match (a, b) {
        (Ok(x), Ok(y)) => *x == *y,
        (Err(x), Err(y)) => *x == *y,
        _ => false,
    }
}

fn same_tcp(a: &Result<TcpHeader, ParseError>, b: &Result<TcpHeader, ParseError>) -> (r: bool)
    ensures
        r == (*a == *b),
{
    match (a, b) {
        (Ok(x), Ok(y)) => *x == *y,
        (Err(x), Err(y)) => *x == *y,
        _ => false,
    }
}

/// Feed one input to every parser, twice, and to every checksum. Each
/// parser gives the same result both times.
pub fn exercise(data: &[u8]) -> (f: Findings)
    requires
        data@.len() <= 0xffff,
    ensures
        match f.ipv4 {
            Ok(h) => crate::parse::ipv4_error(data@) is None && crate::parse::ipv4_fields(data@, h),
            Err(e) => crate::parse::ipv4_error(data@) == Some(e),
        },
        f.udp == match crate::parse::udp_error(data@) {
            Some(e) => Err::<UdpHeader, ParseError>(e),
            None => Ok(crate::parse::udp_of(data@)),
        },
        f.tcp == match crate::parse::tcp_error(data@) {
            Some(e) => Err::<TcpHeader, ParseError>(e),
            None => Ok(crate::parse::tcp_of(data@)),
        },
        f.ip_sum == crate::simd::checksum_of(crate::simd::word_sum(data@)),
        f.udp_sum == harness_sum(17, data@),
        f.tcp_sum == harness_sum(6, data@),
        f.sctp_sum == !crate::checksum::crc_register(0xFFFF_FFFF, data@),
        f.repeated,
{
    let n: u16 = data.len() as u16;
    let src: [u8; 4] = [1, 2, 3, 4];
    let dst: [u8; 4] = [5, 6, 7, 8];
    assert(src@ =~= seq![1u8, 2, 3, 4]);
    assert(dst@ =~= seq![5u8, 6, 7, 8]);
    let ipv4 = parse_ipv4(data);
    let ipv4_again = parse_ipv4(data);
    let udp = parse_udp(data);
    let udp_again = parse_udp(data);
    let tcp = parse_tcp(data);
    let tcp_again = parse_tcp(data);
    let repeated = same_ipv4(&ipv4, &ipv4_again) && same_udp(&udp, &udp_again) && same_tcp(
        &tcp,
        &tcp_again,
    );
    Findings {
        ipv4,
        udp,
        tcp,
        ip_sum: ip_checksum(data),
        udp_sum: udp_checksum(src, dst, n, data),
        tcp_sum: tcp_checksum(src, dst, n, data),
        sctp_sum: sctp_checksum(data),
        repeated,
    }
}

/// The lines that a run of `n` iterations reports as progress.
pub open spec fn progress_lines(n: nat) -> Seq<Seq<char>>
    decreases n,
{
    if n == 0 {
        Seq::empty()
    } else if n % 100000 == 0 {
        progress_lines((n - 1) as nat).push("fuzz: "@ + text::decimal(n) + " iters"@)
    } else {
        progress_lines((n - 1) as nat)
    }
}

/// Run `iters` iterations from the fixed seed and return the lines to
/// report: one for every `PROGRESS_EVERY` iterations and a final summary.
pub fn run(iters: u64) -> (lines: Vec<String>)
    ensures
        order::texts(lines@) == progress_lines(iters as nat).push(
            "fuzz: "@ + text::decimal(iters as nat) + " iters, no panics"@,
        ),
{
    let mut rng = XorShift64(SEED);
    let mut lines: Vec<String> = Vec::new();
    let mut i: u64 = 0;
    assert(order::texts(lines@) =~= progress_lines(0));
    while i < iters
        invariant
            i <= iters,
            order::texts(lines@) == progress_lines(i as nat),
        decreases iters - i,
    {
        let data = draw(&mut rng);
        let _findings = exercise(data.as_slice());
        i += 1;
        if i % PROGRESS_EVERY == 0 {
            let ghost had = lines@;
            let mut line = "fuzz: ".to_string();
            text::push_num(&mut line, i);
            line.append(" iters");
            lines.push(line);
            assert(order::texts(lines@) =~= order::texts(had).push(line@));
        }
    }
    let ghost had = lines@;
    let mut line = "fuzz: ".to_string();
    text::push_num(&mut line, iters);
    line.append(" iters, no panics");
    lines.push(line);
    assert(order::texts(lines@) =~= order::texts(had).push(line@));
    lines
}

} // verus!
