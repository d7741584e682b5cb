use fds::checksum::{ip_checksum, tcp_checksum};
use fds::parse::parse_ipv4;
use fds::ustack::{
    is_data, parse_sack, pump, seq_geq, seq_gt, seq_leq, seq_lt, tso_chop, HostAddr, TcpStack,
    TcpState, ETH_LEN, IPV4_LEN, RTO_MIN_US, TCP_LEN,
};

fn mac(n: u8) -> [u8; 6] {
    [n, n, n, n, n, n]
}

fn handshake_v4() -> (TcpStack, TcpStack) {
    let mut srv = TcpStack::new_v4(mac(1), [10, 0, 0, 1], 80);
    let mut cli = TcpStack::new_v4(mac(2), [10, 0, 0, 2], 12345);
    srv.listen();
    cli.connect(mac(1), HostAddr::V4([10, 0, 0, 1]), 80);
    pump(&mut cli, &mut srv, |_| false);
    pump(&mut srv, &mut cli, |_| false);
    pump(&mut cli, &mut srv, |_| false);
    assert!(cli.established(), "client not established");
    assert!(srv.established(), "server not established");
    (srv, cli)
}

#[test]
fn tso_chops_at_mss() {
    let data = vec![0xABu8; 4000];
    let segs = tso_chop(1460, 100, &data);
    assert_eq!(segs.len(), 3);
    assert_eq!(segs[0].0, 100);
    assert_eq!(segs[0].1.len(), 1460);
    assert_eq!(segs[1].0, 100 + 1460);
    assert_eq!(segs[1].1.len(), 1460);
    assert_eq!(segs[2].0, 100 + 2920);
    assert_eq!(segs[2].1.len(), 4000 - 2920);
    assert_eq!(tso_chop(1460, 0, &[]).len(), 0);
}

#[test]
fn seq_wraps() {
    assert!(seq_lt(0xffff_fff0, 16));
    assert!(seq_gt(16, 0xffff_fff0));
    assert!(seq_leq(5, 5));
}

#[test]
fn seq_comparisons_at_equal_numbers() {
    assert!(seq_geq(5, 5));
    assert!(!seq_lt(5, 5));
    assert!(!seq_gt(5, 5));
}

#[test]
fn handshake_and_echo_v4() {
    let (mut srv, mut cli) = handshake_v4();
    let payload = b"hello rack";
    assert_eq!(cli.write(payload), payload.len());
    pump(&mut cli, &mut srv, |_| false);
    pump(&mut srv, &mut cli, |_| false);
    let mut buf = [0u8; 32];
    let n = srv.read(&mut buf);
    assert_eq!(&buf[..n], payload);
    assert_eq!(srv.write(&buf[..n]), n);
    pump(&mut srv, &mut cli, |_| false);
    pump(&mut cli, &mut srv, |_| false);
    let n = cli.read(&mut buf);
    assert_eq!(&buf[..n], payload);
}

#[test]
fn handshake_and_echo_v6() {
    let mut src = [0u8; 16];
    let mut dst = [0u8; 16];
    src[15] = 1;
    dst[15] = 2;
    let mut srv = TcpStack::new_v6(mac(1), src, 80);
    let mut cli = TcpStack::new_v6(mac(2), dst, 12345);
    srv.listen();
    cli.connect(mac(1), HostAddr::V6(src), 80);
    pump(&mut cli, &mut srv, |_| false);
    pump(&mut srv, &mut cli, |_| false);
    pump(&mut cli, &mut srv, |_| false);
    assert!(cli.established() && srv.established());
    assert_eq!(cli.write(b"v6"), 2);
    pump(&mut cli, &mut srv, |_| false);
    pump(&mut srv, &mut cli, |_| false);
    let mut buf = [0u8; 8];
    let n = srv.read(&mut buf);
    assert_eq!(&buf[..n], b"v6");
}

#[test]
fn tso_write_is_mss_segments() {
    let (mut srv, mut cli) = handshake_v4();
    let big = vec![0x5Au8; 4000];
    assert_eq!(cli.write(&big), 4000);
    let mut nframes = 0;
    while let Some(f) = cli.pop_tx() {
        nframes += 1;
        srv.ingest(&f);
    }
    assert!(nframes >= 3, "TSO must emit several MSS segments, got {nframes}");
    pump(&mut srv, &mut cli, |_| false);
    let mut buf = vec![0u8; 4096];
    let n = srv.read(&mut buf);
    assert_eq!(n, 4000);
    assert!(buf[..n].iter().all(|&b| b == 0x5A));
}

#[test]
fn rack_recovers_from_loss() {
    let (mut srv, mut cli) = handshake_v4();
    let payload = vec![0x11u8; 2000];
    assert_eq!(cli.write(&payload), payload.len());
    let mut dropped = 0usize;
    let mut data_seen = 0usize;
    let mut frames = Vec::new();
    while let Some(f) = cli.pop_tx() {
        frames.push(f);
    }
    for f in &frames {
        let is_data = f.len() > ETH_LEN + IPV4_LEN + TCP_LEN + 20;
        if is_data {
            data_seen += 1;
            if data_seen == 1 {
                dropped += 1;
                continue;
            }
        }
        srv.ingest(f);
    }
    assert_eq!(dropped, 1);
    pump(&mut srv, &mut cli, |_| false);
    let t = cli.now_us() + RTO_MIN_US + 1;
    cli.on_timer(t);
    pump(&mut cli, &mut srv, |_| false);
    pump(&mut srv, &mut cli, |_| false);
    let mut buf = vec![0u8; 4096];
    let n = srv.read(&mut buf);
    assert_eq!(n, payload.len(), "RACK/RTO must repair the hole");
    assert_eq!(&buf[..n], payload.as_slice());
}

#[test]
fn sack_blocks_are_read_from_options() {
    let mut opts = vec![1u8, 1, 5, 10];
    opts.extend_from_slice(&100u32.to_be_bytes());
    opts.extend_from_slice(&200u32.to_be_bytes());
    assert_eq!(parse_sack(&opts), vec![(100, 200)]);
    assert!(parse_sack(&[0, 5, 10]).is_empty());
}

#[test]
fn garbage_frames_are_ignored() {
    let (mut srv, _cli) = handshake_v4();
    srv.ingest(&[]);
    srv.ingest(&[0u8; 60]);
    assert!(srv.established());
    assert!(srv.pop_tx().is_none());
}

#[test]
fn the_clock_is_set_from_outside() {
    let mut s = TcpStack::new_v4(mac(1), [10, 0, 0, 1], 80);
    assert_eq!(s.now_us(), 0);
    s.set_now(77);
    assert_eq!(s.now_us(), 77);
    s.on_timer(90);
    assert_eq!(s.now_us(), 90);
    assert!(s.pop_tx().is_none());
}

#[test]
fn control_packets_are_never_dropped() {
    let mut srv = TcpStack::new_v4([1; 6], [10, 0, 0, 1], 80);
    srv.listen();
    let mut cli = TcpStack::new_v4([2; 6], [10, 0, 0, 2], 12345);
    cli.connect([1; 6], HostAddr::V4([10, 0, 0, 1]), 80);
    pump(&mut cli, &mut srv, |_| true);
    assert_eq!(srv.state(), Some(TcpState::SynReceived));
    pump(&mut srv, &mut cli, |_| true);
    pump(&mut cli, &mut srv, |_| true);
    assert!(cli.established() && srv.established());
    assert_eq!(cli.write(b"gone"), 4);
    pump(&mut cli, &mut srv, |_| true);
    let mut buf = [0u8; 8];
    assert_eq!(srv.read(&mut buf), 0);
}

#[test]
fn data_segments_are_told_from_control_packets() {
    let (_, mut cli) = handshake_v4();
    cli.write(b"x");
    let f = cli.pop_tx().unwrap();
    assert!(is_data(&f));
    cli.connect(mac(1), HostAddr::V4([10, 0, 0, 1]), 80);
    let syn = cli.pop_tx().unwrap();
    assert!(!is_data(&syn));
    assert!(!is_data(&f[..f.len() - 1]));
    assert!(!is_data(&[]));
}

#[test]
fn any_losses_are_repaired() {
    for lost in 0..16u32 {
        let (mut srv, mut cli) = handshake_v4();
        let payload: Vec<u8> = (0..5000).map(|i| (i % 251) as u8).collect();
        assert_eq!(cli.write(&payload), payload.len());
        let mut i = 0;
        while let Some(f) = cli.pop_tx() {
            if lost >> i & 1 == 0 {
                srv.ingest(&f);
            }
            i += 1;
        }
        assert_eq!(i, 4);
        cli.on_timer(RTO_MIN_US);
        pump(&mut cli, &mut srv, |_| false);
        let mut buf = vec![0u8; 6000];
        let n = srv.read(&mut buf);
        assert_eq!(&buf[..n], payload.as_slice());
    }
}

#[test]
fn the_timer_resends_once_and_not_early() {
    let (_, mut cli) = handshake_v4();
    let data = [7u8; 2000];
    assert_eq!(cli.write(&data), 2000);
    let mut first = Vec::new();
    while let Some(f) = cli.pop_tx() {
        first.extend_from_slice(&f[54..]);
    }
    cli.on_timer(RTO_MIN_US - 1);
    assert!(cli.pop_tx().is_none());
    cli.on_timer(RTO_MIN_US);
    let mut again = Vec::new();
    while let Some(f) = cli.pop_tx() {
        again.extend_from_slice(&f[54..]);
    }
    assert_eq!(first, data);
    assert_eq!(again, data);
    cli.on_timer(RTO_MIN_US);
    assert!(cli.pop_tx().is_none());
    assert_eq!(cli.state(), Some(TcpState::Established));
    assert_eq!(cli.now_us(), RTO_MIN_US);
}

#[test]
fn queued_frames_parse_back_in_order() {
    let (_, mut cli) = handshake_v4();
    assert_eq!(cli.write(&[1u8; 3000]), 3000);
    cli.on_timer(RTO_MIN_US);
    let mut ids = Vec::new();
    while let Some(f) = cli.pop_tx() {
        let h = parse_ipv4(&f[14..]).unwrap();
        assert_eq!(h.protocol, 6);
        assert_eq!(h.total_len as usize, f.len() - 14);
        assert_eq!(ip_checksum(&f[14..34]), 0);
        assert_eq!(tcp_checksum(h.src, h.dst, h.total_len - 20, &f[34..]), 0);
        ids.push(h.identification);
    }
    assert_eq!(ids.len(), 6);
    assert!(ids.windows(2).all(|w| w[1] == w[0] + 1));
}
