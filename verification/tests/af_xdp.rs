use fds::af_xdp::{
    check_offsets, process_frame, FrameAction, Setup, SetupStep, SockaddrXdp, XdpDesc,
    XdpMmapOffsets, XdpRingOffset, XdpUmemReg, XskRings, AF_XDP, SOL_XDP, XDP_MMAP_OFFSETS,
    XDP_PGOFF_RX_RING, XDP_PGOFF_TX_RING, XDP_RX_RING, XDP_TX_RING, XDP_UMEM_COMPLETION_RING,
    XDP_UMEM_FILL_RING, XDP_UMEM_PGOFF_COMPLETION_RING, XDP_UMEM_PGOFF_FILL_RING, XDP_UMEM_REG,
};
use fds::checksum::{ip_checksum, udp_checksum};

#[test]
fn uapi_constants_match_header() {
    assert_eq!(SOL_XDP, 283);
    assert_eq!(libc::AF_XDP, 44);
    assert_eq!(AF_XDP as i32, libc::AF_XDP);
    assert_eq!(XDP_MMAP_OFFSETS, 1);
    assert_eq!(XDP_RX_RING, 2);
    assert_eq!(XDP_TX_RING, 3);
    assert_eq!(XDP_UMEM_REG, 4);
    assert_eq!(XDP_UMEM_FILL_RING, 5);
    assert_eq!(XDP_UMEM_COMPLETION_RING, 6);
    assert_eq!(XDP_PGOFF_RX_RING, 0);
    assert_eq!(XDP_PGOFF_TX_RING, 0x8000_0000);
    assert_eq!(XDP_UMEM_PGOFF_FILL_RING, 0x1_0000_0000);
    assert_eq!(XDP_UMEM_PGOFF_COMPLETION_RING, 0x1_8000_0000);
}

#[test]
fn uapi_layouts_match_header() {
    assert_eq!(std::mem::size_of::<SockaddrXdp>(), 16);
    assert_eq!(std::mem::size_of::<XdpUmemReg>(), 32);
    assert_eq!(std::mem::size_of::<XdpRingOffset>(), 32);
    assert_eq!(std::mem::size_of::<XdpMmapOffsets>(), 128);
    assert_eq!(std::mem::size_of::<XdpDesc>(), 16);
}

fn build_udp_frame(ttl: u8, bad_ip: bool, bad_udp: bool) -> Vec<u8> {
    let mut f = vec![0u8; 14 + 20 + 8 + 16];
    f[..6].copy_from_slice(&[0xAA; 6]);
    f[6..12].copy_from_slice(&[0xCC; 6]);
    f[12] = 0x08;
    f[13] = 0x00;
    f[14] = 0x45;
    f[16..18].copy_from_slice(&44u16.to_be_bytes());
    f[22] = ttl;
    f[23] = 17;
    f[26..30].copy_from_slice(&[10, 0, 0, 1]);
    f[30..34].copy_from_slice(&[10, 0, 0, 2]);
    let csum = ip_checksum(&f[14..34]);
    f[24] = (csum >> 8) as u8;
    f[25] = csum as u8;
    f[34..36].copy_from_slice(&5000u16.to_be_bytes());
    f[36..38].copy_from_slice(&7777u16.to_be_bytes());
    f[38..40].copy_from_slice(&24u16.to_be_bytes());
    f[42..].copy_from_slice(b"af-xdp-echo-test");
    let u = udp_checksum([10, 0, 0, 1], [10, 0, 0, 2], 24, &f[34..]);
    f[40] = (u >> 8) as u8;
    f[41] = u as u8;
    if bad_ip {
        f[14 + 10] ^= 0xFF;
    }
    if bad_udp {
        f[42] ^= 0xFF;
    }
    f
}

#[test]
fn pipeline_echoes_valid_udp() {
    let mut f = build_udp_frame(64, false, false);
    assert_eq!(process_frame(&mut f), FrameAction::Echo);
    assert_eq!(&f[..6], &[0xCC; 6]);
    assert_eq!(&f[6..12], &[0xAA; 6]);
    assert_eq!(f[22], 63);
    assert_eq!(ip_checksum(&f[14..34]), 0);
    let stored_udp = u16::from_be_bytes([f[40], f[41]]);
    f[40] = 0;
    f[41] = 0;
    let u = udp_checksum([10, 0, 0, 1], [10, 0, 0, 2], 24, &f[34..]);
    assert_eq!(stored_udp, u);
}

#[test]
fn pipeline_drops_bad_ip_checksum() {
    let mut f = build_udp_frame(64, true, false);
    assert_eq!(process_frame(&mut f), FrameAction::Drop);
}

#[test]
fn pipeline_drops_bad_udp_checksum() {
    let mut f = build_udp_frame(64, false, true);
    assert_eq!(process_frame(&mut f), FrameAction::Drop);
}

#[test]
fn pipeline_drops_non_udp_and_expired_ttl() {
    let mut f = build_udp_frame(1, false, false);
    assert_eq!(process_frame(&mut f), FrameAction::Drop);
    let mut g = build_udp_frame(64, false, false);
    g[12] = 0x08;
    g[13] = 0x06;
    assert_eq!(process_frame(&mut g), FrameAction::Drop);
    let mut h = build_udp_frame(64, false, false);
    h.truncate(30);
    assert_eq!(process_frame(&mut h), FrameAction::Drop);
}

#[test]
fn pipeline_echo_is_stable_under_repeat() {
    let mut f = build_udp_frame(64, false, false);
    assert_eq!(process_frame(&mut f), FrameAction::Echo);
    assert_eq!(process_frame(&mut f), FrameAction::Echo);
    assert_eq!(&f[..6], &[0xAA; 6]);
    assert_eq!(f[22], 62);
}

#[test]
fn setup_runs_through_its_steps() {
    let off = |desc: u64| XdpRingOffset { producer: 0, consumer: 64, desc, flags: 128 };
    let offsets = XdpMmapOffsets { rx: off(256), tx: off(256), fr: off(320), cr: off(320) };
    assert!(check_offsets(&offsets));
    let mut s = Setup::new(3, 1);
    assert!(s.release().is_empty());
    assert_eq!(s.step(), SetupStep::MapUmem { len: 16 << 20 });
    s.succeeded(0x1000);
    assert_eq!(s.release(), vec![(0x1000, 16 << 20)]);
    assert!(matches!(s.step(), SetupStep::RegisterUmem { reg } if reg.addr == 0x1000));
    s.succeeded(0);
    for opt in [XDP_RX_RING, XDP_TX_RING, XDP_UMEM_FILL_RING, XDP_UMEM_COMPLETION_RING] {
        assert_eq!(s.step(), SetupStep::SetRing { opt, size: 256 });
        s.succeeded(0);
    }
    assert_eq!(s.step(), SetupStep::GetOffsets);
    s.got_offsets(offsets);
    assert_eq!(
        s.step(),
        SetupStep::MapRing { pgoff: 0, len: 256 + 256 * 16 }
    );
    s.succeeded(0x2000);
    s.succeeded(0x3000);
    assert_eq!(
        s.step(),
        SetupStep::MapRing { pgoff: 0x1_0000_0000, len: 320 + 256 * 8 }
    );
    s.succeeded(0x4000);
    s.succeeded(0x5000);
    assert_eq!(
        s.release(),
        vec![
            (0x1000, 16 << 20),
            (0x2000, 4352),
            (0x3000, 4352),
            (0x4000, 2368),
            (0x5000, 2368)
        ]
    );
    assert!(matches!(s.step(), SetupStep::Bind { addr } if addr.sxdp_ifindex == 3
        && addr.sxdp_queue_id == 1 && addr.sxdp_family == 44));
    s.succeeded(0);
    assert_eq!(s.step(), SetupStep::Done);
}

#[test]
fn huge_offsets_are_refused() {
    let off = |desc: u64| XdpRingOffset { producer: 0, consumer: 0, desc, flags: 0 };
    let offsets = XdpMmapOffsets { rx: off(u64::MAX), tx: off(0), fr: off(0), cr: off(0) };
    assert!(!check_offsets(&offsets));
}

#[test]
fn rings_give_one_frame_at_a_time() {
    let rings = XskRings::new();
    let fill = rings.initial_fill();
    assert_eq!(fill.len(), 256);
    assert_eq!(fill[1], 4096);
    assert_eq!(rings.rx_slot(0), None);
    assert_eq!(rings.rx_slot(1), Some(0));
}
