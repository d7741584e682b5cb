use fds::api::{
    event_from_epoll, poll_flags, AlreadyRegistered, Event, IoUringDriver, PollRequest, ECANCELED,
};
use fds::bench::{
    large_datagram, payload_byte, retry_failed, run_seconds, sctp_failure, Failure, SctpSender,
    Stats, RETRY_MS, SCTP_MSG,
};
use fds::channel::EchoBuffer;
use fds::cli::{parse_command, parse_detect_command, Command, DetectCommand};
use fds::config::{Config, CoreConfig, SctpConfig, TcpConfig, UdpConfig};
use fds::engine::{
    after_read, after_write, on_event, plan_echo, poll_timeout, serves_metrics, source_of,
    worker_count, AfterRead, AfterWrite, EchoConns, EventAction, ReadResult, RecvResult, Source,
    Stall, WriteResult, ZcState, TOKEN_METRICS, TOKEN_TCP_LISTENER, TOKEN_UDP, ZC_MIN_DATAGRAM,
};
use fds::reactor::{
    copy_events, delivered, event_capacity, EpollEvent, Interest, RawEvent, EPOLLET, EPOLLIN,
    EPOLLOUT,
};
use fds::sockaddr::SockAddr;
use fds::transport::{
    is_notification, listen_backlog, listen_options, option_failed, queue_drained, recv_batch_len,
    recv_length, sctp_options, send_batch_len, stream_options, udp_options, unsupported,
    would_block, IoResult, OnError, OptValue, Scatter, ScatterStep, SockOpt,
};

fn src() -> SockAddr {
    SockAddr::V4 { ip: [1, 2, 3, 4], port: 5 }
}

fn got(len: usize, truncated: bool) -> RecvResult {
    RecvResult { len, src: src(), truncated }
}

#[test]
fn whole_datagrams_are_echoed_once() {
    let out = [got(10, false), got(5000, false), got(2048, true), got(4096, false), got(7, false)];
    let p = plan_echo(&out, 4, ZC_MIN_DATAGRAM);
    assert_eq!(p.copy, vec![0]);
    assert_eq!(p.zero_copy, vec![1, 3]);
    assert_eq!((p.packets, p.bytes, p.drops), (3, 9106, 1));
    let all = plan_echo(&out, 5, usize::MAX);
    assert_eq!(all.copy, vec![0, 1, 3, 4]);
}

#[test]
fn zero_copy_sets_alternate_and_recycle_by_count() {
    let mut z = ZcState::new();
    assert_eq!(z.choose_set(), Some(false));
    z.sent(false, 3);
    assert_eq!(z.choose_set(), Some(true));
    z.sent(true, 2);
    assert_eq!(z.choose_set(), None);
    z.recycle(2);
    assert_eq!(z.choose_set(), None);
    z.recycle(1);
    assert_eq!(z.choose_set(), Some(false));
    z.sent(false, 0);
    assert_eq!(z.choose_set(), Some(false));
    z.recycle(2);
    assert_eq!(z.choose_set(), Some(true));
}

#[test]
fn a_stall_gives_zero_copy_up() {
    let mut z = ZcState::new();
    z.sent(false, 1);
    z.sent(true, 1);
    assert_eq!(z.stalled(1000), Stall::Retry);
    assert_eq!(z.stalled(5999), Stall::Retry);
    assert_eq!(z.stalled(6000), Stall::Disabled);
    assert!(z.disabled);
    let mut y = ZcState::new();
    y.sent(false, 1);
    y.sent(true, 1);
    y.stalled(1000);
    y.recycle(1);
    assert_eq!(y.stalled(90_000), Stall::Retry);
    assert_eq!(y.stall_start, None);
}

#[test]
fn connections_hold_their_slots() {
    let mut c = EchoConns::new(2);
    let a = c.accept(src()).unwrap();
    let b = c.accept(src()).unwrap();
    assert_eq!((a, b), (2 << 32, (2 << 32) + 1));
    assert!(c.holds(a));
    assert!(!c.holds(3 << 32));
    assert!(!c.holds((2 << 32) + 5));
    c.received(b, 70, 9);
    assert_eq!(c.table.conn(1).hot.seq, 70);
    assert_eq!(c.table.conn(1).hot.last_activity, 9);
    assert_eq!(c.table.conn(0).cold.peer, src());
    c.close(a);
    assert!(!c.holds(a));
    assert_eq!(c.table.in_use(), 1);
    for _ in 0..1023 {
        assert!(c.accept(src()).is_some());
    }
    assert_eq!(c.accept(src()), None);
}

#[test]
fn tcp_steps_follow_reads_and_writes() {
    assert_eq!(after_read(ReadResult::Data(5)), AfterRead::Echo(5));
    assert_eq!(after_read(ReadResult::Data(0)), AfterRead::Close);
    assert_eq!(after_read(ReadResult::Eof), AfterRead::Close);
    assert_eq!(after_read(ReadResult::WouldBlock), AfterRead::Drained);
    assert_eq!(after_read(ReadResult::Interrupted), AfterRead::Again);
    assert_eq!(after_read(ReadResult::Failed), AfterRead::Close);
    assert_eq!(after_write(WriteResult::Done), AfterWrite::Again);
    assert_eq!(after_write(WriteResult::WouldBlock), AfterWrite::Drop);
    assert_eq!(after_write(WriteResult::Failed), AfterWrite::Close);
}

#[test]
fn tokens_and_workers() {
    assert_eq!(source_of(TOKEN_UDP), Source::Udp);
    assert_eq!(source_of(TOKEN_TCP_LISTENER), Source::Listener);
    assert_eq!(source_of(TOKEN_METRICS), Source::Metrics);
    assert_eq!(source_of(7), Source::Connection(7));
    let mut core = CoreConfig::default();
    assert_eq!(worker_count(&core, Some(6)), 6);
    assert_eq!(worker_count(&core, None), 1);
    core.threads = 3;
    assert_eq!(worker_count(&core, Some(6)), 3);
    assert!(serves_metrics(0, 4));
    assert!(!serves_metrics(1, 4));
    assert!(!serves_metrics(0, 0));
}

#[test]
fn timeouts_are_split_and_never_negative() {
    let mut cfg = Config::default().reactor;
    cfg.timeout_ms = 2750;
    assert_eq!(poll_timeout(&cfg), (2, 750_000_000));
    cfg.timeout_ms = -3;
    assert_eq!(poll_timeout(&cfg), (0, 0));
    cfg.timeout_ms = 10;
    cfg.busy_poll = true;
    assert_eq!(poll_timeout(&cfg), (0, 0));
}

#[test]
fn interests_and_events_map_to_bits() {
    assert_eq!(Interest::Readable.flags(), EPOLLIN | EPOLLET);
    assert_eq!(Interest::ReadableWritable.flags(), EPOLLIN | EPOLLOUT | EPOLLET);
    let raw = vec![RawEvent { token: 1, bits: 0x15 }, RawEvent { token: 2, bits: 0x8 }];
    let evs = delivered(&raw, 5);
    assert_eq!(evs.len(), 2);
    assert!(evs[0].readable && evs[0].writable && evs[0].hang_up && !evs[0].error);
    assert!(evs[1].error && !evs[1].readable);
    let mut out = [EpollEvent::default(); 1];
    assert_eq!(copy_events(&raw, 2, &mut out), 1);
    assert_eq!(out[0].token, 1);
    assert_eq!(copy_events(&raw, 0, &mut out), 0);
    assert_eq!(event_capacity(0), 1);
    assert_eq!(
        event_from_epoll(&evs[1]),
        Event { token: 2, readable: false, writable: false, hang_up: false, error: true }
    );
}

#[test]
fn ring_driver_arms_each_token_once() {
    let mut d = IoUringDriver::new();
    let poll = PollRequest { fd: 4, flags: poll_flags(Interest::Readable), token: 9 };
    assert_eq!(poll.flags, 0x19);
    assert_eq!(d.register(4, 9, Interest::Readable), Ok(poll));
    d.armed(4, 9, Interest::Readable);
    assert_eq!(d.register(4, 9, Interest::Readable), Err(AlreadyRegistered));
    let re = d.modify(4, 9, Interest::Writable);
    assert!(re.cancel);
    assert_eq!(re.poll.flags, 0x1c);
    d.armed(4, 9, Interest::Writable);
    let cancelled = d.completed(9, Some(ECANCELED));
    assert_eq!((cancelled.event, cancelled.rearm), (None, None));
    let ready = d.completed(9, None);
    assert!(ready.event.unwrap().writable);
    assert_eq!(ready.rearm.unwrap().token, 9);
    let failed = d.completed(9, Some(5));
    assert!(failed.event.unwrap().error);
    assert_eq!(d.get(9).unwrap().in_flight, 1);
    assert_eq!(d.unregister(4), Some(9));
    assert_eq!(d.unregister(4), None);
    assert_eq!(d.completed(9, None).event, None);
    assert!(!d.modify(4, 9, Interest::Readable).cancel);
}

fn ints(v: &[SockOpt]) -> Vec<(i32, i32, i64)> {
    v.iter()
        .map(|o| match o.value {
            OptValue::Int(n) => (o.level, o.opt, n),
            OptValue::Bytes(ref b) => (o.level, o.opt, -(b.len() as i64)),
        })
        .collect()
}

#[test]
fn socket_options_follow_the_configuration() {
    let mut udp = UdpConfig::default();
    assert_eq!(
        ints(&udp_options(&udp, 2)),
        vec![(1, 2, 1), (1, 15, 1), (1, 8, 4 << 20), (1, 7, 4 << 20)]
    );
    udp.reuseport = false;
    udp.rcvbuf = usize::MAX;
    udp.gso_segment_size = 1400;
    udp.gro = true;
    udp.incoming_cpu = true;
    udp.zerocopy = true;
    assert_eq!(
        ints(&udp_options(&udp, 2)),
        vec![
            (1, 2, 1),
            (1, 8, i32::MAX as i64),
            (1, 7, 4 << 20),
            (17, 103, 1400),
            (17, 104, 1),
            (1, 49, 2),
            (1, 60, 1)
        ]
    );
    assert_eq!(udp_options(&udp, -1).len(), 6);
    let mut tcp = TcpConfig::default();
    assert_eq!(ints(&stream_options(&tcp)), vec![(6, 1, 1)]);
    tcp.quickack = true;
    tcp.cork = true;
    tcp.defer_accept = true;
    tcp.fastopen = u32::MAX;
    assert_eq!(ints(&stream_options(&tcp)), vec![(6, 1, 1), (6, 12, 1), (6, 9, 1), (6, 3, 1)]);
    let listen = listen_options(&tcp, true);
    assert_eq!(ints(&listen)[4..], [(6, 23, -1), (41, 26, 0)]);
    assert_eq!(listen[4].on_error, OnError::IgnoreUnsupported);
    let mut sctp = SctpConfig::default();
    sctp.max_burst = 4;
    sctp.partial_delivery_point = 9;
    let opts = sctp_options(&sctp);
    assert_eq!(
        ints(&opts),
        vec![(1, 2, 1), (1, 15, 1), (132, 3, 1), (132, 2, -8), (132, 19, -4), (132, 20, -4), (132, 11, -14)]
    );
    assert!(matches!(&opts[3].value, OptValue::Bytes(b) if *b == [10, 0, 10, 0, 0, 0, 0, 0]));
    assert_eq!(opts[6].on_error, OnError::Ignore);
}

#[test]
fn kernel_errors_are_told_apart() {
    assert!(would_block(libc::EAGAIN) && would_block(libc::EWOULDBLOCK));
    assert!(!would_block(libc::EINTR));
    for e in [libc::EAGAIN, libc::ENOENT, libc::ENOMSG] {
        assert!(queue_drained(e));
    }
    assert!(!queue_drained(libc::EIO));
    for e in [
        libc::EPROTONOSUPPORT,
        libc::EAFNOSUPPORT,
        libc::EOPNOTSUPP,
        libc::ENOPROTOOPT,
        libc::EPROTOTYPE,
        libc::ENOTCONN,
    ] {
        assert!(unsupported(e));
    }
    assert!(!unsupported(libc::EIO));
    assert!(option_failed(OnError::Fail, libc::EOPNOTSUPP));
    assert!(!option_failed(OnError::IgnoreUnsupported, libc::EOPNOTSUPP));
    assert!(option_failed(OnError::IgnoreUnsupported, libc::EIO));
    assert!(!option_failed(OnError::Ignore, libc::EIO));
    assert!(is_notification(0x8080) && !is_notification(0x80));
    assert_eq!(sctp_failure(libc::EAGAIN), Failure::Retry);
    assert_eq!(sctp_failure(libc::ENOTCONN), Failure::Skip);
    assert_eq!(sctp_failure(libc::EIO), Failure::Fail);
}

#[test]
fn option_numbers_match_the_system_headers() {
    assert_eq!(fds::transport::SO_INCOMING_CPU, libc::SO_INCOMING_CPU);
    assert_eq!(fds::transport::SO_ZEROCOPY, libc::SO_ZEROCOPY);
    assert_eq!(fds::transport::TCP_FASTOPEN, libc::TCP_FASTOPEN);
    assert_eq!(fds::transport::TCP_DEFER_ACCEPT, libc::TCP_DEFER_ACCEPT);
    assert_eq!(fds::transport::IPV6_V6ONLY, libc::IPV6_V6ONLY);
    assert_eq!(fds::transport::SO_REUSEPORT, libc::SO_REUSEPORT);
    assert_eq!(fds::transport::MSG_TRUNC, libc::MSG_TRUNC);
    assert_eq!(fds::sockaddr::AF_INET6 as i32, libc::AF_INET6);
    assert_eq!(ECANCELED, libc::ECANCELED);
}

#[test]
fn batches_are_clamped() {
    assert_eq!(recv_batch_len(100, 80), 64);
    assert_eq!(recv_batch_len(3, 80), 3);
    assert_eq!(recv_batch_len(100, 0), 0);
    assert_eq!(send_batch_len(65), 64);
    assert_eq!(send_batch_len(2), 2);
    assert_eq!(recv_length(3000, 2048, 0x20), (2048, true));
    assert_eq!(recv_length(5, 2048, 0), (5, false));
    assert_eq!(listen_backlog(0), 1);
    assert_eq!(listen_backlog(128), 128);
}

#[test]
fn scattered_transfers_run_in_chunks() {
    let (mut s, first) = Scatter::start(20);
    assert_eq!(first, ScatterStep::Transfer { from: 0, to: 16 });
    assert_eq!(s.after(IoResult::Bytes(100)), ScatterStep::Transfer { from: 16, to: 20 });
    assert_eq!(s.after(IoResult::WouldBlock), ScatterStep::Done(100));
    let (mut t, _) = Scatter::start(1);
    assert_eq!(t.after(IoResult::WouldBlock), ScatterStep::WouldBlock);
    assert_eq!(t.after(IoResult::Failed), ScatterStep::Failed);
    assert_eq!(t.after(IoResult::Bytes(0)), ScatterStep::Done(0));
    assert_eq!(t.after(IoResult::Bytes(7)), ScatterStep::Done(7));
    assert_eq!(Scatter::start(0).1, ScatterStep::Done(0));
}

#[test]
fn benchmark_parameters_are_limited() {
    assert_eq!(run_seconds(0), 1);
    assert_eq!(run_seconds(9), 9);
    assert_eq!(large_datagram(1), 64);
    assert_eq!(large_datagram(99_999), 65_507);
    assert_eq!(large_datagram(1400), 1400);
    assert_eq!(payload_byte(252), 1);
    let mut sender = SctpSender::new();
    sender.took(30_000);
    assert_eq!(sender.off, 30_000);
    sender.took(SCTP_MSG - 30_000);
    assert_eq!(sender.off, 0);
    let mut stats = Stats::new();
    stats.add_whole(&[got(5, false), got(6, true), got(7, false)], 3);
    stats.add(1, 100);
    assert_eq!((stats.packets, stats.bytes), (3, 112));
}

fn args(v: &[&str]) -> Vec<String> {
    v.iter().map(|s| s.to_string()).collect()
}

#[test]
fn command_lines_parse() {
    assert!(matches!(parse_command(&args(&[])), Command::Run { path } if path == "config.json"));
    assert!(matches!(parse_command(&args(&["x.json"])), Command::Run { path } if path == "x.json"));
    assert!(matches!(parse_command(&args(&["--bench"])), Command::Bench { secs: 2 }));
    assert!(matches!(parse_command(&args(&["--bench", "x"])), Command::Bench { secs: 2 }));
    assert!(matches!(
        parse_command(&args(&["--bench-large", "100", "7"])),
        Command::BenchLarge { datagram: 100, secs: 7 }
    ));
    assert!(matches!(parse_command(&args(&["--latency", "5"])), Command::Latency { secs: 5 }));
    assert!(matches!(
        parse_command(&args(&["--latency-against", "1.2.3.4:5"])),
        Command::LatencyAgainst { addr: Some(a), secs: 2 } if a == "1.2.3.4:5"
    ));
    assert!(matches!(parse_command(&args(&["--latency-tcp"])), Command::LatencyTcp { secs: 2 }));
    assert!(matches!(parse_command(&args(&["--bench-sctp", "9"])), Command::BenchSctp { secs: 9 }));
    assert!(matches!(
        parse_command(&args(&["--metrics-pull", "/tmp/m"])),
        Command::MetricsPull { path: Some(p) } if p == "/tmp/m"
    ));
    assert!(matches!(
        parse_command(&args(&["--fuzz"])),
        Command::Fuzz { iters: 1_000_000 }
    ));
}

#[test]
fn detect_command_lines_parse() {
    assert!(matches!(parse_detect_command(&args(&[])), DetectCommand::Summary));
    assert!(matches!(
        parse_detect_command(&args(&["--emit-config"])),
        DetectCommand::EmitConfig { path } if path == "config.json"
    ));
    assert!(matches!(
        parse_detect_command(&args(&["--generate-schema", "s"])),
        DetectCommand::GenerateSchema { path } if path == "s"
    ));
    assert!(matches!(
        parse_detect_command(&args(&["--validate-config"])),
        DetectCommand::ValidateConfig { path: None }
    ));
    assert!(matches!(
        parse_detect_command(&args(&["-h"])),
        DetectCommand::Unknown { arg } if arg == "-h"
    ));
}

#[test]
fn pending_echo_leaves_in_order() {
    let mut b = EchoBuffer::new();
    assert!(b.is_drained());
    assert_eq!(b.interest(), Interest::Readable);
    b.received(b"abc");
    b.received(b"de");
    assert_eq!(b.rest(), b"abcde");
    b.wrote(2);
    assert_eq!(b.rest(), b"cde");
    assert_eq!(b.interest(), Interest::Writable);
    b.wrote(3);
    assert!(b.is_drained());
    assert_eq!(b.rest(), b"");
}

#[test]
fn events_lead_to_actions() {
    assert_eq!(on_event(TOKEN_UDP, false, true), EventAction::UdpZeroCopy);
    assert_eq!(on_event(TOKEN_UDP, false, false), EventAction::Udp);
    assert_eq!(on_event(TOKEN_TCP_LISTENER, false, true), EventAction::Accept);
    assert_eq!(on_event(TOKEN_METRICS, false, true), EventAction::Metrics);
    assert_eq!(on_event(7, false, true), EventAction::Connection(7));
    for token in [TOKEN_UDP, TOKEN_TCP_LISTENER, TOKEN_METRICS, 7] {
        assert_eq!(on_event(token, true, true), EventAction::Drop);
    }
}

#[test]
fn retries_end_after_their_time() {
    assert!(!retry_failed(Failure::Retry, RETRY_MS, RETRY_MS));
    assert!(retry_failed(Failure::Retry, RETRY_MS + 1, RETRY_MS));
    assert!(!retry_failed(Failure::Skip, RETRY_MS + 1, RETRY_MS));
    assert!(!retry_failed(Failure::Fail, RETRY_MS + 1, RETRY_MS));
}
