use fds::config::{parse_queues, parse_strategy, Config, ReactorStrategy};

fn env(pairs: &[(&str, &str)]) -> Vec<(String, String)> {
    pairs.iter().map(|(k, v)| (k.to_string(), v.to_string())).collect()
}

#[test]
fn defaults_are_the_documented_ones() {
    let cfg = Config::default();
    assert_eq!(cfg.reactor.strategy, ReactorStrategy::EpollBusyPoll);
    assert_eq!(cfg.udp.rcvbuf, 4 << 20);
    assert_eq!(cfg.core.stack_bytes, 1 << 20);
    assert_eq!(cfg.core.threads, 0);
    assert!(cfg.core.pin_cores);
    assert!(!cfg.reactor.busy_poll);
    assert_eq!(cfg.engine.udp_bind, "127.0.0.1:7777");
    assert_eq!(cfg.engine.tcp_bind, "127.0.0.1:7778");
    assert_eq!(cfg.metrics.socket_path, "/tmp/fds-metrics.sock");
    assert_eq!(cfg.af_xdp.device, "");
    assert_eq!(cfg.af_xdp.num_frames, 4096);
    assert_eq!(cfg.sctp.init_max_streams, 10);
}

#[test]
fn environment_overrides_single_settings() {
    let mut cfg = Config::default();
    let unknown = cfg.apply_env(&env(&[
        ("FDS_REACTOR_BUSY_POLL", " Yes "),
        ("FDS_CORE_THREADS", "8"),
        ("FDS_REACTOR_TIMEOUT_MS", "-5"),
        ("FDS_REACTOR_STRATEGY", "IO-Uring"),
        ("FDS_AF_XDP_QUEUES", "1, 2,x,4294967296,3"),
        ("FDS_ENGINE_UDP_BIND", "0.0.0.0:9"),
        ("FDS_TCP_NODELAY", "0"),
    ]));
    assert_eq!(unknown, None);
    assert!(cfg.reactor.busy_poll);
    assert_eq!(cfg.core.threads, 8);
    assert_eq!(cfg.reactor.timeout_ms, -5);
    assert_eq!(cfg.reactor.strategy, ReactorStrategy::IoUring);
    assert_eq!(cfg.af_xdp.queues, vec![1, 2, 3]);
    assert_eq!(cfg.engine.udp_bind, "0.0.0.0:9");
    assert!(!cfg.tcp.nodelay);
    assert_eq!(cfg.tcp.rcvbuf, 4 << 20);
    assert_eq!(cfg.engine.tcp_bind, "127.0.0.1:7778");
}

#[test]
fn unreadable_values_change_nothing() {
    let mut cfg = Config::default();
    let unknown = cfg.apply_env(&env(&[
        ("FDS_CORE_THREADS", "many"),
        ("FDS_REACTOR_MAX_EVENTS", "-1"),
        ("FDS_REACTOR_TIMEOUT_MS", "2147483648"),
        ("FDS_REACTOR_IO_URING_ENTRIES", "4294967296"),
        ("FDS_REACTOR_STRATEGY", " Kqueue "),
    ]));
    assert_eq!(unknown.as_deref(), Some("kqueue"));
    assert_eq!(cfg.core.threads, 0);
    assert_eq!(cfg.reactor.max_events, 256);
    assert_eq!(cfg.reactor.timeout_ms, 0);
    assert_eq!(cfg.reactor.io_uring_entries, 256);
    assert_eq!(cfg.reactor.strategy, ReactorStrategy::EpollBusyPoll);
}

#[test]
fn an_empty_environment_keeps_settings() {
    let mut cfg = Config::default();
    cfg.core.threads = 3;
    cfg.metrics.socket_path = "/run/x".to_string();
    assert_eq!(cfg.apply_env(&env(&[])), None);
    assert_eq!(cfg.core.threads, 3);
    assert_eq!(cfg.metrics.socket_path, "/run/x");
}

#[test]
fn a_set_flag_is_false_unless_it_says_yes() {
    let mut cfg = Config::default();
    cfg.apply_env(&env(&[("FDS_UDP_GRO", "TRUE"), ("FDS_CORE_PIN_CORES", "maybe")]));
    assert!(cfg.udp.gro);
    assert!(!cfg.core.pin_cores);
}

#[test]
fn strategies_and_queues_parse() {
    assert_eq!(parse_strategy("epoll"), Some(ReactorStrategy::EpollBusyPoll));
    assert_eq!(parse_strategy(" iouring\n"), Some(ReactorStrategy::IoUring));
    assert_eq!(parse_strategy(""), None);
    assert!(parse_queues("").is_empty());
    assert_eq!(parse_queues("+7,,8"), vec![7, 8]);
}
