use fds::metrics::{push_num, CounterSet, Metrics};

#[test]
fn counters_add_snapshot() {
    let mut set = CounterSet::new(&["a", "b"]);
    set.add(0, 5);
    set.add(1, 7);
    let mut out = [0u64; 2];
    set.snapshot(&mut out);
    assert_eq!(out, [5, 7]);
}

#[test]
fn metrics_report_contains_names() {
    let metrics = Metrics::new(1);
    let mut out = String::new();
    metrics.write_into(&mut out);
    assert!(out.contains("packets"), "report: {out}");
    assert!(out.contains("bytes"), "report: {out}");
    assert!(out.contains("drops"), "report: {out}");
}

#[test]
fn no_alloc_formatting() {
    let metrics = Metrics::new(4);
    for _ in 0..1000 {
        let mut out = String::new();
        metrics.write_into(&mut out);
    }
}

#[test]
fn report_is_exact() {
    let mut m = Metrics::new(2);
    m.add_packets(0, 3);
    m.add_packets(1, 4);
    m.add_bytes(1, 1500);
    m.add_drops(0, 1);
    let mut out = String::new();
    m.write_into(&mut out);
    assert_eq!(
        out,
        "# fds metrics (pull endpoint)\n# cores: 2\n# counter names per core: packets bytes drops \n\
         packets.total 7\ncore.0.packets 3\ncore.1.packets 4\n\
         bytes.total 1500\ncore.0.bytes 0\ncore.1.bytes 1500\n\
         drops.total 1\ncore.0.drops 1\ncore.1.drops 0\n"
    );
    assert_eq!(m.totals(), (7, 1500, 1));
}

#[test]
fn report_without_cores() {
    let m = Metrics::new(0);
    let mut out = String::from("x");
    m.write_into(&mut out);
    assert_eq!(out, "x# fds metrics (pull endpoint)\n# cores: 0\n");
    assert_eq!(m.totals(), (0, 0, 0));
}

#[test]
fn counters_wrap_and_can_be_set() {
    let mut set = CounterSet::new(&["a"]);
    set.set(0, u64::MAX);
    set.add(0, 2);
    assert_eq!(set.load(0), 1);
    assert_eq!(set.names(), &["a"]);
}

#[test]
fn numbers_are_written_in_decimal() {
    let mut out = String::new();
    push_num(&mut out, 0);
    push_num(&mut out, 1090);
    push_num(&mut out, u64::MAX);
    assert_eq!(out, "0109018446744073709551615");
}
