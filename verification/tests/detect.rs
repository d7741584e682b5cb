use fds::cli::summary;
use fds::detect::{count_nodes, detect, parse_cpuinfo, parse_meminfo, parse_size, Hardware};

const CPUINFO_SMT: &str = "\
processor       : 0
vendor_id       : GenuineIntel
cpu family      : 6
model           : 61
model name      : Intel(R) Core(TM) i5-5200U CPU @ 2.20GHz
physical id     : 0
core id         : 0
flags           : fpu vme de pse tsc msr pae mce cx8 apic sep mtrr pge mca cmov pat pse36 clflush dts acpi mmx fxsr sse sse2 ss ht tm pbe syscall nx pdpe1gb rdtscp lm constant_tsc arch_perfmon pebs bts rep_good nopl xtopology nonstop_tsc aperfmperf eagerfpu pni pclmulqdq dtes64 monitor ds_cpl vmx est tm2 ssse3 fma cx16 xtpr pdcm pcid sse4_1 sse4_2 movbe popcnt tsc_deadline_timer aes xsave avx f16c rdrand lahf_lm abm 3dnowprefetch epb intel_pt tpr_shadow vnmi flexpriority ept vpid fsgsbase tsc_adjust bmi1 avx2 smep bmi2 erms invpcid avx512f avx512dq avx512bw avx512vl
processor       : 1
vendor_id       : GenuineIntel
model name      : Intel(R) Core(TM) i5-5200U CPU @ 2.20GHz
physical id     : 0
core id         : 0
processor       : 2
vendor_id       : GenuineIntel
model name      : Intel(R) Core(TM) i5-5200U CPU @ 2.20GHz
physical id     : 0
core id         : 1
processor       : 3
vendor_id       : GenuineIntel
model name      : Intel(R) Core(TM) i5-5200U CPU @ 2.20GHz
physical id     : 0
core id         : 1
";

#[test]
fn cpuinfo_vendor_model_cores_and_simd() {
    let mut hw = Hardware::default();
    parse_cpuinfo(CPUINFO_SMT, &mut hw);
    assert_eq!(hw.vendor, "GenuineIntel");
    assert!(hw.model.contains("i5-5200U"));
    assert_eq!(hw.logical_cores, Some(4));
    assert_eq!(hw.physical_cores, Some(2));
    assert_eq!(hw.threads_per_core(), Some(2));
    for feat in ["avx2", "sse4.2", "fma", "avx512f", "movbe", "bmi2"] {
        assert!(hw.simd.iter().any(|s| s == feat), "missing {feat}");
    }
    assert!(!hw.simd.iter().any(|s| s == "ssse3_x"));
    hw.simd.sort();
    hw.simd.dedup();
    let expected = [
        "aes", "avx2", "avx512bw", "avx512dq", "avx512f", "avx512vl", "bmi1", "bmi2",
        "f16c", "fma", "movbe", "pclmulqdq", "popcnt", "sse4.2", "ssse3",
    ];
    assert_eq!(hw.simd, expected, "unexpected simd set");
}

#[test]
fn cpuinfo_no_topology_yields_unknown_physical() {
    let text = "processor       : 0\nmodel name      : ARMv8\n";
    let mut hw = Hardware::default();
    parse_cpuinfo(text, &mut hw);
    assert_eq!(hw.logical_cores, Some(1));
    assert_eq!(hw.physical_cores, None);
    assert!(hw.simd.is_empty());
}

#[test]
fn size_parsing() {
    assert_eq!(parse_size("3072K"), Some(3 * 1024 * 1024));
    assert_eq!(parse_size("32M"), Some(32 << 20));
    assert_eq!(parse_size("1G"), Some(1 << 30));
    assert_eq!(parse_size("3 MiB"), Some(3 << 20));
    assert_eq!(parse_size("512K"), Some(512 << 10));
    assert_eq!(parse_size("4096"), Some(4096));
    assert_eq!(parse_size(""), None);
    assert_eq!(parse_size("lots"), None);
}

#[test]
fn meminfo_hugepages() {
    let text = "\
MemTotal:       16294944 kB
HugePages_Total:       0
HugePages_Free:        0
";
    let mut hw = Hardware::default();
    parse_meminfo(text, &mut hw);
    assert_eq!(hw.hugepages_total, Some(0));
    assert!(!hw.hugepages_available());

    let text = "HugePages_Total:     256\nHugePages_Free:      128\n";
    let mut hw = Hardware::default();
    parse_meminfo(text, &mut hw);
    assert_eq!(hw.hugepages_total, Some(256));
    assert_eq!(hw.hugepages_free, Some(128));
    assert!(hw.hugepages_available());
}

#[test]
fn nodes_are_counted_by_name() {
    let names = |v: &[&str]| v.iter().map(|s| s.to_string()).collect::<Vec<String>>();
    assert_eq!(count_nodes(&names(&["node0", "node1", "cpu", "nodeX", "node", "possible"])), Some(2));
    assert_eq!(count_nodes(&names(&["online"])), None);
    assert_eq!(count_nodes(&names(&[])), None);
}

#[test]
fn sizes_ignore_case_and_space() {
    assert_eq!(parse_size(" 2 kib \n"), Some(2048));
    assert_eq!(parse_size("1T"), Some(1 << 40));
    assert_eq!(parse_size("5X"), None);
    assert_eq!(parse_size("99999999999999999999"), None);
    assert_eq!(parse_size("16777215T"), Some(16777215 << 40));
    assert_eq!(parse_size("16777216T"), None);
}

#[test]
fn detection_gathers_all_sources() {
    let hw = detect(
        CPUINFO_SMT,
        Some("3072K\n".to_string()),
        Some(vec!["node0".to_string(), "online".to_string()]),
        "HugePages_Total:       2\nHugePages_Free:        1\n",
    );
    assert_eq!(hw.l3_bytes, Some(3 << 20));
    assert_eq!(hw.numa_nodes, Some(1));
    assert_eq!(hw.hugepages_free, Some(1));
    assert_eq!(
        hw.simd,
        [
            "aes", "avx2", "avx512bw", "avx512dq", "avx512f", "avx512vl", "bmi1", "bmi2",
            "f16c", "fma", "movbe", "pclmulqdq", "popcnt", "sse4.2", "ssse3",
        ]
    );
}

#[test]
fn detection_without_sources_knows_nothing() {
    let hw = detect("", None, None, "");
    assert_eq!(hw.vendor, "");
    assert_eq!(hw.logical_cores, None);
    assert_eq!(hw.physical_cores, None);
    assert_eq!(hw.threads_per_core(), None);
    assert_eq!(hw.l3_bytes, None);
    assert_eq!(hw.numa_nodes, None);
    assert!(!hw.hugepages_available());
}

#[test]
fn summary_shows_the_facts() {
    let hw = detect(CPUINFO_SMT, Some("32M".to_string()), None, "");
    let s = summary(&hw);
    assert!(s.starts_with("fds-detect: hardware summary (deterministic; see build/detect.sh)\n  cpu:      Intel(R) Core(TM) i5-5200U CPU @ 2.20GHz\n  vendor:   GenuineIntel\n  cores:    4 logical / 2 physical (2 threads/core)\n  simd:     aes, avx2, "));
    assert!(s.contains("  l3:       33554432 bytes\n  numa:     ? node(s)\n  hugepages: total ? (?), unavailable\n"));
    assert!(s.contains("socket buffers 16777216 B (D-1)\n"));
    let none = summary(&detect("", None, None, ""));
    assert!(none.contains("  cpu:      unknown\n"));
    assert!(none.contains("(? threads/core)"));
    assert!(none.contains("  simd:     none detected\n"));
    assert!(none.contains("socket buffers 4 MiB engine default B (D-1)\n"));
}
