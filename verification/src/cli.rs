//! Command lines: what the engine and the detection tool were asked to do,
//! and the text of the detection summary.
use vstd::prelude::*;
use crate::config_model;
use crate::detect::Hardware;
use crate::order;
use crate::text;

verus! {

/// What the engine binary is asked to do.
pub enum Command {
    /// The UDP loopback benchmark.
    Bench { secs: u64 },
    /// The one-way large-datagram benchmark.
    BenchLarge { datagram: usize, secs: u64 },
    /// The round-trip benchmark.
    Latency { secs: u64 },
    /// The round-trip benchmark against a running engine.
    LatencyAgainst { addr: Option<String>, secs: u64 },
    /// The round-trip benchmark over TCP.
    LatencyTcp { secs: u64 },
    /// The SCTP loopback benchmark.
    BenchSctp { secs: u64 },
    /// The metrics report of a running engine, from a socket if one is named.
    MetricsPull { path: Option<String> },
    /// The parser harness.
    Fuzz { iters: u64 },
    /// The engine, with a configuration file.
    Run { path: String },
}

/// The argument at `i`, if it was given.
pub open spec fn arg(args: Seq<String>, i: int) -> Option<Seq<char>> {
    if 0 <= i < args.len() {
        Some(args[i]@)
    } else {
        None
    }
}

/// The number in an argument up to `max`, or else a default.
pub open spec fn arg_number(args: Seq<String>, i: int, max: nat, default: nat) -> nat {
    match arg(args, i) {
        Some(s) => match text::unsigned_value(s) {
            Some(n) => if n <= max {
                n
            } else {
                default
            },
            None => default,
        },
        None => default,
    }
}

fn number_at(args: &Vec<String>, i: usize, default: u64) -> (r: u64)
    ensures
        r == arg_number(args@, i as int, u64::MAX as nat, default as nat),
{
    if i >= args.len() {
        return default;
    }
    let cs = text::to_chars(args[i].as_str());
    match text::parse_u64(cs.as_slice()) {
        Some(n) => n,
        None => default,
    }
}

/// The argument at `i`, if it was given.
fn given(args: &Vec<String>, i: usize) -> (r: Option<String>)
    ensures
        match r {
            Some(s) => arg(args@, i as int) == Some(s@),
            None => arg(args@, i as int) is None,
        },
{
    if i < args.len() {
        Some(args[i].clone())
    } else {
        None
    }
}

/// What the engine's arguments ask for. Missing and unreadable numbers take
/// their defaults; anything that is no option is the configuration file.
pub fn parse_command(args: &Vec<String>) -> (c: Command)
    ensures
        ({
            let max = u64::MAX as nat;
            let secs = |i: int, d: nat| arg_number(args@, i, max, d);
            let first = arg(args@, 0);
            if first == Some("--bench"@) {
                c == (Command::Bench { secs: secs(1, 2) as u64 })
            } else if first == Some("--bench-large"@) {
                c == (Command::BenchLarge {
                    datagram: arg_number(args@, 1, usize::MAX as nat, 60000) as usize,
                    secs: secs(2, 3) as u64,
                })
            } else if first == Some("--latency"@) {
                c == (Command::Latency { secs: secs(1, 2) as u64 })
            } else if first == Some("--latency-against"@) {
                match c {
                    Command::LatencyAgainst { addr, secs: n } => n == secs(2, 2) && match addr {
                        Some(a) => arg(args@, 1) == Some(a@),
                        None => arg(args@, 1) is None,
                    },
                    _ => false,
                }
            } else if first == Some("--latency-tcp"@) {
                c == (Command::LatencyTcp { secs: secs(1, 2) as u64 })
            } else if first == Some("--bench-sctp"@) {
                c == (Command::BenchSctp { secs: secs(1, 2) as u64 })
            } else if first == Some("--metrics-pull"@) {
                match c {
                    Command::MetricsPull { path: Some(p) } => arg(args@, 1) == Some(p@),
                    Command::MetricsPull { path: None } => arg(args@, 1) is None,
                    _ => false,
                }
            } else if first == Some("--fuzz"@) {
                c == (Command::Fuzz { iters: secs(1, 1_000_000) as u64 })
            } else {
                match c {
                    Command::Run { path } => path@ == match first {
                        Some(p) => p,
                        None => "config.json"@,
                    },
                    _ => false,
                }
            }
        }),
{
    proof {
        reveal_strlit("--bench");
        reveal_strlit("--bench-large");
        reveal_strlit("--latency");
        reveal_strlit("--latency-against");
        reveal_strlit("--latency-tcp");
        reveal_strlit("--bench-sctp");
        reveal_strlit("--metrics-pull");
        reveal_strlit("--fuzz");
    }
    if args.len() == 0 {
        return Command::Run { path: "config.json".to_string() };
    }
    let first: &str = args[0].as_str();
    if text::same_text(first, "--bench") {
        Command::Bench { secs: number_at(args, 1, 2) }
    } else if text::same_text(first, "--bench-large") {
        let n: u64 = number_at(args, 1, 60000);
        let datagram: usize = if n as u128 <= usize::MAX as u128 {
            n as usize
        } else {
            60000
        };
        Command::BenchLarge { datagram, secs: number_at(args, 2, 3) }
    } else if text::same_text(first, "--latency") {
        Command::Latency { secs: number_at(args, 1, 2) }
    } else if text::same_text(first, "--latency-against") {
        Command::LatencyAgainst { addr: given(args, 1), secs: number_at(args, 2, 2) }
    } else if text::same_text(first, "--latency-tcp") {
        Command::LatencyTcp { secs: number_at(args, 1, 2) }
    } else if text::same_text(first, "--bench-sctp") {
        Command::BenchSctp { secs: number_at(args, 1, 2) }
    } else if text::same_text(first, "--metrics-pull") {
        Command::MetricsPull { path: given(args, 1) }
    } else if text::same_text(first, "--fuzz") {
        Command::Fuzz { iters: number_at(args, 1, 1_000_000) }
    } else {
        Command::Run { path: args[0].clone() }
    }
}

/// What the detection tool is asked to do.
pub enum DetectCommand {
    /// Print the summary.
    Summary,
    /// Write the configuration.
    EmitConfig { path: String },
    /// Write the schema.
    GenerateSchema { path: String },
    /// Validate a file, if one is named.
    ValidateConfig { path: Option<String> },
    /// An unknown argument.
    Unknown { arg: String },
}

/// The argument at `i`, or a default.
pub open spec fn arg_or(args: Seq<String>, i: int, default: Seq<char>) -> Seq<char> {
    match arg(args, i) {
        Some(s) => s,
        None => default,
    }
}

fn text_at(args: &Vec<String>, i: usize, default: &str) -> (r: String)
    ensures
        r@ == arg_or(args@, i as int, default@),
{
    if i < args.len() {
        args[i].clone()
    } else {
        default.to_string()
    }
}

/// What the detection tool's arguments ask for.
pub fn parse_detect_command(args: &Vec<String>) -> (c: DetectCommand)
    ensures
        ({
            let first = arg(args@, 0);
            match c {
                DetectCommand::Summary => first is None,
                DetectCommand::EmitConfig { path } => first == Some("--emit-config"@) && path@
                    == arg_or(args@, 1, "config.json"@),
                DetectCommand::GenerateSchema { path } => first == Some("--generate-schema"@)
                    && path@ == arg_or(args@, 1, "config/config.schema.json"@),
                DetectCommand::ValidateConfig { path } => first == Some("--validate-config"@)
                    && match path {
                    Some(p) => arg(args@, 1) == Some(p@),
                    None => arg(args@, 1) is None,
                },
                DetectCommand::Unknown { arg: a } => first == Some(a@) && a@ != "--emit-config"@
                    && a@ != "--generate-schema"@ && a@ != "--validate-config"@,
            }
        }),
{
    if args.len() == 0 {
        return DetectCommand::Summary;
    }
    let first: &str = args[0].as_str();
    if text::same_text(first, "--emit-config") {
        DetectCommand::EmitConfig { path: text_at(args, 1, "config.json") }
    } else if text::same_text(first, "--generate-schema") {
        DetectCommand::GenerateSchema { path: text_at(args, 1, "config/config.schema.json") }
    } else if text::same_text(first, "--validate-config") {
        DetectCommand::ValidateConfig { path: given(args, 1) }
    } else {
        DetectCommand::Unknown { arg: args[0].clone() }
    }
}

// ---------------------------------------------------------------------
// Summary
// ---------------------------------------------------------------------

/// A number, or other words where it is unknown.
pub open spec fn shown(n: Option<int>, unknown: Seq<char>) -> Seq<char> {
    match n {
        Some(x) => text::decimal(x as nat),
        None => unknown,
    }
}

/// A text, or `unknown` where it is empty.
pub open spec fn named(s: Seq<char>) -> Seq<char> {
    if s.len() == 0 {
        "unknown"@
    } else {
        s
    }
}

/// Texts with a comma and a space between them.
pub open spec fn joined(v: Seq<Seq<char>>) -> Seq<char>
    decreases v.len(),
{
    if v.len() == 0 {
        Seq::empty()
    } else if v.len() == 1 {
        v[0]
    } else {
        joined(v.drop_last()) + ", "@ + v.last()
    }
}

/// A machine-sized number as an integer.
pub open spec fn wide(n: Option<usize>) -> Option<int> {
    match n {
        Some(x) => Some(x as int),
        None => None,
    }
}

/// A 64-bit number as an integer.
pub open spec fn wide64(n: Option<u64>) -> Option<int> {
    match n {
        Some(x) => Some(x as int),
        None => None,
    }
}

/// Logical cores per physical core, where both are known.
pub open spec fn threads_shown(hw: Hardware) -> Seq<char> {
    match (hw.logical_cores, hw.physical_cores) {
        (Some(l), Some(p)) => if p == 0 {
            "?"@
        } else if l < p {
            text::decimal(1)
        } else {
            text::decimal((l / p) as nat)
        },
        _ => "?"@,
    }
}

/// The text with the first part of the summary behind it: processor and
/// cores.
pub open spec fn cpu_summary(p: Seq<char>, hw: Hardware) -> Seq<char> {
    let head = p + "fds-detect: hardware summary (deterministic; see build/detect.sh)\n"@
        + "  cpu:      "@ + named(hw.model@) + "\n"@ + "  vendor:   "@ + named(hw.vendor@) + "\n"@;
    let cores = head + "  cores:    "@ + shown(wide(hw.logical_cores), "?"@) + " logical / "@
        + shown(wide(hw.physical_cores), "?"@) + " physical ("@ + threads_shown(hw)
        + " threads/core)\n"@;
    let simd = if hw.simd@.len() == 0 {
        "none detected"@
    } else {
        joined(order::texts(hw.simd@))
    };
    cores + "  simd:     "@ + simd + "\n"@
}

/// The text with the cache and memory lines behind it.
pub open spec fn memory_summary(p: Seq<char>, hw: Hardware) -> Seq<char> {
    let l3 = match hw.l3_bytes {
        Some(n) => p + "  l3:       "@ + text::decimal(n as nat) + " bytes"@,
        None => p + "  l3:       "@ + "unknown"@,
    };
    let pages = if hw.hugepages_total matches Some(n) && n > 0 {
        "available"@
    } else {
        "unavailable"@
    };
    l3 + "\n"@ + "  numa:     "@ + shown(wide(hw.numa_nodes), "?"@) + " node(s)\n"@
        + "  hugepages: total "@ + shown(wide64(hw.hugepages_total), "?"@) + " ("@ + shown(
        wide64(hw.hugepages_free),
        "?"@,
    ) + "), "@ + pages + "\n"@
}

/// The text with the suggestions behind it.
pub open spec fn suggestions(p: Seq<char>, hw: Hardware) -> Seq<char> {
    let buffers = match hw.l3_bytes {
        Some(n) => text::decimal(config_model::buffer_for(n) as nat),
        None => "4 MiB engine default"@,
    };
    p + "  suggested:\n"@
        + "    build:  target-cpu=native (TARGET_CPU to pin; SIMD follows automatically)\n"@
        + "    config: core.threads 0 (= one per logical CPU); socket buffers "@ + buffers
        + " B (D-1)\n"@
        + "    run:    fds-detect --emit-config && fds-detect --validate-config config.json\n"@
}

fn push_shown(out: &mut String, n: Option<u64>, unknown: &str)
    ensures
        final(out)@ == old(out)@ + shown(wide64(n), unknown@),
{
    match n {
        Some(x) => text::push_num(out, x),
        None => out.append(unknown),
    }
}

fn widen(n: Option<usize>) -> (r: Option<u64>)
    ensures
        wide64(r) == wide(n),
{
    match n {
        Some(x) => Some(x as u64),
        None => None,
    }
}

fn push_named(out: &mut String, s: &String)
    ensures
        final(out)@ == old(out)@ + named(s@),
{
    let cs = text::to_chars(s.as_str());
    if cs.len() == 0 {
        out.append("unknown");
    } else {
        out.append(s.as_str());
    }
}

fn push_joined(out: &mut String, v: &Vec<String>)
    ensures
        final(out)@ == old(out)@ + joined(order::texts(v@)),
{
    let ghost tv = order::texts(v@);
    let ghost start = out@;
    let mut i: usize = 0;
    assert(out@ =~= start + joined(tv.take(0)));
    while i < v.len()
        invariant
            i <= v@.len(),
            tv == order::texts(v@),
            out@ == start + joined(tv.take(i as int)),
        decreases v@.len() - i,
    {
        if i > 0 {
            out.append(", ");
        }
        out.append(v[i].as_str());
        i += 1;
        proof {
            assert(tv.take(i as int).drop_last() =~= tv.take(i - 1));
            assert(out@ =~= start + joined(tv.take(i as int)));
        }
    }
    assert(tv.take(i as int) =~= tv);
}

fn push_cpu(out: &mut String, hw: &Hardware)
    ensures
        final(out)@ == cpu_summary(old(out)@, *hw),
{
    out.append("fds-detect: hardware summary (deterministic; see build/detect.sh)\n");
    out.append("  cpu:      ");
    push_named(out, &hw.model);
    out.append("\n");
    out.append("  vendor:   ");
    push_named(out, &hw.vendor);
    out.append("\n");
    out.append("  cores:    ");
    push_shown(out, widen(hw.logical_cores), "?");
    out.append(" logical / ");
    push_shown(out, widen(hw.physical_cores), "?");
    out.append(" physical (");
    match hw.threads_per_core() {
        Some(n) => text::push_num(out, n as u64),
        None => out.append("?"),
    }
    out.append(" threads/core)\n");
    out.append("  simd:     ");
    if hw.simd.len() == 0 {
        out.append("none detected");
    } else {
        push_joined(out, &hw.simd);
    }
    out.append("\n");
}

fn push_memory(out: &mut String, hw: &Hardware)
    ensures
        final(out)@ == memory_summary(old(out)@, *hw),
{
    out.append("  l3:       ");
    match hw.l3_bytes {
        Some(n) => {
            text::push_num(out, n);
            out.append(" bytes");
        },
        None => out.append("unknown"),
    }
    out.append("\n");
    out.append("  numa:     ");
    push_shown(out, widen(hw.numa_nodes), "?");
    out.append(" node(s)\n");
    out.append("  hugepages: total ");
    push_shown(out, hw.hugepages_total, "?");
    out.append(" (");
    push_shown(out, hw.hugepages_free, "?");
    out.append("), ");
    if hw.hugepages_available() {
        out.append("available");
    } else {
        out.append("unavailable");
    }
    out.append("\n");
}

fn push_suggestions(out: &mut String, hw: &Hardware)
    ensures
        final(out)@ == suggestions(old(out)@, *hw),
{
    out.append("  suggested:\n");
    out.append("    build:  target-cpu=native (TARGET_CPU to pin; SIMD follows automatically)\n");
    out.append("    config: core.threads 0 (= one per logical CPU); socket buffers ");
    match hw.l3_bytes {
        Some(n) => text::push_num(out, config_model::d1_socket_buffer_bytes(n)),
        None => out.append("4 MiB engine default"),
    }
    out.append(" B (D-1)\n");
    out.append(
        "    run:    fds-detect --emit-config && fds-detect --validate-config config.json\n",
    );
}

/// The detection summary.
pub fn summary(hw: &Hardware) -> (s: String)
    ensures
        s@ == suggestions(memory_summary(cpu_summary(Seq::empty(), *hw), *hw), *hw),
{
    let mut out = String::new();
    assert(out@ =~= Seq::<char>::empty());
    push_cpu(&mut out, hw);
    push_memory(&mut out, hw);
    push_suggestions(&mut out, hw);
    out
}

} // verus!
