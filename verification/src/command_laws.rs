//! Laws of the command line: what each argument asks for.
use vstd::prelude::*;
use crate::cli;
use crate::cli::{Command, DetectCommand};
use crate::text;

verus! {

/// The argument at `i` is this text.
pub open spec fn given(args: Vec<String>, i: int, s: Seq<char>) -> bool {
    0 <= i < args@.len() && args@[i]@ == s
}

/// A number at `i`: as read where it can be read and is not too large, and
/// the other number where it is missing or cannot be read.
pub open spec fn number(args: Vec<String>, i: int, max: nat, other: nat, n: nat) -> bool {
    &&& i >= args@.len() ==> n == other
    &&& 0 <= i < args@.len() ==> match text::unsigned_value(args@[i]@) {
        Some(x) => n == if x <= max {
            x
        } else {
            other
        },
        None => n == other,
    }
}

/// A text at `i`, if there is one.
pub open spec fn maybe(args: Vec<String>, i: int, s: Option<String>) -> bool {
    match s {
        Some(t) => given(args, i, t@),
        None => i >= args@.len(),
    }
}

/// The benchmarks by their options, with a duration of two seconds unless one
/// is given, and three for large datagrams, which have 60000 bytes unless a
/// size is given.
pub proof fn law_benchmarks(args: Vec<String>, c: Command)
    requires
        call_ensures(cli::parse_command, (&args,), c),
    ensures
        given(args, 0, "--bench"@) ==> (c matches Command::Bench { secs } && number(
            args,
            1,
            u64::MAX as nat,
            2,
            secs as nat,
        )),
        given(args, 0, "--bench-large"@) ==> (c matches Command::BenchLarge { datagram, secs }
            && number(args, 1, usize::MAX as nat, 60000, datagram as nat) && number(
            args,
            2,
            u64::MAX as nat,
            3,
            secs as nat,
        )),
        given(args, 0, "--latency"@) ==> (c matches Command::Latency { secs } && number(
            args,
            1,
            u64::MAX as nat,
            2,
            secs as nat,
        )),
        given(args, 0, "--latency-tcp"@) ==> (c matches Command::LatencyTcp { secs } && number(
            args,
            1,
            u64::MAX as nat,
            2,
            secs as nat,
        )),
        given(args, 0, "--bench-sctp"@) ==> (c matches Command::BenchSctp { secs } && number(
            args,
            1,
            u64::MAX as nat,
            2,
            secs as nat,
        )),
        given(args, 0, "--latency-against"@) ==> (c matches Command::LatencyAgainst { addr, secs }
            && maybe(args, 1, addr) && number(args, 2, u64::MAX as nat, 2, secs as nat)),
{
    reveal_strlit("--bench");
    reveal_strlit("--bench-large");
    reveal_strlit("--latency");
    reveal_strlit("--latency-against");
    reveal_strlit("--latency-tcp");
    reveal_strlit("--bench-sctp");
    assert("--bench"@.len() == 7 && "--bench-large"@.len() == 13 && "--latency"@.len() == 9);
    assert("--latency-against"@.len() == 17 && "--latency-tcp"@.len() == 13);
    assert("--bench-sctp"@.len() == 12);
    assert("--bench-large"@[2] == 'b' && "--latency-tcp"@[2] == 'l');
}

/// The other options, and the engine itself where the first argument is none
/// of them: it names the configuration file, `config.json` without one.
pub proof fn law_other_commands(args: Vec<String>, c: Command)
    requires
        call_ensures(cli::parse_command, (&args,), c),
    ensures
        given(args, 0, "--metrics-pull"@) ==> (c matches Command::MetricsPull { path } && maybe(
            args,
            1,
            path,
        )),
        given(args, 0, "--fuzz"@) ==> (c matches Command::Fuzz { iters } && number(
            args,
            1,
            u64::MAX as nat,
            1_000_000,
            iters as nat,
        )),
        args@.len() == 0 ==> (c matches Command::Run { path } && path@ == "config.json"@),
        args@.len() > 0 && (args@[0]@.len() == 0 || args@[0]@[0] != '-') ==> (
        c matches Command::Run { path } && path@ == args@[0]@),
{
    reveal_strlit("--bench");
    reveal_strlit("--bench-large");
    reveal_strlit("--latency");
    reveal_strlit("--latency-against");
    reveal_strlit("--latency-tcp");
    reveal_strlit("--bench-sctp");
    reveal_strlit("--metrics-pull");
    reveal_strlit("--fuzz");
    assert("--bench"@.len() == 7 && "--bench-large"@.len() == 13 && "--latency"@.len() == 9);
    assert("--latency-against"@.len() == 17 && "--latency-tcp"@.len() == 13);
    assert("--bench-sctp"@.len() == 12 && "--metrics-pull"@.len() == 14 && "--fuzz"@.len() == 6);
    assert("--bench"@[0] == '-' && "--bench-large"@[0] == '-' && "--latency"@[0] == '-');
    assert("--latency-against"@[0] == '-' && "--latency-tcp"@[0] == '-');
    assert("--bench-sctp"@[0] == '-' && "--metrics-pull"@[0] == '-' && "--fuzz"@[0] == '-');
}

/// The detection tool: a summary without an argument, a file written to the
/// path given or to its usual one, a file checked, or an argument that it
/// does not know.
pub proof fn law_detection_commands(args: Vec<String>, c: DetectCommand)
    requires
        call_ensures(cli::parse_detect_command, (&args,), c),
    ensures
        args@.len() == 0 ==> c is Summary,
        given(args, 0, "--emit-config"@) ==> (c matches DetectCommand::EmitConfig { path } && if args@.len()
            > 1 {
            path@ == args@[1]@
        } else {
            path@ == "config.json"@
        }),
        given(args, 0, "--generate-schema"@) ==> (
        c matches DetectCommand::GenerateSchema { path } && if args@.len() > 1 {
            path@ == args@[1]@
        } else {
            path@ == "config/config.schema.json"@
        }),
        given(args, 0, "--validate-config"@) ==> (
        c matches DetectCommand::ValidateConfig { path } && maybe(args, 1, path)),
        args@.len() > 0 && !given(args, 0, "--emit-config"@) && !given(
            args,
            0,
            "--generate-schema"@,
        ) && !given(args, 0, "--validate-config"@) ==> (c matches DetectCommand::Unknown { arg }
            && arg@ == args@[0]@),
{
    reveal_strlit("--emit-config");
    reveal_strlit("--generate-schema");
    reveal_strlit("--validate-config");
    assert("--emit-config"@.len() == 13 && "--generate-schema"@.len() == 17);
    assert("--validate-config"@.len() == 17);
    assert("--validate-config"@[2] == 'v' && "--generate-schema"@[2] == 'g');
}

} // verus!
