//! Laws of the benchmarks' decisions.
use vstd::prelude::*;
use crate::bench;
use crate::bench::Failure;

verus! {

/// A run lasts a second at least, and else as long as asked for.
pub proof fn law_run_time(asked: u64, r: u64)
    requires
        call_ensures(bench::run_seconds, (asked,), r),
    ensures
        asked >= 1 ==> r == asked,
        asked == 0 ==> r == 1,
{
}

/// The bytes of a payload count up and start over behind 250.
pub proof fn law_payload_bytes(i: usize, a: u8, b: u8)
    requires
        i < usize::MAX,
        call_ensures(bench::payload_byte, (i,), a),
        call_ensures(bench::payload_byte, ((i + 1) as usize,), b),
    ensures
        i == 0 ==> a == 0,
        a < 250 ==> b == a + 1,
        a >= 250 ==> a == 250 && b == 0,
{
}

/// An SCTP call that would block is tried again, one that is not supported
/// skips the benchmark, and every other failure ends it; a try behind the
/// deadline is a failure, too.
pub proof fn law_failures(errno: i32, f: Failure, now: u64, deadline: u64, late: bool)
    requires
        call_ensures(bench::sctp_failure, (errno,), f),
        call_ensures(bench::retry_failed, (f, now, deadline), late),
    ensures
        f == Failure::Retry <==> errno == 11,
        f == Failure::Skip <==> errno == 91 || errno == 92 || errno == 93 || errno == 95 || errno
            == 97 || errno == 107,
        late <==> errno == 11 && now > deadline,
{
}

} // verus!
