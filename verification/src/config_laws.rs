//! What each environment variable does to the configuration, by its name
//! and the text of its value.
use vstd::prelude::*;
use crate::config;
use crate::config::{Config, ReactorStrategy};
use crate::text;
use crate::text_laws;

verus! {

/// `v` is the value of the first entry for `key`.
pub open spec fn given(env: Seq<(String, String)>, key: Seq<char>, v: Seq<char>) -> bool {
    exists|k: int|
        {
            &&& 0 <= k < env.len()
            &&& (#[trigger] env[k]).0@ == key
            &&& env[k].1@ == v
            &&& forall|j: int| 0 <= j < k ==> (#[trigger] env[j]).0@ != key
        }
}

/// There is no entry for `key`.
pub open spec fn unset(env: Seq<(String, String)>, key: Seq<char>) -> bool {
    forall|j: int| 0 <= j < env.len() ==> (#[trigger] env[j]).0@ != key
}

proof fn lemma_given(env: Seq<(String, String)>, key: Seq<char>, v: Seq<char>)
    requires
        given(env, key, v),
    ensures
        config::env_text(env, key) == Some(v),
    decreases env.len(),
{
    let k = choose|k: int|
        {
            &&& 0 <= k < env.len()
            &&& (#[trigger] env[k]).0@ == key
            &&& env[k].1@ == v
            &&& forall|j: int| 0 <= j < k ==> (#[trigger] env[j]).0@ != key
        };
    if k > 0 {
        let rest = env.skip(1);
        assert(env[0].0@ != key);
        assert(rest[k - 1] == env[k]);
        assert forall|j: int| 0 <= j < k - 1 implies (#[trigger] rest[j]).0@ != key by {
            assert(rest[j] == env[j + 1]);
        }
        assert(given(rest, key, v));
        lemma_given(rest, key, v);
    }
}

proof fn lemma_unset(env: Seq<(String, String)>, key: Seq<char>)
    requires
        unset(env, key),
    ensures
        config::env_text(env, key) is None,
    decreases env.len(),
{
    if env.len() > 0 {
        assert(env[0].0@ != key);
        let rest = env.skip(1);
        assert forall|j: int| 0 <= j < rest.len() implies (#[trigger] rest[j]).0@ != key by {
            assert(rest[j] == env[j + 1]);
        }
        lemma_unset(rest, key);
    }
}

/// The value is a word, in any case, with any white space around it.
pub open spec fn says(v: Seq<char>, word: Seq<char>) -> bool {
    exists|a: Seq<char>, x: Seq<char>, b: Seq<char>|
        {
            &&& v == #[trigger] (a + x + b)
            &&& text_laws::blank(a)
            &&& text_laws::blank(b)
            &&& text_laws::spells(x, word)
        }
}

/// The value says one of the four words that switch a setting on.
pub open spec fn says_on(v: Seq<char>) -> bool {
    says(v, "1"@) || says(v, "true"@) || says(v, "yes"@) || says(v, "on"@)
}

/// A word of visible characters without capitals.
spec fn plain_word(w: Seq<char>) -> bool {
    &&& w.len() > 0
    &&& text_laws::uncapital(w)
    &&& forall|i: int| 0 <= i < w.len() ==> 33 <= (#[trigger] w[i]) as u32 <= 126
}

proof fn lemma_says(v: Seq<char>, w: Seq<char>)
    requires
        plain_word(w),
    ensures
        (text::trimmed(v).map_values(|c: char| text::lower(c)) == w) == says(v, w),
{
    let t = text::trimmed(v);
    text_laws::law_lower_case_ignores_case(t, w);
    if t.map_values(|c: char| text::lower(c)) == w {
        let parts = text_laws::law_trimmed_parts(v);
        assert(v == parts.0 + t + parts.1);
    }
    if says(v, w) {
        let (a, x, b) = choose|a: Seq<char>, x: Seq<char>, b: Seq<char>|
            {
                &&& v == #[trigger] (a + x + b)
                &&& text_laws::blank(a)
                &&& text_laws::blank(b)
                &&& text_laws::spells(x, w)
            };
        assert(33 <= w[0] as u32 <= 126);
        assert(33 <= w[w.len() - 1] as u32 <= 126);
        assert(x[0] == w[0] || 65 <= x[0] as u32 <= 90);
        assert(x[x.len() - 1] == w[x.len() - 1] || 65 <= x[x.len() - 1] as u32 <= 90);
        text_laws::law_trimmed_is_between(a, x, b);
    }
}

/// The words that switch a setting on: 1, true, yes and on, in any case and
/// with any white space around them; every other text switches it off.
pub proof fn law_switch_words(v: Seq<char>)
    ensures
        config::flag_on(v) == says_on(v),
{
    reveal_strlit("1");
    reveal_strlit("true");
    reveal_strlit("yes");
    reveal_strlit("on");
    lemma_says(v, "1"@);
    lemma_says(v, "true"@);
    lemma_says(v, "yes"@);
    lemma_says(v, "on"@);
}

/// A switch follows its variable: what the first entry says, or else what
/// it was.
pub open spec fn switch(now: bool, was: bool, env: Seq<(String, String)>, key: Seq<char>) -> bool {
    &&& forall|v: Seq<char>| #[trigger] given(env, key, v) ==> now == says_on(v)
    &&& unset(env, key) ==> now == was
}

proof fn lemma_switch(now: bool, was: bool, env: Seq<(String, String)>, key: Seq<char>)
    requires
        now == config::over(config::env_flag(env, key), was),
    ensures
        switch(now, was, env, key),
{
    assert forall|v: Seq<char>| #[trigger] given(env, key, v) implies now == says_on(v) by {
        lemma_given(env, key, v);
        law_switch_words(v);
    }
    if unset(env, key) {
        lemma_unset(env, key);
    }
}

/// A number follows its variable: a decimal number in range, with any white
/// space around it, is taken; one out of range, a text that is no number,
/// or no entry leaves what was.
pub open spec fn number(
    now: int,
    was: int,
    env: Seq<(String, String)>,
    key: Seq<char>,
    max: int,
) -> bool {
    &&& forall|a: Seq<char>, n: nat, b: Seq<char>|
        #![trigger given(env, key, a + text::decimal(n) + b)]
        given(env, key, a + text::decimal(n) + b) && text_laws::blank(a) && text_laws::blank(b)
            ==> now == if n <= max {
            n as int
        } else {
            was
        }
    &&& forall|a: Seq<char>, x: Seq<char>, b: Seq<char>, i: int|
        #![trigger given(env, key, a + x + b), x[i]]
        given(env, key, a + x + b) && text_laws::blank(a) && text_laws::blank(b)
            && text_laws::solid(x) && 1 <= i < x.len() && !('0' <= x[i] && x[i] <= '9') ==> now
            == was
    &&& unset(env, key) ==> now == was
}

proof fn lemma_number(now: int, was: int, env: Seq<(String, String)>, key: Seq<char>, max: nat)
    requires
        was >= 0,
        now == config::over(config::env_nat(env, key, max), was as nat),
    ensures
        number(now, was, env, key, max as int),
{
    assert forall|a: Seq<char>, n: nat, b: Seq<char>|
        #![trigger given(env, key, a + text::decimal(n) + b)]
        given(env, key, a + text::decimal(n) + b) && text_laws::blank(a) && text_laws::blank(
            b,
        ) implies now == if n <= max {
        n as int
    } else {
        was
    } by {
        lemma_given(env, key, a + text::decimal(n) + b);
        text_laws::law_numbers_are_read(n);
        text_laws::law_trimmed_is_between(a, text::decimal(n), b);
    }
    assert forall|a: Seq<char>, x: Seq<char>, b: Seq<char>, i: int|
        #![trigger given(env, key, a + x + b), x[i]]
        given(env, key, a + x + b) && text_laws::blank(a) && text_laws::blank(b)
            && text_laws::solid(x) && 1 <= i < x.len() && !('0' <= x[i] && x[i]
            <= '9') implies now == was by {
        lemma_given(env, key, a + x + b);
        text_laws::law_trimmed_is_between(a, x, b);
        text_laws::law_other_texts_are_no_numbers(x, i);
    }
    if unset(env, key) {
        lemma_unset(env, key);
    }
}

/// A text follows its variable as it stands.
pub open spec fn words(
    now: Seq<char>,
    was: Seq<char>,
    env: Seq<(String, String)>,
    key: Seq<char>,
) -> bool {
    &&& forall|v: Seq<char>| #[trigger] given(env, key, v) ==> now == v
    &&& unset(env, key) ==> now == was
}

proof fn lemma_words(now: Seq<char>, was: Seq<char>, env: Seq<(String, String)>, key: Seq<char>)
    requires
        now == config::over(config::env_text(env, key), was),
    ensures
        words(now, was, env, key),
{
    assert forall|v: Seq<char>| #[trigger] given(env, key, v) implies now == v by {
        lemma_given(env, key, v);
    }
    if unset(env, key) {
        lemma_unset(env, key);
    }
}

/// What `Config::apply_env` makes of a configuration.
pub open spec fn applied(before: Config, env: Seq<(String, String)>, after: Config) -> bool {
    &&& config::core_env(before.core, env, after.core)
    &&& config::reactor_env(before.reactor, env, after.reactor)
    &&& config::udp_env(before.udp, env, after.udp)
    &&& config::tcp_env(before.tcp, env, after.tcp)
    &&& config::metrics_env(before.metrics, env, after.metrics)
    &&& config::engine_env(before.engine, env, after.engine)
    &&& config::af_xdp_env(before.af_xdp, env, after.af_xdp)
}

/// Every switch follows the variable of its name.
pub proof fn law_switches_follow_their_variables(
    before: Config,
    env: Seq<(String, String)>,
    after: Config,
)
    requires
        applied(before, env, after),
    ensures
        switch(after.core.pin_cores, before.core.pin_cores, env, "FDS_CORE_PIN_CORES"@),
        switch(after.reactor.busy_poll, before.reactor.busy_poll, env, "FDS_REACTOR_BUSY_POLL"@),
        switch(after.udp.gro, before.udp.gro, env, "FDS_UDP_GRO"@),
        switch(after.udp.zerocopy, before.udp.zerocopy, env, "FDS_UDP_ZEROCOPY"@),
        switch(after.udp.ipv6_only, before.udp.ipv6_only, env, "FDS_UDP_IPV6_ONLY"@),
        switch(after.tcp.nodelay, before.tcp.nodelay, env, "FDS_TCP_NODELAY"@),
        switch(after.tcp.quickack, before.tcp.quickack, env, "FDS_TCP_QUICKACK"@),
        switch(after.tcp.ipv6_only, before.tcp.ipv6_only, env, "FDS_TCP_IPV6_ONLY"@),
        switch(after.engine.userspace_tcp, before.engine.userspace_tcp, env, "FDS_ENGINE_USERSPACE_TCP"@),
        switch(after.af_xdp.zero_copy, before.af_xdp.zero_copy, env, "FDS_AF_XDP_ZERO_COPY"@),
        switch(after.af_xdp.numa, before.af_xdp.numa, env, "FDS_AF_XDP_NUMA"@),
{
    lemma_switch(after.core.pin_cores, before.core.pin_cores, env, "FDS_CORE_PIN_CORES"@);
    lemma_switch(after.reactor.busy_poll, before.reactor.busy_poll, env, "FDS_REACTOR_BUSY_POLL"@);
    lemma_switch(after.udp.gro, before.udp.gro, env, "FDS_UDP_GRO"@);
    lemma_switch(after.udp.zerocopy, before.udp.zerocopy, env, "FDS_UDP_ZEROCOPY"@);
    lemma_switch(after.udp.ipv6_only, before.udp.ipv6_only, env, "FDS_UDP_IPV6_ONLY"@);
    lemma_switch(after.tcp.nodelay, before.tcp.nodelay, env, "FDS_TCP_NODELAY"@);
    lemma_switch(after.tcp.quickack, before.tcp.quickack, env, "FDS_TCP_QUICKACK"@);
    lemma_switch(after.tcp.ipv6_only, before.tcp.ipv6_only, env, "FDS_TCP_IPV6_ONLY"@);
    lemma_switch(after.engine.userspace_tcp, before.engine.userspace_tcp, env, "FDS_ENGINE_USERSPACE_TCP"@);
    lemma_switch(after.af_xdp.zero_copy, before.af_xdp.zero_copy, env, "FDS_AF_XDP_ZERO_COPY"@);
    lemma_switch(after.af_xdp.numa, before.af_xdp.numa, env, "FDS_AF_XDP_NUMA"@);
}

/// Every number follows the variable of its name.
pub proof fn law_numbers_follow_their_variables(
    before: Config,
    env: Seq<(String, String)>,
    after: Config,
)
    requires
        applied(before, env, after),
    ensures
        number(
            after.core.threads as int,
            before.core.threads as int,
            env,
            "FDS_CORE_THREADS"@,
            usize::MAX as int,
        ),
        number(
            after.reactor.max_events as int,
            before.reactor.max_events as int,
            env,
            "FDS_REACTOR_MAX_EVENTS"@,
            usize::MAX as int,
        ),
        number(
            after.reactor.io_uring_entries as int,
            before.reactor.io_uring_entries as int,
            env,
            "FDS_REACTOR_IO_URING_ENTRIES"@,
            0xffff_ffff,
        ),
        number(
            after.reactor.io_uring_sq_thread as int,
            before.reactor.io_uring_sq_thread as int,
            env,
            "FDS_REACTOR_IO_URING_SQ_THREAD"@,
            0xffff_ffff,
        ),
        number(
            after.af_xdp.queue as int,
            before.af_xdp.queue as int,
            env,
            "FDS_AF_XDP_QUEUE"@,
            0xffff_ffff,
        ),
        number(
            after.af_xdp.ring_size as int,
            before.af_xdp.ring_size as int,
            env,
            "FDS_AF_XDP_RING_SIZE"@,
            0xffff_ffff,
        ),
        number(
            after.af_xdp.num_frames as int,
            before.af_xdp.num_frames as int,
            env,
            "FDS_AF_XDP_NUM_FRAMES"@,
            0xffff_ffff,
        ),
{
    lemma_number(after.core.threads as int, before.core.threads as int, env, "FDS_CORE_THREADS"@, usize::MAX as nat);
    lemma_number(after.reactor.max_events as int, before.reactor.max_events as int, env, "FDS_REACTOR_MAX_EVENTS"@, usize::MAX as nat);
    lemma_number(after.reactor.io_uring_entries as int, before.reactor.io_uring_entries as int, env, "FDS_REACTOR_IO_URING_ENTRIES"@, u32::MAX as nat);
    lemma_number(after.reactor.io_uring_sq_thread as int, before.reactor.io_uring_sq_thread as int, env, "FDS_REACTOR_IO_URING_SQ_THREAD"@, u32::MAX as nat);
    lemma_number(after.af_xdp.queue as int, before.af_xdp.queue as int, env, "FDS_AF_XDP_QUEUE"@, u32::MAX as nat);
    lemma_number(after.af_xdp.ring_size as int, before.af_xdp.ring_size as int, env, "FDS_AF_XDP_RING_SIZE"@, u32::MAX as nat);
    lemma_number(after.af_xdp.num_frames as int, before.af_xdp.num_frames as int, env, "FDS_AF_XDP_NUM_FRAMES"@, u32::MAX as nat);
}

/// The poll timeout follows its variable, below zero too; a number out of
/// range leaves what was.
pub proof fn law_timeout_follows_its_variable(
    before: Config,
    env: Seq<(String, String)>,
    after: Config,
    a: Seq<char>,
    n: nat,
    b: Seq<char>,
)
    requires
        applied(before, env, after),
        text_laws::blank(a),
        text_laws::blank(b),
    ensures
        given(env, "FDS_REACTOR_TIMEOUT_MS"@, a + text::decimal(n) + b) ==> after.reactor.timeout_ms
            == if n <= 0x7fff_ffff {
            n as int
        } else {
            before.reactor.timeout_ms as int
        },
        given(env, "FDS_REACTOR_TIMEOUT_MS"@, a + (seq!['-'] + text::decimal(n)) + b)
            ==> after.reactor.timeout_ms == if n <= 0x8000_0000 {
            -(n as int)
        } else {
            before.reactor.timeout_ms as int
        },
        unset(env, "FDS_REACTOR_TIMEOUT_MS"@) ==> after.reactor.timeout_ms
            == before.reactor.timeout_ms,
{
    let key = "FDS_REACTOR_TIMEOUT_MS"@;
    let d = text::decimal(n);
    let m = seq!['-'] + d;
    text_laws::law_numbers_are_read(n);
    text_laws::law_trimmed_is_between(a, d, b);
    assert(m[0] == '-' && m.last() == d.last());
    text_laws::law_trimmed_is_between(a, m, b);
    if given(env, key, a + d + b) {
        lemma_given(env, key, a + d + b);
    }
    if given(env, key, a + m + b) {
        lemma_given(env, key, a + m + b);
    }
    if unset(env, key) {
        lemma_unset(env, key);
    }
}

/// Every text follows the variable of its name.
pub proof fn law_texts_follow_their_variables(
    before: Config,
    env: Seq<(String, String)>,
    after: Config,
)
    requires
        applied(before, env, after),
    ensures
        words(after.metrics.socket_path@, before.metrics.socket_path@, env, "FDS_METRICS_SOCKET_PATH"@),
        words(after.engine.udp_bind@, before.engine.udp_bind@, env, "FDS_ENGINE_UDP_BIND"@),
        words(after.engine.tcp_bind@, before.engine.tcp_bind@, env, "FDS_ENGINE_TCP_BIND"@),
        words(after.af_xdp.device@, before.af_xdp.device@, env, "FDS_AF_XDP_DEVICE"@),
        words(after.af_xdp.xskmap@, before.af_xdp.xskmap@, env, "FDS_AF_XDP_XSKMAP"@),
{
    lemma_words(after.metrics.socket_path@, before.metrics.socket_path@, env, "FDS_METRICS_SOCKET_PATH"@);
    lemma_words(after.engine.udp_bind@, before.engine.udp_bind@, env, "FDS_ENGINE_UDP_BIND"@);
    lemma_words(after.engine.tcp_bind@, before.engine.tcp_bind@, env, "FDS_ENGINE_TCP_BIND"@);
    lemma_words(after.af_xdp.device@, before.af_xdp.device@, env, "FDS_AF_XDP_DEVICE"@);
    lemma_words(after.af_xdp.xskmap@, before.af_xdp.xskmap@, env, "FDS_AF_XDP_XSKMAP"@);
}

/// The polling strategy follows its variable: epoll and epoll-busy-poll
/// name the one, io-uring and iouring the other, in any case and with any
/// white space around them; any other text leaves what was and is
/// reported.
pub proof fn law_strategy_follows_its_variable(
    before: Config,
    env: Seq<(String, String)>,
    after: Config,
    v: Seq<char>,
)
    requires
        applied(before, env, after),
    ensures
        given(env, "FDS_REACTOR_STRATEGY"@, v) && (says(v, "epoll"@) || says(
            v,
            "epoll-busy-poll"@,
        )) ==> after.reactor.strategy == ReactorStrategy::EpollBusyPoll
            && config::unknown_strategy(env) is None,
        given(env, "FDS_REACTOR_STRATEGY"@, v) && (says(v, "io-uring"@) || says(v, "iouring"@))
            ==> after.reactor.strategy == ReactorStrategy::IoUring && config::unknown_strategy(
            env,
        ) is None,
        given(env, "FDS_REACTOR_STRATEGY"@, v) && !says(v, "epoll"@) && !says(
            v,
            "epoll-busy-poll"@,
        ) && !says(v, "io-uring"@) && !says(v, "iouring"@) ==> after.reactor.strategy
            == before.reactor.strategy && config::unknown_strategy(env) is Some,
        unset(env, "FDS_REACTOR_STRATEGY"@) ==> after.reactor.strategy == before.reactor.strategy
            && config::unknown_strategy(env) is None,
{
    let key = "FDS_REACTOR_STRATEGY"@;
    reveal_strlit("epoll");
    reveal_strlit("epoll-busy-poll");
    reveal_strlit("io-uring");
    reveal_strlit("iouring");
    lemma_says(v, "epoll"@);
    lemma_says(v, "epoll-busy-poll"@);
    lemma_says(v, "io-uring"@);
    lemma_says(v, "iouring"@);
    assert("epoll"@.len() == 5);
    assert("epoll-busy-poll"@.len() == 15);
    assert("io-uring"@.len() == 8);
    assert("iouring"@.len() == 7);
    if given(env, key, v) {
        lemma_given(env, key, v);
    }
    if unset(env, key) {
        lemma_unset(env, key);
    }
}

/// The numbers of a comma-separated list, in order: each entry may have
/// white space around it, and entries that are no 32-bit numbers are left
/// out.
pub proof fn law_queue_lists(a: Seq<char>, n: nat, b: Seq<char>, x: Seq<char>, rest: Seq<char>)
    requires
        text_laws::blank(a),
        text_laws::blank(b),
        !a.contains(','),
        !b.contains(','),
        !x.contains(','),
        text::unsigned_value(text::trimmed(x)) is None,
    ensures
        ({
            let d = text::decimal(n);
            let tail = config::queue_list(text::pieces(rest, ','));
            &&& n <= 0xffff_ffff ==> config::queue_list(text::pieces(a + d + b, ',')) == seq![
                n as u32,
            ]
            &&& n <= 0xffff_ffff ==> config::queue_list(
                text::pieces(a + d + b + seq![','] + rest, ','),
            ) == seq![n as u32] + tail
            &&& n > 0xffff_ffff ==> config::queue_list(
                text::pieces(a + d + b + seq![','] + rest, ','),
            ) == tail
            &&& config::queue_list(text::pieces(x + seq![','] + rest, ',')) == tail
        }),
{
    let d = text::decimal(n);
    let e = a + d + b;
    text_laws::law_numbers_are_read(n);
    text_laws::law_trimmed_is_between(a, d, b);
    text::law_decimal_roundtrip(n);
    assert(!e.contains(',')) by {
        if e.contains(',') {
            let k = choose|k: int| 0 <= k < e.len() && e[k] == ',';
            if k < a.len() {
                assert(a[k] == ',');
            } else if k < a.len() + d.len() {
                assert(d[k - a.len()] == ',');
                assert(text::digit(d[k - a.len()]));
            } else {
                assert(b[k - a.len() - d.len()] == ',');
            }
        }
    }
    text_laws::law_pieces(e, ',', rest);
    text_laws::law_pieces(x, ',', rest);
    lemma_list_front(e, text::pieces(rest, ','));
    lemma_list_front(x, text::pieces(rest, ','));
    lemma_list_front(e, Seq::empty());
    assert(seq![e] + Seq::<Seq<char>>::empty() =~= seq![e]);
    assert(seq![n as u32] + Seq::<u32>::empty() =~= seq![n as u32]);
    let tail = config::queue_list(text::pieces(rest, ','));
    assert(Seq::<u32>::empty() + tail =~= tail);
}

/// What one entry of a list gives.
spec fn one(e: Seq<char>) -> Seq<u32> {
    match text::unsigned_value(text::trimmed(e)) {
        Some(n) => if n <= u32::MAX {
            seq![n as u32]
        } else {
            Seq::empty()
        },
        None => Seq::empty(),
    }
}

proof fn lemma_list_front(e: Seq<char>, rest: Seq<Seq<char>>)
    ensures
        config::queue_list(seq![e] + rest) == one(e) + config::queue_list(rest),
    decreases rest.len(),
{
    let all = seq![e] + rest;
    if rest.len() == 0 {
        assert(all.drop_last() =~= Seq::empty());
        assert(all.last() == e);
        assert(config::queue_list(all.drop_last()) =~= Seq::<u32>::empty());
        assert(config::queue_list(all) =~= one(e));
        assert(one(e) + Seq::<u32>::empty() =~= one(e));
    } else {
        assert(all.drop_last() =~= seq![e] + rest.drop_last());
        assert(all.last() == rest.last());
        lemma_list_front(e, rest.drop_last());
        assert(config::queue_list(all) =~= one(e) + config::queue_list(rest));
    }
}

/// The queue list follows its variable.
pub proof fn law_queues_follow_their_variable(
    before: Config,
    env: Seq<(String, String)>,
    after: Config,
    v: Seq<char>,
)
    requires
        applied(before, env, after),
    ensures
        given(env, "FDS_AF_XDP_QUEUES"@, v) ==> after.af_xdp.queues@ == config::queue_list(
            text::pieces(v, ','),
        ),
        unset(env, "FDS_AF_XDP_QUEUES"@) ==> after.af_xdp.queues@ == before.af_xdp.queues@,
{
    if given(env, "FDS_AF_XDP_QUEUES"@, v) {
        lemma_given(env, "FDS_AF_XDP_QUEUES"@, v);
    }
    if unset(env, "FDS_AF_XDP_QUEUES"@) {
        lemma_unset(env, "FDS_AF_XDP_QUEUES"@);
    }
}

/// No variable touches the other settings.
pub proof fn law_other_settings_stay(before: Config, env: Seq<(String, String)>, after: Config)
    requires
        applied(before, env, after),
    ensures
        after.core.stack_bytes == before.core.stack_bytes,
        after.udp.rcvbuf == before.udp.rcvbuf,
        after.udp.sndbuf == before.udp.sndbuf,
        after.udp.gso_segment_size == before.udp.gso_segment_size,
        after.udp.reuseport == before.udp.reuseport,
        after.udp.incoming_cpu == before.udp.incoming_cpu,
        after.tcp.defer_accept == before.tcp.defer_accept,
        after.tcp.fastopen == before.tcp.fastopen,
        after.tcp.cork == before.tcp.cork,
        after.tcp.reuseport == before.tcp.reuseport,
        after.tcp.rcvbuf == before.tcp.rcvbuf,
        after.tcp.sndbuf == before.tcp.sndbuf,
{
}

} // verus!
