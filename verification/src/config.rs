//! Runtime configuration: the settings with their defaults, and the
//! environment variables (`FDS_<SECTION>_<KEY>`) that override single
//! settings.
use vstd::prelude::*;
use crate::text;

verus! {

/// Polling strategy.
#[derive(Clone, Copy, Debug, PartialEq, Eq, Structural)]
pub enum ReactorStrategy {
    /// epoll edge-triggered, busy-poll (timeout 0); the default.
    EpollBusyPoll,
    /// io_uring.
    IoUring,
}

impl Default for ReactorStrategy {
    fn default() -> (r: Self)
        ensures
            r == ReactorStrategy::EpollBusyPoll,
    {
        ReactorStrategy::EpollBusyPoll
    }
}

/// Application-level binds of the built-in engine loop (UDP/TCP echo).
#[derive(Clone, Debug)]
pub struct EngineConfig {
    /// UDP echo bind address ("ip:port").
    pub udp_bind: String,
    /// TCP echo bind address ("ip:port").
    pub tcp_bind: String,
    /// Run the userspace TCP stack on the AF_XDP datapath instead of the UDP
    /// frame echo.
    pub userspace_tcp: bool,
}

impl Default for EngineConfig {
    fn default() -> (r: Self)
        ensures
            r.udp_bind@ == "127.0.0.1:7777"@,
            r.tcp_bind@ == "127.0.0.1:7778"@,
            r.userspace_tcp == false,
    {
        EngineConfig {
            udp_bind: "127.0.0.1:7777".to_string(),
            tcp_bind: "127.0.0.1:7778".to_string(),
            userspace_tcp: false,
        }
    }
}

/// Worker threads.
#[derive(Clone, Debug)]
pub struct CoreConfig {
    /// Pin each worker. When the worker count fits on the physical cores, pin
    /// to the first SMT sibling of a distinct core; otherwise pin worker `i` to
    /// logical CPU `i`.
    pub pin_cores: bool,
    /// Worker thread count; 0 = one per logical CPU.
    pub threads: usize,
    /// Stack size for worker threads, in bytes.
    pub stack_bytes: usize,
}

impl Default for CoreConfig {
    fn default() -> (r: Self)
        ensures
            r.pin_cores == true,
            r.threads == 0,
            r.stack_bytes == 1048576,
    {
        CoreConfig {
            pin_cores: true,
            threads: 0,
            stack_bytes: 1048576,
        }
    }
}

/// Event polling.
#[derive(Clone, Debug)]
pub struct ReactorConfig {
    /// Polling strategy.
    pub strategy: ReactorStrategy,
    /// Preallocated event array capacity per reactor.
    pub max_events: usize,
    /// Busy-poll the ready queue to empty before yielding (explicit spin with
    /// a zero epoll timeout; for dedicated cores only).
    pub busy_poll: bool,
    /// Poll timeout in milliseconds when not busy-polling.
    pub timeout_ms: i32,
    /// io_uring ring entries (strategy `io-uring`).
    pub io_uring_entries: u32,
    /// io_uring SQPOLL thread CPU; 0 = no SQPOLL thread.
    pub io_uring_sq_thread: u32,
}

impl Default for ReactorConfig {
    fn default() -> (r: Self)
        ensures
            r.strategy == ReactorStrategy::EpollBusyPoll,
            r.max_events == 256,
            r.busy_poll == false,
            r.timeout_ms == 0,
            r.io_uring_entries == 256,
            r.io_uring_sq_thread == 0,
    {
        ReactorConfig {
            strategy: ReactorStrategy::EpollBusyPoll,
            max_events: 256,
            busy_poll: false,
            timeout_ms: 0,
            io_uring_entries: 256,
            io_uring_sq_thread: 0,
        }
    }
}

/// UDP sockets.
#[derive(Clone, Debug)]
pub struct UdpConfig {
    /// SO_RCVBUF in bytes.
    pub rcvbuf: usize,
    /// SO_SNDBUF in bytes.
    pub sndbuf: usize,
    /// UDP_SEGMENT (GSO) max segment size; 0 = off.
    pub gso_segment_size: usize,
    /// UDP_GRO coalescing.
    pub gro: bool,
    /// MSG_ZEROCOPY for large datagrams.
    pub zerocopy: bool,
    /// SO_REUSEPORT (one socket per core).
    pub reuseport: bool,
    /// SO_INCOMING_CPU steering. Off by default: on a machine with one receive
    /// CPU it would steer every flow to a single worker.
    pub incoming_cpu: bool,
    /// `IPV6_V6ONLY` on IPv6 binds. `false` is dual-stack: an `[::]` bind also
    /// accepts IPv4-mapped clients.
    pub ipv6_only: bool,
}

impl Default for UdpConfig {
    fn default() -> (r: Self)
        ensures
            r.rcvbuf == 4194304,
            r.sndbuf == 4194304,
            r.gso_segment_size == 0,
            r.gro == false,
            r.zerocopy == false,
            r.reuseport == true,
            r.incoming_cpu == false,
            r.ipv6_only == false,
    {
        UdpConfig {
            rcvbuf: 4194304,
            sndbuf: 4194304,
            gso_segment_size: 0,
            gro: false,
            zerocopy: false,
            reuseport: true,
            incoming_cpu: false,
            ipv6_only: false,
        }
    }
}

/// TCP sockets.
#[derive(Clone, Debug)]
pub struct TcpConfig {
    /// TCP_NODELAY.
    pub nodelay: bool,
    /// TCP_QUICKACK.
    pub quickack: bool,
    /// TCP_DEFER_ACCEPT.
    pub defer_accept: bool,
    /// TCP_FASTOPEN queue length; 0 = off.
    pub fastopen: u32,
    /// TCP_CORK.
    pub cork: bool,
    /// SO_REUSEPORT.
    pub reuseport: bool,
    /// SO_RCVBUF in bytes.
    pub rcvbuf: usize,
    /// SO_SNDBUF in bytes.
    pub sndbuf: usize,
    /// `IPV6_V6ONLY` on IPv6 binds. `false` is dual-stack.
    pub ipv6_only: bool,
}

impl Default for TcpConfig {
    fn default() -> (r: Self)
        ensures
            r.nodelay == true,
            r.quickack == false,
            r.defer_accept == false,
            r.fastopen == 0,
            r.cork == false,
            r.reuseport == true,
            r.rcvbuf == 4194304,
            r.sndbuf == 4194304,
            r.ipv6_only == false,
    {
        TcpConfig {
            nodelay: true,
            quickack: false,
            defer_accept: false,
            fastopen: 0,
            cork: false,
            reuseport: true,
            rcvbuf: 4194304,
            sndbuf: 4194304,
            ipv6_only: false,
        }
    }
}

/// SCTP sockets.
#[derive(Clone, Debug)]
pub struct SctpConfig {
    /// SCTP_NODELAY.
    pub nodelay: bool,
    /// SCTP_INITMSG max streams (in/out).
    pub init_max_streams: u16,
    /// SCTP_PARTIAL_DELIVERY_POINT, bytes.
    pub partial_delivery_point: u32,
    /// SCTP_MAX_BURST; 0 = kernel default.
    pub max_burst: u32,
    /// SO_REUSEPORT.
    pub reuseport: bool,
}

impl Default for SctpConfig {
    fn default() -> (r: Self)
        ensures
            r.nodelay == true,
            r.init_max_streams == 10,
            r.partial_delivery_point == 0,
            r.max_burst == 0,
            r.reuseport == true,
    {
        SctpConfig {
            nodelay: true,
            init_max_streams: 10,
            partial_delivery_point: 0,
            max_burst: 0,
            reuseport: true,
        }
    }
}

/// Metrics endpoint.
#[derive(Clone, Debug)]
pub struct MetricsConfig {
    /// Unix socket path for the pull endpoint; empty = disabled.
    pub socket_path: String,
}

impl Default for MetricsConfig {
    fn default() -> (r: Self)
        ensures
            r.socket_path@ == "/tmp/fds-metrics.sock"@,
    {
        MetricsConfig {
            socket_path: "/tmp/fds-metrics.sock".to_string(),
        }
    }
}

/// Zero-copy paths.
#[derive(Clone, Debug)]
pub struct ZeroCopyConfig {
    /// sendfile/splice for file-backed TCP responses.
    pub splice: bool,
    /// io_uring registered buffers.
    pub registered_buffers: bool,
    /// MSG_ZEROCOPY for large UDP datagrams.
    pub udp_zerocopy: bool,
}

impl Default for ZeroCopyConfig {
    fn default() -> (r: Self)
        ensures
            r.splice == true,
            r.registered_buffers == false,
            r.udp_zerocopy == false,
    {
        ZeroCopyConfig {
            splice: true,
            registered_buffers: false,
            udp_zerocopy: false,
        }
    }
}

/// AF_XDP device binding. A nonempty `device` makes every worker bind a queue
/// of the device and run the frame datapath instead of kernel sockets.
#[derive(Clone, Debug)]
pub struct AfXdpConfig {
    /// Device name (e.g. "eth0"); empty = disabled.
    pub device: String,
    /// Queue id on the device (used when `queues` is empty).
    pub queue: u32,
    /// Per-worker queue ids (one per worker, round-robin when shorter).
    pub queues: Vec<u32>,
    /// Bind with XDP_ZEROCOPY (falls back to XDP_COPY when the driver rejects
    /// it).
    pub zero_copy: bool,
    /// Per-ring entry count (power of two).
    pub ring_size: u32,
    /// Umem frame count.
    pub num_frames: u32,
    /// Bind each worker's umem to its NUMA node.
    pub numa: bool,
    /// Pinned XSKMAP path to register the socket in; empty = do not register.
    pub xskmap: String,
}

impl Default for AfXdpConfig {
    fn default() -> (r: Self)
        ensures
            r.device@ == ""@,
            r.queue == 0,
            r.queues@ == Seq::<u32>::empty(),
            r.zero_copy == true,
            r.ring_size == 256,
            r.num_frames == 4096,
            r.numa == false,
            r.xskmap@ == ""@,
    {
        proof {
            reveal_strlit("");
        }
        AfXdpConfig {
            device: String::new(),
            queue: 0,
            queues: Vec::new(),
            zero_copy: true,
            ring_size: 256,
            num_frames: 4096,
            numa: false,
            xskmap: String::new(),
        }
    }
}

/// Full engine configuration.
#[derive(Clone, Debug)]
pub struct Config {
    pub core: CoreConfig,
    pub reactor: ReactorConfig,
    pub udp: UdpConfig,
    pub tcp: TcpConfig,
    pub sctp: SctpConfig,
    pub metrics: MetricsConfig,
    pub zero_copy: ZeroCopyConfig,
    pub engine: EngineConfig,
    pub af_xdp: AfXdpConfig,
}

impl Default for Config {
    fn default() -> (r: Self)
        ensures
            call_ensures(CoreConfig::default, (), r.core),
            call_ensures(ReactorConfig::default, (), r.reactor),
            call_ensures(UdpConfig::default, (), r.udp),
            call_ensures(TcpConfig::default, (), r.tcp),
            call_ensures(SctpConfig::default, (), r.sctp),
            call_ensures(MetricsConfig::default, (), r.metrics),
            call_ensures(ZeroCopyConfig::default, (), r.zero_copy),
            call_ensures(EngineConfig::default, (), r.engine),
            call_ensures(AfXdpConfig::default, (), r.af_xdp),
    {
        Config {
            core: CoreConfig::default(),
            reactor: ReactorConfig::default(),
            udp: UdpConfig::default(),
            tcp: TcpConfig::default(),
            sctp: SctpConfig::default(),
            metrics: MetricsConfig::default(),
            zero_copy: ZeroCopyConfig::default(),
            engine: EngineConfig::default(),
            af_xdp: AfXdpConfig::default(),
        }
    }
}

// ---------------------------------------------------------------------
// Environment
// ---------------------------------------------------------------------

/// The value of an environment variable: that of the first entry with its
/// name.
pub open spec fn env_text(env: Seq<(String, String)>, key: Seq<char>) -> Option<Seq<char>>
    decreases env.len(),
{
    if env.len() == 0 {
        None
    } else if env[0].0@ == key {
        Some(env[0].1@)
    } else {
        env_text(env.skip(1), key)
    }
}

/// The words that switch a setting on.
pub open spec fn flag_on(v: Seq<char>) -> bool {
    let t = text::trimmed(v).map_values(|c: char| text::lower(c));
    t == "1"@ || t == "true"@ || t == "yes"@ || t == "on"@
}

/// A switch: any value sets it, the listed words to `true`.
pub open spec fn env_flag(env: Seq<(String, String)>, key: Seq<char>) -> Option<bool> {
    match env_text(env, key) {
        Some(v) => Some(flag_on(v)),
        None => None,
    }
}

/// A number not below zero and not above `max`; any other text sets
/// nothing.
pub open spec fn env_nat(env: Seq<(String, String)>, key: Seq<char>, max: nat) -> Option<nat> {
    match env_text(env, key) {
        Some(v) => match text::unsigned_value(text::trimmed(v)) {
            Some(n) => if n <= max {
                Some(n)
            } else {
                None
            },
            None => None,
        },
        None => None,
    }
}

/// A signed 32-bit number; any other text sets nothing.
pub open spec fn env_int(env: Seq<(String, String)>, key: Seq<char>) -> Option<int> {
    match env_text(env, key) {
        Some(v) => match text::signed_value(text::trimmed(v)) {
            Some(n) => if i32::MIN <= n <= i32::MAX {
                Some(n)
            } else {
                None
            },
            None => None,
        },
        None => None,
    }
}

/// The strategy that a text names, if it names one.
pub open spec fn strategy_of(v: Seq<char>) -> Option<ReactorStrategy> {
    let t = text::trimmed(v).map_values(|c: char| text::lower(c));
    if t == "epoll"@ || t == "epoll-busy-poll"@ {
        Some(ReactorStrategy::EpollBusyPoll)
    } else if t == "io-uring"@ || t == "iouring"@ {
        Some(ReactorStrategy::IoUring)
    } else {
        None
    }
}

/// The numbers among comma-separated entries; entries that are no 32-bit
/// number are left out.
pub open spec fn queue_list(entries: Seq<Seq<char>>) -> Seq<u32>
    decreases entries.len(),
{
    if entries.len() == 0 {
        Seq::empty()
    } else {
        let before = queue_list(entries.drop_last());
        match text::unsigned_value(text::trimmed(entries.last())) {
            Some(n) => if n <= u32::MAX {
                before.push(n as u32)
            } else {
                before
            },
            None => before,
        }
    }
}

/// What was read, or else the value that stood before.
pub open spec fn over<T>(read: Option<T>, before: T) -> T {
    match read {
        Some(v) => v,
        None => before,
    }
}

fn lookup<'a>(env: &'a Vec<(String, String)>, key: &str) -> (r: Option<&'a String>)
    ensures
        match r {
            Some(v) => env_text(env@, key@) == Some(v@),
            None => env_text(env@, key@) == None::<Seq<char>>,
        },
{
    let mut i: usize = 0;
    assert(env@.skip(0) =~= env@);
    while i < env.len()
        invariant
            i <= env@.len(),
            env_text(env@.skip(i as int), key@) == env_text(env@, key@),
        decreases env@.len() - i,
    {
        assert(env@.skip(i as int).skip(1) =~= env@.skip(i + 1));
        assert(env@.skip(i as int)[0] == env@[i as int]);
        if text::same_text(env[i].0.as_str(), key) {
            return Some(&env[i].1);
        }
        i += 1;
    }
    None
}

fn read_flag(env: &Vec<(String, String)>, key: &str) -> (r: Option<bool>)
    ensures
        r == env_flag(env@, key@),
{
    match lookup(env, key) {
        None => None,
        Some(v) => {
            let cs = text::to_chars(v.as_str());
            let low = text::to_ascii_lowercase(text::trim(cs.as_slice()));
            let t = low.as_slice();
            Some(
                text::is_text(t, "1") || text::is_text(t, "true") || text::is_text(t, "yes")
                    || text::is_text(t, "on"),
            )
        },
    }
}

fn read_u32(env: &Vec<(String, String)>, key: &str) -> (r: Option<u32>)
    ensures
        r == match env_nat(env@, key@, u32::MAX as nat) {
            Some(n) => Some(n as u32),
            None => None,
        },
{
    match lookup(env, key) {
        None => None,
        Some(v) => {
            let cs = text::to_chars(v.as_str());
            text::parse_u32(text::trim(cs.as_slice()))
        },
    }
}

fn read_usize(env: &Vec<(String, String)>, key: &str) -> (r: Option<usize>)
    ensures
        r == match env_nat(env@, key@, usize::MAX as nat) {
            Some(n) => Some(n as usize),
            None => None,
        },
{
    match lookup(env, key) {
        None => None,
        Some(v) => {
            let cs = text::to_chars(v.as_str());
            text::parse_usize(text::trim(cs.as_slice()))
        },
    }
}

fn read_i32(env: &Vec<(String, String)>, key: &str) -> (r: Option<i32>)
    ensures
        r == match env_int(env@, key@) {
            Some(n) => Some(n as i32),
            None => None,
        },
{
    match lookup(env, key) {
        None => None,
        Some(v) => {
            let cs = text::to_chars(v.as_str());
            text::parse_i32(text::trim(cs.as_slice()))
        },
    }
}

fn set_flag(field: &mut bool, env: &Vec<(String, String)>, key: &str)
    ensures
        *final(field) == over(env_flag(env@, key@), *old(field)),
{
    if let Some(v) = read_flag(env, key) {
        *field = v;
    }
}

fn set_u32(field: &mut u32, env: &Vec<(String, String)>, key: &str)
    ensures
        *final(field) == over(env_nat(env@, key@, u32::MAX as nat), *old(field) as nat),
{
    if let Some(v) = read_u32(env, key) {
        *field = v;
    }
}

fn set_usize(field: &mut usize, env: &Vec<(String, String)>, key: &str)
    ensures
        *final(field) == over(env_nat(env@, key@, usize::MAX as nat), *old(field) as nat),
{
    if let Some(v) = read_usize(env, key) {
        *field = v;
    }
}

fn set_i32(field: &mut i32, env: &Vec<(String, String)>, key: &str)
    ensures
        *final(field) == over(env_int(env@, key@), *old(field) as int),
{
    if let Some(v) = read_i32(env, key) {
        *field = v;
    }
}

fn set_text(field: &mut String, env: &Vec<(String, String)>, key: &str)
    ensures
        final(field)@ == over(env_text(env@, key@), old(field)@),
{
    if let Some(v) = lookup(env, key) {
        *field = v.clone();
    }
}

/// The strategy that a setting names.
pub fn parse_strategy(v: &str) -> (r: Option<ReactorStrategy>)
    ensures
        r == strategy_of(v@),
{
    let cs = text::to_chars(v);
    let low = text::to_ascii_lowercase(text::trim(cs.as_slice()));
    let t = low.as_slice();
    if text::is_text(t, "epoll") || text::is_text(t, "epoll-busy-poll") {
        Some(ReactorStrategy::EpollBusyPoll)
    } else if text::is_text(t, "io-uring") || text::is_text(t, "iouring") {
        Some(ReactorStrategy::IoUring)
    } else {
        None
    }
}

/// The queue ids of a comma-separated list.
pub fn parse_queues(v: &str) -> (r: Vec<u32>)
    ensures
        r@ == queue_list(text::pieces(v@, ',')),
{
    let cs = text::to_chars(v);
    let parts = text::split(cs.as_slice(), ',');
    let ghost all = text::pieces(v@, ',');
    let mut out: Vec<u32> = Vec::new();
    let mut i: usize = 0;
    while i < parts.len()
        invariant
            i <= parts@.len(),
            all == text::slice_views(parts@),
            out@ == queue_list(all.take(i as int)),
        decreases parts@.len() - i,
    {
        proof {
            assert(all.take(i + 1).drop_last() =~= all.take(i as int));
            assert(all.take(i + 1).last() == parts@[i as int]@);
        }
        if let Some(n) = text::parse_u32(text::trim(parts[i])) {
            out.push(n);
        }
        i += 1;
    }
    assert(all.take(i as int) =~= all);
    out
}

/// What the environment makes of the `core` section.
pub open spec fn core_env(before: CoreConfig, env: Seq<(String, String)>, after: CoreConfig) -> bool {
    &&& after.pin_cores == over(env_flag(env, "FDS_CORE_PIN_CORES"@), before.pin_cores)
    &&& after.threads == over(env_nat(env, "FDS_CORE_THREADS"@, usize::MAX as nat), before.threads as nat)
    &&& after.stack_bytes == before.stack_bytes
}

/// What the environment makes of the `reactor` section.
pub open spec fn reactor_env(before: ReactorConfig, env: Seq<(String, String)>, after: ReactorConfig) -> bool {
    &&& after.strategy == match env_text(env, "FDS_REACTOR_STRATEGY"@) {
        Some(v) => over(strategy_of(v), before.strategy),
        None => before.strategy,
    }
    &&& after.max_events == over(env_nat(env, "FDS_REACTOR_MAX_EVENTS"@, usize::MAX as nat), before.max_events as nat)
    &&& after.busy_poll == over(env_flag(env, "FDS_REACTOR_BUSY_POLL"@), before.busy_poll)
    &&& after.timeout_ms == over(env_int(env, "FDS_REACTOR_TIMEOUT_MS"@), before.timeout_ms as int)
    &&& after.io_uring_entries == over(env_nat(env, "FDS_REACTOR_IO_URING_ENTRIES"@, u32::MAX as nat), before.io_uring_entries as nat)
    &&& after.io_uring_sq_thread == over(env_nat(env, "FDS_REACTOR_IO_URING_SQ_THREAD"@, u32::MAX as nat), before.io_uring_sq_thread as nat)
}

/// What the environment makes of the `udp` section.
pub open spec fn udp_env(before: UdpConfig, env: Seq<(String, String)>, after: UdpConfig) -> bool {
    &&& after.rcvbuf == before.rcvbuf
    &&& after.sndbuf == before.sndbuf
    &&& after.gso_segment_size == before.gso_segment_size
    &&& after.gro == over(env_flag(env, "FDS_UDP_GRO"@), before.gro)
    &&& after.zerocopy == over(env_flag(env, "FDS_UDP_ZEROCOPY"@), before.zerocopy)
    &&& after.reuseport == before.reuseport
    &&& after.incoming_cpu == before.incoming_cpu
    &&& after.ipv6_only == over(env_flag(env, "FDS_UDP_IPV6_ONLY"@), before.ipv6_only)
}

/// What the environment makes of the `tcp` section.
pub open spec fn tcp_env(before: TcpConfig, env: Seq<(String, String)>, after: TcpConfig) -> bool {
    &&& after.nodelay == over(env_flag(env, "FDS_TCP_NODELAY"@), before.nodelay)
    &&& after.quickack == over(env_flag(env, "FDS_TCP_QUICKACK"@), before.quickack)
    &&& after.defer_accept == before.defer_accept
    &&& after.fastopen == before.fastopen
    &&& after.cork == before.cork
    &&& after.reuseport == before.reuseport
    &&& after.rcvbuf == before.rcvbuf
    &&& after.sndbuf == before.sndbuf
    &&& after.ipv6_only == over(env_flag(env, "FDS_TCP_IPV6_ONLY"@), before.ipv6_only)
}

/// What the environment makes of the `metrics` section.
pub open spec fn metrics_env(before: MetricsConfig, env: Seq<(String, String)>, after: MetricsConfig) -> bool {
    &&& after.socket_path@ == over(env_text(env, "FDS_METRICS_SOCKET_PATH"@), before.socket_path@)
}

/// What the environment makes of the `engine` section.
pub open spec fn engine_env(before: EngineConfig, env: Seq<(String, String)>, after: EngineConfig) -> bool {
    &&& after.udp_bind@ == over(env_text(env, "FDS_ENGINE_UDP_BIND"@), before.udp_bind@)
    &&& after.tcp_bind@ == over(env_text(env, "FDS_ENGINE_TCP_BIND"@), before.tcp_bind@)
    &&& after.userspace_tcp == over(env_flag(env, "FDS_ENGINE_USERSPACE_TCP"@), before.userspace_tcp)
}

/// What the environment makes of the `af_xdp` section.
pub open spec fn af_xdp_env(before: AfXdpConfig, env: Seq<(String, String)>, after: AfXdpConfig) -> bool {
    &&& after.device@ == over(env_text(env, "FDS_AF_XDP_DEVICE"@), before.device@)
    &&& after.queue == over(env_nat(env, "FDS_AF_XDP_QUEUE"@, u32::MAX as nat), before.queue as nat)
    &&& after.queues@ == match env_text(env, "FDS_AF_XDP_QUEUES"@) {
        Some(v) => queue_list(text::pieces(v, ',')),
        None => before.queues@,
    }
    &&& after.zero_copy == over(env_flag(env, "FDS_AF_XDP_ZERO_COPY"@), before.zero_copy)
    &&& after.ring_size == over(env_nat(env, "FDS_AF_XDP_RING_SIZE"@, u32::MAX as nat), before.ring_size as nat)
    &&& after.num_frames == over(env_nat(env, "FDS_AF_XDP_NUM_FRAMES"@, u32::MAX as nat), before.num_frames as nat)
    &&& after.numa == over(env_flag(env, "FDS_AF_XDP_NUMA"@), before.numa)
    &&& after.xskmap@ == over(env_text(env, "FDS_AF_XDP_XSKMAP"@), before.xskmap@)
}

/// The strategy text to report: the one that names no strategy, trimmed
/// and in lower case.
pub open spec fn unknown_strategy(env: Seq<(String, String)>) -> Option<Seq<char>> {
    match env_text(env, "FDS_REACTOR_STRATEGY"@) {
        Some(v) => if strategy_of(v) is None {
            Some(text::trimmed(v).map_values(|c: char| text::lower(c)))
        } else {
            None
        },
        None => None,
    }
}

fn apply_core(c: &mut CoreConfig, env: &Vec<(String, String)>)
    ensures
        core_env(*old(c), env@, *final(c)),
{
    set_flag(&mut c.pin_cores, env, "FDS_CORE_PIN_CORES");
    set_usize(&mut c.threads, env, "FDS_CORE_THREADS");
}

fn apply_reactor(c: &mut ReactorConfig, env: &Vec<(String, String)>) -> (unknown: Option<String>)
    ensures
        reactor_env(*old(c), env@, *final(c)),
        match unknown {
            Some(t) => unknown_strategy(env@) == Some(t@),
            None => unknown_strategy(env@) is None,
        },
{
    let mut unknown: Option<String> = None;
    if let Some(v) = lookup(env, "FDS_REACTOR_STRATEGY") {
        match parse_strategy(v.as_str()) {
            Some(s) => c.strategy = s,
            None => {
                let cs = text::to_chars(v.as_str());
                let low = text::to_ascii_lowercase(text::trim(cs.as_slice()));
                unknown = Some(text::string_of(low.as_slice()));
            },
        }
    }
    set_flag(&mut c.busy_poll, env, "FDS_REACTOR_BUSY_POLL");
    set_usize(&mut c.max_events, env, "FDS_REACTOR_MAX_EVENTS");
    set_i32(&mut c.timeout_ms, env, "FDS_REACTOR_TIMEOUT_MS");
    set_u32(&mut c.io_uring_entries, env, "FDS_REACTOR_IO_URING_ENTRIES");
    set_u32(&mut c.io_uring_sq_thread, env, "FDS_REACTOR_IO_URING_SQ_THREAD");
    unknown
}

fn apply_udp(c: &mut UdpConfig, env: &Vec<(String, String)>)
    ensures
        udp_env(*old(c), env@, *final(c)),
{
    set_flag(&mut c.gro, env, "FDS_UDP_GRO");
    set_flag(&mut c.zerocopy, env, "FDS_UDP_ZEROCOPY");
    set_flag(&mut c.ipv6_only, env, "FDS_UDP_IPV6_ONLY");
}

fn apply_tcp(c: &mut TcpConfig, env: &Vec<(String, String)>)
    ensures
        tcp_env(*old(c), env@, *final(c)),
{
    set_flag(&mut c.nodelay, env, "FDS_TCP_NODELAY");
    set_flag(&mut c.quickack, env, "FDS_TCP_QUICKACK");
    set_flag(&mut c.ipv6_only, env, "FDS_TCP_IPV6_ONLY");
}

fn apply_metrics(c: &mut MetricsConfig, env: &Vec<(String, String)>)
    ensures
        metrics_env(*old(c), env@, *final(c)),
{
    set_text(&mut c.socket_path, env, "FDS_METRICS_SOCKET_PATH");
}

fn apply_engine(c: &mut EngineConfig, env: &Vec<(String, String)>)
    ensures
        engine_env(*old(c), env@, *final(c)),
{
    set_text(&mut c.udp_bind, env, "FDS_ENGINE_UDP_BIND");
    set_text(&mut c.tcp_bind, env, "FDS_ENGINE_TCP_BIND");
    set_flag(&mut c.userspace_tcp, env, "FDS_ENGINE_USERSPACE_TCP");
}

fn apply_af_xdp(c: &mut AfXdpConfig, env: &Vec<(String, String)>)
    ensures
        af_xdp_env(*old(c), env@, *final(c)),
{
    if let Some(v) = lookup(env, "FDS_AF_XDP_QUEUES") {
        c.queues = parse_queues(v.as_str());
    }
    set_text(&mut c.device, env, "FDS_AF_XDP_DEVICE");
    set_u32(&mut c.queue, env, "FDS_AF_XDP_QUEUE");
    set_flag(&mut c.zero_copy, env, "FDS_AF_XDP_ZERO_COPY");
    set_u32(&mut c.ring_size, env, "FDS_AF_XDP_RING_SIZE");
    set_u32(&mut c.num_frames, env, "FDS_AF_XDP_NUM_FRAMES");
    set_flag(&mut c.numa, env, "FDS_AF_XDP_NUMA");
    set_text(&mut c.xskmap, env, "FDS_AF_XDP_XSKMAP");
}

/// With none of the variables set every section stays as it is.
pub proof fn law_empty_environment_keeps_settings(before: Config, after: Config)
    requires
        core_env(before.core, Seq::empty(), after.core),
        reactor_env(before.reactor, Seq::empty(), after.reactor),
        udp_env(before.udp, Seq::empty(), after.udp),
        tcp_env(before.tcp, Seq::empty(), after.tcp),
        metrics_env(before.metrics, Seq::empty(), after.metrics),
        engine_env(before.engine, Seq::empty(), after.engine),
        af_xdp_env(before.af_xdp, Seq::empty(), after.af_xdp),
    ensures
        after.core == before.core,
        after.reactor == before.reactor,
        after.udp == before.udp,
        after.tcp == before.tcp,
        after.metrics.socket_path@ == before.metrics.socket_path@,
        after.engine.udp_bind@ == before.engine.udp_bind@,
        after.engine.tcp_bind@ == before.engine.tcp_bind@,
        after.engine.userspace_tcp == before.engine.userspace_tcp,
        after.af_xdp.device@ == before.af_xdp.device@,
        after.af_xdp.queue == before.af_xdp.queue,
        after.af_xdp.queues@ == before.af_xdp.queues@,
        after.af_xdp.zero_copy == before.af_xdp.zero_copy,
        after.af_xdp.ring_size == before.af_xdp.ring_size,
        after.af_xdp.num_frames == before.af_xdp.num_frames,
        after.af_xdp.numa == before.af_xdp.numa,
        after.af_xdp.xskmap@ == before.af_xdp.xskmap@,
{
}

impl Config {
    /// Override settings from `FDS_<SECTION>_<KEY>` environment variables,
    /// given as name and value pairs. Returns the strategy text, trimmed
    /// and in lower case, when it names no strategy.
    pub fn apply_env(&mut self, env: &Vec<(String, String)>) -> (unknown: Option<String>)
        ensures
            core_env(old(self).core, env@, final(self).core),
            reactor_env(old(self).reactor, env@, final(self).reactor),
            udp_env(old(self).udp, env@, final(self).udp),
            tcp_env(old(self).tcp, env@, final(self).tcp),
            metrics_env(old(self).metrics, env@, final(self).metrics),
            engine_env(old(self).engine, env@, final(self).engine),
            af_xdp_env(old(self).af_xdp, env@, final(self).af_xdp),
            final(self).sctp == old(self).sctp,
            final(self).zero_copy == old(self).zero_copy,
            match unknown {
                Some(t) => unknown_strategy(env@) == Some(t@),
                None => unknown_strategy(env@) is None,
            },
    {
        apply_core(&mut self.core, env);
        apply_udp(&mut self.udp, env);
        apply_tcp(&mut self.tcp, env);
        apply_metrics(&mut self.metrics, env);
        apply_engine(&mut self.engine, env);
        apply_af_xdp(&mut self.af_xdp, env);
        apply_reactor(&mut self.reactor, env)
    }
}

} // verus!
