//! The configuration surface as data. Every field carries a description,
//! its trade-off, its default and where the default comes from.
use vstd::prelude::*;
use crate::json;
use crate::text;

verus! {

/// The JSON type of a field.
#[derive(Clone, Copy, PartialEq, Eq, Debug, Structural)]
pub enum JsonType {
    Bool,
    /// A machine-sized number, not negative.
    Int,
    /// A 32-bit number, not negative.
    U32,
    /// A signed 32-bit number.
    I32,
    Str,
    /// A polling strategy by its name.
    Strategy,
}

/// One field of the configuration.
#[derive(Clone, Copy, Debug)]
pub struct FieldDef {
    pub key: &'static str,
    pub json_type: JsonType,
    /// The default as a JSON literal; for texts the text itself.
    pub default_json: &'static str,
    /// Where the default comes from.
    pub derived_from: &'static str,
    pub description: &'static str,
    pub trade_off: &'static str,
}

/// One section of the configuration.
#[derive(Clone, Debug)]
pub struct SectionDef {
    pub name: &'static str,
    pub fields: Vec<FieldDef>,
}

/// A section: its name and its fields.
pub struct Section {
    pub name: Seq<char>,
    pub fields: Seq<FieldDef>,
}

// ---------------------------------------------------------------------
// The table
// ---------------------------------------------------------------------

/// The fields of `core`.
pub open spec fn core_table() -> Seq<FieldDef> {
    seq![
        FieldDef {
            key: "pin_cores",
            json_type: JsonType::Bool,
            default_json: "true",
            derived_from: "engine default ([CONC] pin-per-core)",
            description: "Pin each worker thread to its own logical CPU.",
            trade_off: "Removes scheduler migration and cache thrash; consumes whole CPUs. Disable when cores are shared with other tenants.",
        },
        FieldDef {
            key: "threads",
            json_type: JsonType::Int,
            default_json: "0",
            derived_from: "engine default (0 = one per logical CPU; 2x physical on SMT)",
            description: "Worker thread count; 0 = one per logical CPU.",
            trade_off: "More workers give more parallelism but per-core caches and queues must fit; oversubscription adds scheduling noise (see the measured p999 tails in WIKI.md).",
        },
        FieldDef {
            key: "stack_bytes",
            json_type: JsonType::Int,
            default_json: "1048576",
            derived_from: "engine default",
            description: "Worker thread stack size, in bytes.",
            trade_off: "Larger stacks waste address space; smaller risks overflow in deep call paths (pool buffers are heap-backed).",
        },
    ]
}

fn core_fields() -> (v: Vec<FieldDef>)
    ensures
        v@ == core_table(),
{
    let v: Vec<FieldDef> = vec![
        FieldDef {
            key: "pin_cores",
            json_type: JsonType::Bool,
            default_json: "true",
            derived_from: "engine default ([CONC] pin-per-core)",
            description: "Pin each worker thread to its own logical CPU.",
            trade_off: "Removes scheduler migration and cache thrash; consumes whole CPUs. Disable when cores are shared with other tenants.",
        },
        FieldDef {
            key: "threads",
            json_type: JsonType::Int,
            default_json: "0",
            derived_from: "engine default (0 = one per logical CPU; 2x physical on SMT)",
            description: "Worker thread count; 0 = one per logical CPU.",
            trade_off: "More workers give more parallelism but per-core caches and queues must fit; oversubscription adds scheduling noise (see the measured p999 tails in WIKI.md).",
        },
        FieldDef {
            key: "stack_bytes",
            json_type: JsonType::Int,
            default_json: "1048576",
            derived_from: "engine default",
            description: "Worker thread stack size, in bytes.",
            trade_off: "Larger stacks waste address space; smaller risks overflow in deep call paths (pool buffers are heap-backed).",
        },
    ];
    assert(v@ =~= core_table());
    v
}

/// The fields of `reactor`.
pub open spec fn reactor_table() -> Seq<FieldDef> {
    seq![
        FieldDef {
            key: "strategy",
            json_type: JsonType::Strategy,
            default_json: "epoll-busy-poll",
            derived_from: "D-5 (polling strategy)",
            description: "Polling strategy: epoll-busy-poll (classic readiness loop, busy-poll to empty) or io-uring (kernel-side submission/completion batching).",
            trade_off: "epoll is the proven baseline; io-uring amortizes syscalls at high packet rates but its SQPOLL thread needs privileges and newer kernels for best results.",
        },
        FieldDef {
            key: "max_events",
            json_type: JsonType::Int,
            default_json: "256",
            derived_from: "engine default",
            description: "Preallocated event array capacity per reactor.",
            trade_off: "Too small drops events per drain; too large wastes memory per worker.",
        },
        FieldDef {
            key: "busy_poll",
            json_type: JsonType::Bool,
            default_json: "true",
            derived_from: "engine default (latency target)",
            description: "Busy-poll the ready queue to empty before yielding.",
            trade_off: "Lowest latency at the cost of CPU spin when idle; disable on shared CPUs.",
        },
        FieldDef {
            key: "timeout_ms",
            json_type: JsonType::I32,
            default_json: "0",
            derived_from: "engine default",
            description: "Poll timeout in milliseconds when not busy-polling.",
            trade_off: "0 with busy-poll off blocks indefinitely; a small timeout bounds wake latency at the cost of syscall rate.",
        },
        FieldDef {
            key: "io_uring_entries",
            json_type: JsonType::U32,
            default_json: "256",
            derived_from: "engine default",
            description: "io_uring ring entries (strategy io-uring).",
            trade_off: "Larger rings hold more in-flight ops; entries are power-of-two and floored by the datapath (UDP slots + accept + timeout).",
        },
        FieldDef {
            key: "io_uring_sq_thread",
            json_type: JsonType::U32,
            default_json: "0",
            derived_from: "engine default",
            description: "io_uring SQPOLL thread CPU; 0 = no SQPOLL (plain ring).",
            trade_off: "SQPOLL removes submission syscalls but needs CAP_SYS_ADMIN; the ring falls back to a plain ring when creation is rejected.",
        },
    ]
}

fn reactor_fields() -> (v: Vec<FieldDef>)
    ensures
        v@ == reactor_table(),
{
    let v: Vec<FieldDef> = vec![
        FieldDef {
            key: "strategy",
            json_type: JsonType::Strategy,
            default_json: "epoll-busy-poll",
            derived_from: "D-5 (polling strategy)",
            description: "Polling strategy: epoll-busy-poll (classic readiness loop, busy-poll to empty) or io-uring (kernel-side submission/completion batching).",
            trade_off: "epoll is the proven baseline; io-uring amortizes syscalls at high packet rates but its SQPOLL thread needs privileges and newer kernels for best results.",
        },
        FieldDef {
            key: "max_events",
            json_type: JsonType::Int,
            default_json: "256",
            derived_from: "engine default",
            description: "Preallocated event array capacity per reactor.",
            trade_off: "Too small drops events per drain; too large wastes memory per worker.",
        },
        FieldDef {
            key: "busy_poll",
            json_type: JsonType::Bool,
            default_json: "true",
            derived_from: "engine default (latency target)",
            description: "Busy-poll the ready queue to empty before yielding.",
            trade_off: "Lowest latency at the cost of CPU spin when idle; disable on shared CPUs.",
        },
        FieldDef {
            key: "timeout_ms",
            json_type: JsonType::I32,
            default_json: "0",
            derived_from: "engine default",
            description: "Poll timeout in milliseconds when not busy-polling.",
            trade_off: "0 with busy-poll off blocks indefinitely; a small timeout bounds wake latency at the cost of syscall rate.",
        },
        FieldDef {
            key: "io_uring_entries",
            json_type: JsonType::U32,
            default_json: "256",
            derived_from: "engine default",
            description: "io_uring ring entries (strategy io-uring).",
            trade_off: "Larger rings hold more in-flight ops; entries are power-of-two and floored by the datapath (UDP slots + accept + timeout).",
        },
        FieldDef {
            key: "io_uring_sq_thread",
            json_type: JsonType::U32,
            default_json: "0",
            derived_from: "engine default",
            description: "io_uring SQPOLL thread CPU; 0 = no SQPOLL (plain ring).",
            trade_off: "SQPOLL removes submission syscalls but needs CAP_SYS_ADMIN; the ring falls back to a plain ring when creation is rejected.",
        },
    ];
    assert(v@ =~= reactor_table());
    v
}

/// The fields of `udp`.
pub open spec fn udp_table() -> Seq<FieldDef> {
    seq![
        FieldDef {
            key: "rcvbuf",
            json_type: JsonType::Int,
            default_json: "4194304",
            derived_from: "D-1 (L3-aware buffer sizing; fds-detect derives from measured L3)",
            description: "SO_RCVBUF per UDP socket, in bytes.",
            trade_off: "Larger absorbs bursts and jumbo datagrams at the cost of memory; sized from the L3 budget by fds-detect.",
        },
        FieldDef {
            key: "sndbuf",
            json_type: JsonType::Int,
            default_json: "4194304",
            derived_from: "D-1 (L3-aware buffer sizing)",
            description: "SO_SNDBUF per UDP socket, in bytes.",
            trade_off: "Larger absorbs bursts at the cost of memory; the kernel doubles the value it reports.",
        },
        FieldDef {
            key: "gso_segment_size",
            json_type: JsonType::Int,
            default_json: "0",
            derived_from: "engine default",
            description: "UDP_SEGMENT (GSO) max segment size; 0 = off.",
            trade_off: "Fewer, larger sends amortize syscalls but the kernel must segment each; 0 keeps software segmentation.",
        },
        FieldDef {
            key: "gro",
            json_type: JsonType::Bool,
            default_json: "false",
            derived_from: "engine default",
            description: "UDP_GRO coalescing.",
            trade_off: "Fewer receive completions at the cost of per-flow reassembly state.",
        },
        FieldDef {
            key: "zerocopy",
            json_type: JsonType::Bool,
            default_json: "false",
            derived_from: "D-6 (copy strategy)",
            description: "MSG_ZEROCOPY for large UDP datagrams.",
            trade_off: "Avoids a kernel copy for big buffers at the cost of completion-notification handling and page pinning.",
        },
        FieldDef {
            key: "reuseport",
            json_type: JsonType::Bool,
            default_json: "true",
            derived_from: "engine default ([CONC] per-core distribution)",
            description: "SO_REUSEPORT (one socket per core).",
            trade_off: "Enables per-core distribution; the option must be set before bind for reuseport-group admission (the engine does this).",
        },
        FieldDef {
            key: "incoming_cpu",
            json_type: JsonType::Bool,
            default_json: "false",
            derived_from: "engine ruling (loopback collapse)",
            description: "SO_INCOMING_CPU steering.",
            trade_off: "Pins flows to the RX softirq CPU — on loopback that collapses every flow onto one worker; enable only with NIC RSS/IRQ affinity (WIKI.md).",
        },
    ]
}

fn udp_fields() -> (v: Vec<FieldDef>)
    ensures
        v@ == udp_table(),
{
    let v: Vec<FieldDef> = vec![
        FieldDef {
            key: "rcvbuf",
            json_type: JsonType::Int,
            default_json: "4194304",
            derived_from: "D-1 (L3-aware buffer sizing; fds-detect derives from measured L3)",
            description: "SO_RCVBUF per UDP socket, in bytes.",
            trade_off: "Larger absorbs bursts and jumbo datagrams at the cost of memory; sized from the L3 budget by fds-detect.",
        },
        FieldDef {
            key: "sndbuf",
            json_type: JsonType::Int,
            default_json: "4194304",
            derived_from: "D-1 (L3-aware buffer sizing)",
            description: "SO_SNDBUF per UDP socket, in bytes.",
            trade_off: "Larger absorbs bursts at the cost of memory; the kernel doubles the value it reports.",
        },
        FieldDef {
            key: "gso_segment_size",
            json_type: JsonType::Int,
            default_json: "0",
            derived_from: "engine default",
            description: "UDP_SEGMENT (GSO) max segment size; 0 = off.",
            trade_off: "Fewer, larger sends amortize syscalls but the kernel must segment each; 0 keeps software segmentation.",
        },
        FieldDef {
            key: "gro",
            json_type: JsonType::Bool,
            default_json: "false",
            derived_from: "engine default",
            description: "UDP_GRO coalescing.",
            trade_off: "Fewer receive completions at the cost of per-flow reassembly state.",
        },
        FieldDef {
            key: "zerocopy",
            json_type: JsonType::Bool,
            default_json: "false",
            derived_from: "D-6 (copy strategy)",
            description: "MSG_ZEROCOPY for large UDP datagrams.",
            trade_off: "Avoids a kernel copy for big buffers at the cost of completion-notification handling and page pinning.",
        },
        FieldDef {
            key: "reuseport",
            json_type: JsonType::Bool,
            default_json: "true",
            derived_from: "engine default ([CONC] per-core distribution)",
            description: "SO_REUSEPORT (one socket per core).",
            trade_off: "Enables per-core distribution; the option must be set before bind for reuseport-group admission (the engine does this).",
        },
        FieldDef {
            key: "incoming_cpu",
            json_type: JsonType::Bool,
            default_json: "false",
            derived_from: "engine ruling (loopback collapse)",
            description: "SO_INCOMING_CPU steering.",
            trade_off: "Pins flows to the RX softirq CPU — on loopback that collapses every flow onto one worker; enable only with NIC RSS/IRQ affinity (WIKI.md).",
        },
    ];
    assert(v@ =~= udp_table());
    v
}

/// The fields of `tcp`.
pub open spec fn tcp_table() -> Seq<FieldDef> {
    seq![
        FieldDef {
            key: "nodelay",
            json_type: JsonType::Bool,
            default_json: "true",
            derived_from: "engine default (latency target)",
            description: "TCP_NODELAY.",
            trade_off: "Disables Nagle; tiny writes become small packets, correct for a latency-bound echo.",
        },
        FieldDef {
            key: "quickack",
            json_type: JsonType::Bool,
            default_json: "false",
            derived_from: "engine default",
            description: "TCP_QUICKACK.",
            trade_off: "Fewer delayed-ACK stalls at the cost of more ACK traffic.",
        },
        FieldDef {
            key: "defer_accept",
            json_type: JsonType::Bool,
            default_json: "false",
            derived_from: "engine default",
            description: "TCP_DEFER_ACCEPT.",
            trade_off: "Defers accept until data arrives, saving a wakeup on idle connections; can delay connection-establishment visibility.",
        },
        FieldDef {
            key: "fastopen",
            json_type: JsonType::U32,
            default_json: "0",
            derived_from: "engine default (SEC: spoofing caveat)",
            description: "TCP_FASTOPEN queue length; 0 = off.",
            trade_off: "Saves an RTT on repeat connections but is spoofable and needs a server-side queue budget.",
        },
        FieldDef {
            key: "cork",
            json_type: JsonType::Bool,
            default_json: "false",
            derived_from: "engine default",
            description: "TCP_CORK.",
            trade_off: "Coalesces small writes into full segments at the cost of added per-write latency; wrong for streaming echo.",
        },
        FieldDef {
            key: "reuseport",
            json_type: JsonType::Bool,
            default_json: "true",
            derived_from: "engine default ([CONC] per-core distribution)",
            description: "SO_REUSEPORT (one listener socket per core).",
            trade_off: "Enables per-core distribution; set before bind.",
        },
        FieldDef {
            key: "rcvbuf",
            json_type: JsonType::Int,
            default_json: "4194304",
            derived_from: "D-1 (L3-aware buffer sizing)",
            description: "SO_RCVBUF per TCP socket, in bytes.",
            trade_off: "Larger absorbs bursts at the cost of memory; the kernel doubles the value it reports.",
        },
        FieldDef {
            key: "sndbuf",
            json_type: JsonType::Int,
            default_json: "4194304",
            derived_from: "D-1 (L3-aware buffer sizing)",
            description: "SO_SNDBUF per TCP socket, in bytes.",
            trade_off: "Larger absorbs bursts at the cost of memory.",
        },
    ]
}

fn tcp_fields() -> (v: Vec<FieldDef>)
    ensures
        v@ == tcp_table(),
{
    let v: Vec<FieldDef> = vec![
        FieldDef {
            key: "nodelay",
            json_type: JsonType::Bool,
            default_json: "true",
            derived_from: "engine default (latency target)",
            description: "TCP_NODELAY.",
            trade_off: "Disables Nagle; tiny writes become small packets, correct for a latency-bound echo.",
        },
        FieldDef {
            key: "quickack",
            json_type: JsonType::Bool,
            default_json: "false",
            derived_from: "engine default",
            description: "TCP_QUICKACK.",
            trade_off: "Fewer delayed-ACK stalls at the cost of more ACK traffic.",
        },
        FieldDef {
            key: "defer_accept",
            json_type: JsonType::Bool,
            default_json: "false",
            derived_from: "engine default",
            description: "TCP_DEFER_ACCEPT.",
            trade_off: "Defers accept until data arrives, saving a wakeup on idle connections; can delay connection-establishment visibility.",
        },
        FieldDef {
            key: "fastopen",
            json_type: JsonType::U32,
            default_json: "0",
            derived_from: "engine default (SEC: spoofing caveat)",
            description: "TCP_FASTOPEN queue length; 0 = off.",
            trade_off: "Saves an RTT on repeat connections but is spoofable and needs a server-side queue budget.",
        },
        FieldDef {
            key: "cork",
            json_type: JsonType::Bool,
            default_json: "false",
            derived_from: "engine default",
            description: "TCP_CORK.",
            trade_off: "Coalesces small writes into full segments at the cost of added per-write latency; wrong for streaming echo.",
        },
        FieldDef {
            key: "reuseport",
            json_type: JsonType::Bool,
            default_json: "true",
            derived_from: "engine default ([CONC] per-core distribution)",
            description: "SO_REUSEPORT (one listener socket per core).",
            trade_off: "Enables per-core distribution; set before bind.",
        },
        FieldDef {
            key: "rcvbuf",
            json_type: JsonType::Int,
            default_json: "4194304",
            derived_from: "D-1 (L3-aware buffer sizing)",
            description: "SO_RCVBUF per TCP socket, in bytes.",
            trade_off: "Larger absorbs bursts at the cost of memory; the kernel doubles the value it reports.",
        },
        FieldDef {
            key: "sndbuf",
            json_type: JsonType::Int,
            default_json: "4194304",
            derived_from: "D-1 (L3-aware buffer sizing)",
            description: "SO_SNDBUF per TCP socket, in bytes.",
            trade_off: "Larger absorbs bursts at the cost of memory.",
        },
    ];
    assert(v@ =~= tcp_table());
    v
}

/// The fields of `sctp`.
pub open spec fn sctp_table() -> Seq<FieldDef> {
    seq![
        FieldDef {
            key: "nodelay",
            json_type: JsonType::Bool,
            default_json: "true",
            derived_from: "engine default",
            description: "SCTP_NODELAY (disable Nagle per association).",
            trade_off: "Lowest latency at the cost of more small packets.",
        },
        FieldDef {
            key: "init_max_streams",
            json_type: JsonType::U32,
            default_json: "10",
            derived_from: "engine default",
            description: "SCTP_INITMSG max streams (in/out).",
            trade_off: "More streams support more concurrent message flows per association at the cost of per-stream state.",
        },
        FieldDef {
            key: "partial_delivery_point",
            json_type: JsonType::U32,
            default_json: "0",
            derived_from: "engine default (0 = kernel default)",
            description: "SCTP_PARTIAL_DELIVERY_POINT, in bytes.",
            trade_off: "Smaller delivers partial messages sooner (latency) at the cost of fragmented reads.",
        },
        FieldDef {
            key: "max_burst",
            json_type: JsonType::U32,
            default_json: "0",
            derived_from: "engine default (0 = kernel default)",
            description: "SCTP_MAX_BURST; 0 = kernel default.",
            trade_off: "Limits packet bursts per association (loss avoidance) at the cost of throughput bursts.",
        },
        FieldDef {
            key: "reuseport",
            json_type: JsonType::Bool,
            default_json: "true",
            derived_from: "engine default ([CONC] per-core distribution)",
            description: "SO_REUSEPORT (one socket per core).",
            trade_off: "Enables per-core distribution; set before bind.",
        },
    ]
}

fn sctp_fields() -> (v: Vec<FieldDef>)
    ensures
        v@ == sctp_table(),
{
    let v: Vec<FieldDef> = vec![
        FieldDef {
            key: "nodelay",
            json_type: JsonType::Bool,
            default_json: "true",
            derived_from: "engine default",
            description: "SCTP_NODELAY (disable Nagle per association).",
            trade_off: "Lowest latency at the cost of more small packets.",
        },
        FieldDef {
            key: "init_max_streams",
            json_type: JsonType::U32,
            default_json: "10",
            derived_from: "engine default",
            description: "SCTP_INITMSG max streams (in/out).",
            trade_off: "More streams support more concurrent message flows per association at the cost of per-stream state.",
        },
        FieldDef {
            key: "partial_delivery_point",
            json_type: JsonType::U32,
            default_json: "0",
            derived_from: "engine default (0 = kernel default)",
            description: "SCTP_PARTIAL_DELIVERY_POINT, in bytes.",
            trade_off: "Smaller delivers partial messages sooner (latency) at the cost of fragmented reads.",
        },
        FieldDef {
            key: "max_burst",
            json_type: JsonType::U32,
            default_json: "0",
            derived_from: "engine default (0 = kernel default)",
            description: "SCTP_MAX_BURST; 0 = kernel default.",
            trade_off: "Limits packet bursts per association (loss avoidance) at the cost of throughput bursts.",
        },
        FieldDef {
            key: "reuseport",
            json_type: JsonType::Bool,
            default_json: "true",
            derived_from: "engine default ([CONC] per-core distribution)",
            description: "SO_REUSEPORT (one socket per core).",
            trade_off: "Enables per-core distribution; set before bind.",
        },
    ];
    assert(v@ =~= sctp_table());
    v
}

/// The fields of `metrics`.
pub open spec fn metrics_table() -> Seq<FieldDef> {
    seq![
        FieldDef {
            key: "socket_path",
            json_type: JsonType::Str,
            default_json: "/tmp/fds-metrics.sock",
            derived_from: "engine default ([OBS] pull, not hot-path write)",
            description: "Unix socket path for the metrics pull endpoint; empty = disabled.",
            trade_off: "Pull-based metrics avoid hot-path writes; a filesystem path is a local trust boundary.",
        },
    ]
}

fn metrics_fields() -> (v: Vec<FieldDef>)
    ensures
        v@ == metrics_table(),
{
    let v: Vec<FieldDef> = vec![
        FieldDef {
            key: "socket_path",
            json_type: JsonType::Str,
            default_json: "/tmp/fds-metrics.sock",
            derived_from: "engine default ([OBS] pull, not hot-path write)",
            description: "Unix socket path for the metrics pull endpoint; empty = disabled.",
            trade_off: "Pull-based metrics avoid hot-path writes; a filesystem path is a local trust boundary.",
        },
    ];
    assert(v@ =~= metrics_table());
    v
}

/// The fields of `zero_copy`.
pub open spec fn zero_copy_table() -> Seq<FieldDef> {
    seq![
        FieldDef {
            key: "splice",
            json_type: JsonType::Bool,
            default_json: "true",
            derived_from: "D-6 (copy strategy)",
            description: "sendfile/splice for file-backed TCP responses.",
            trade_off: "Kernel-side copy avoids a userspace bounce for file data; costs a pipe staging when splicing between sockets.",
        },
        FieldDef {
            key: "registered_buffers",
            json_type: JsonType::Bool,
            default_json: "false",
            derived_from: "D-6 (copy strategy)",
            description: "io_uring registered buffers (strategy io-uring).",
            trade_off: "Avoids per-op buffer pinning at the cost of registration setup and fixed-buffer bookkeeping.",
        },
        FieldDef {
            key: "udp_zerocopy",
            json_type: JsonType::Bool,
            default_json: "false",
            derived_from: "D-6 (copy strategy)",
            description: "MSG_ZEROCOPY for UDP large datagrams (see also udp.zerocopy).",
            trade_off: "Avoids a kernel copy for big buffers at the cost of completion-notification handling and page pinning.",
        },
    ]
}

fn zero_copy_fields() -> (v: Vec<FieldDef>)
    ensures
        v@ == zero_copy_table(),
{
    let v: Vec<FieldDef> = vec![
        FieldDef {
            key: "splice",
            json_type: JsonType::Bool,
            default_json: "true",
            derived_from: "D-6 (copy strategy)",
            description: "sendfile/splice for file-backed TCP responses.",
            trade_off: "Kernel-side copy avoids a userspace bounce for file data; costs a pipe staging when splicing between sockets.",
        },
        FieldDef {
            key: "registered_buffers",
            json_type: JsonType::Bool,
            default_json: "false",
            derived_from: "D-6 (copy strategy)",
            description: "io_uring registered buffers (strategy io-uring).",
            trade_off: "Avoids per-op buffer pinning at the cost of registration setup and fixed-buffer bookkeeping.",
        },
        FieldDef {
            key: "udp_zerocopy",
            json_type: JsonType::Bool,
            default_json: "false",
            derived_from: "D-6 (copy strategy)",
            description: "MSG_ZEROCOPY for UDP large datagrams (see also udp.zerocopy).",
            trade_off: "Avoids a kernel copy for big buffers at the cost of completion-notification handling and page pinning.",
        },
    ];
    assert(v@ =~= zero_copy_table());
    v
}

/// The fields of `af_xdp`.
pub open spec fn af_xdp_table() -> Seq<FieldDef> {
    seq![
        FieldDef {
            key: "device",
            json_type: JsonType::Str,
            default_json: "",
            derived_from: "engine default (device-gated)",
            description: "Device name for AF_XDP (e.g. eth0); empty = disabled.",
            trade_off: "Kernel-bypass RX/TX on a dedicated queue needs an XDP-capable NIC, CAP_NET_RAW, and a pinned XDP program; absent a device the engine logs and stays on the kernel datapath.",
        },
        FieldDef {
            key: "queue",
            json_type: JsonType::U32,
            default_json: "0",
            derived_from: "engine default",
            description: "Queue id on the AF_XDP device.",
            trade_off: "Binding a queue dedicates it to the XDP path.",
        },
    ]
}

fn af_xdp_fields() -> (v: Vec<FieldDef>)
    ensures
        v@ == af_xdp_table(),
{
    let v: Vec<FieldDef> = vec![
        FieldDef {
            key: "device",
            json_type: JsonType::Str,
            default_json: "",
            derived_from: "engine default (device-gated)",
            description: "Device name for AF_XDP (e.g. eth0); empty = disabled.",
            trade_off: "Kernel-bypass RX/TX on a dedicated queue needs an XDP-capable NIC, CAP_NET_RAW, and a pinned XDP program; absent a device the engine logs and stays on the kernel datapath.",
        },
        FieldDef {
            key: "queue",
            json_type: JsonType::U32,
            default_json: "0",
            derived_from: "engine default",
            description: "Queue id on the AF_XDP device.",
            trade_off: "Binding a queue dedicates it to the XDP path.",
        },
    ];
    assert(v@ =~= af_xdp_table());
    v
}

/// The fields of `engine`.
pub open spec fn engine_table() -> Seq<FieldDef> {
    seq![
        FieldDef {
            key: "udp_bind",
            json_type: JsonType::Str,
            default_json: "127.0.0.1:7777",
            derived_from: "engine default",
            description: "UDP echo bind address (ip:port).",
            trade_off: "Loopback default; bind 0.0.0.0 (or a NIC address) for external traffic.",
        },
        FieldDef {
            key: "tcp_bind",
            json_type: JsonType::Str,
            default_json: "127.0.0.1:7778",
            derived_from: "engine default",
            description: "TCP echo bind address (ip:port).",
            trade_off: "Loopback default; bind 0.0.0.0 for external traffic.",
        },
    ]
}

fn engine_fields() -> (v: Vec<FieldDef>)
    ensures
        v@ == engine_table(),
{
    let v: Vec<FieldDef> = vec![
        FieldDef {
            key: "udp_bind",
            json_type: JsonType::Str,
            default_json: "127.0.0.1:7777",
            derived_from: "engine default",
            description: "UDP echo bind address (ip:port).",
            trade_off: "Loopback default; bind 0.0.0.0 (or a NIC address) for external traffic.",
        },
        FieldDef {
            key: "tcp_bind",
            json_type: JsonType::Str,
            default_json: "127.0.0.1:7778",
            derived_from: "engine default",
            description: "TCP echo bind address (ip:port).",
            trade_off: "Loopback default; bind 0.0.0.0 for external traffic.",
        },
    ];
    assert(v@ =~= engine_table());
    v
}

/// All sections.
pub open spec fn section_table() -> Seq<Section> {
    seq![
        Section { name: "core"@, fields: core_table() },
        Section { name: "reactor"@, fields: reactor_table() },
        Section { name: "udp"@, fields: udp_table() },
        Section { name: "tcp"@, fields: tcp_table() },
        Section { name: "sctp"@, fields: sctp_table() },
        Section { name: "metrics"@, fields: metrics_table() },
        Section { name: "zero_copy"@, fields: zero_copy_table() },
        Section { name: "af_xdp"@, fields: af_xdp_table() },
        Section { name: "engine"@, fields: engine_table() },
    ]
}

/// What a list of sections stands for.
pub open spec fn section_views(v: Seq<SectionDef>) -> Seq<Section> {
    v.map_values(|s: SectionDef| Section { name: s.name@, fields: s.fields@ })
}

/// All sections of the configuration with their fields.
pub fn sections() -> (v: Vec<SectionDef>)
    ensures
        section_views(v@) == section_table(),
{
    let v: Vec<SectionDef> = vec![
        SectionDef { name: "core", fields: core_fields() },
        SectionDef { name: "reactor", fields: reactor_fields() },
        SectionDef { name: "udp", fields: udp_fields() },
        SectionDef { name: "tcp", fields: tcp_fields() },
        SectionDef { name: "sctp", fields: sctp_fields() },
        SectionDef { name: "metrics", fields: metrics_fields() },
        SectionDef { name: "zero_copy", fields: zero_copy_fields() },
        SectionDef { name: "af_xdp", fields: af_xdp_fields() },
        SectionDef { name: "engine", fields: engine_fields() },
    ];
    assert(section_views(v@) =~= section_table());
    v
}

// ---------------------------------------------------------------------
// Facts about the table
// ---------------------------------------------------------------------

/// A default that reads as a value of the field's type.
pub open spec fn default_fits(f: FieldDef) -> bool {
    let d = f.default_json@;
    match f.json_type {
        JsonType::Bool => d == "true"@ || d == "false"@,
        JsonType::Int | JsonType::U32 => json::plain_number(d),
        JsonType::I32 => json::plain_number(d) && text::digits_value(d) <= i64::MAX,
        JsonType::Str => true,
        JsonType::Strategy => d == "epoll-busy-poll"@ || d == "io-uring"@,
    }
}

/// Every default fits its type, and no key occurs twice.
pub open spec fn fields_fit(fields: Seq<FieldDef>) -> bool {
    &&& forall|i: int| 0 <= i < fields.len() ==> default_fits(#[trigger] fields[i])
    &&& forall|i: int, j: int|
        0 <= i < j < fields.len() ==> (#[trigger] fields[i]).key@ != (#[trigger] fields[j]).key@
}

pub proof fn lemma_digit(d: Seq<char>, c: char)
    requires
        d == seq![c],
        text::digit(c),
    ensures
        json::plain_number(d),
        text::digits_value(d) == c as u32 - 48,
{
    assert(d.drop_last() =~= Seq::empty());
    assert(text::digits_value(d.drop_last()) == 0);
}

pub proof fn lemma_number_10()
    ensures
        json::plain_number("10"@),
        text::digits_value("10"@) == 10,
{
    reveal_strlit("10");
    let d = "10"@;
    assert(d.take(0) =~= Seq::empty());
    assert(text::digits_value(d.take(0)) == 0);
    assert(d.take(1).drop_last() =~= d.take(0));
    assert(d.take(1).last() == '1');
    assert(text::digits_value(d.take(1)) == 1);
    assert(d.take(2).drop_last() =~= d.take(1));
    assert(d.take(2).last() == '0');
    assert(text::digits_value(d.take(2)) == 10);
    assert(d.take(2) =~= d);
    assert forall|i: int| 0 <= i < d.len() implies text::digit(#[trigger] d[i]) by {
    }
}

pub proof fn lemma_number_256()
    ensures
        json::plain_number("256"@),
        text::digits_value("256"@) == 256,
{
    reveal_strlit("256");
    let d = "256"@;
    assert(d.take(0) =~= Seq::empty());
    assert(text::digits_value(d.take(0)) == 0);
    assert(d.take(1).drop_last() =~= d.take(0));
    assert(d.take(1).last() == '2');
    assert(text::digits_value(d.take(1)) == 2);
    assert(d.take(2).drop_last() =~= d.take(1));
    assert(d.take(2).last() == '5');
    assert(text::digits_value(d.take(2)) == 25);
    assert(d.take(3).drop_last() =~= d.take(2));
    assert(d.take(3).last() == '6');
    assert(text::digits_value(d.take(3)) == 256);
    assert(d.take(3) =~= d);
    assert forall|i: int| 0 <= i < d.len() implies text::digit(#[trigger] d[i]) by {
    }
}

pub proof fn lemma_number_1048576()
    ensures
        json::plain_number("1048576"@),
        text::digits_value("1048576"@) == 1048576,
{
    reveal_strlit("1048576");
    let d = "1048576"@;
    assert(d.take(0) =~= Seq::empty());
    assert(text::digits_value(d.take(0)) == 0);
    assert(d.take(1).drop_last() =~= d.take(0));
    assert(d.take(1).last() == '1');
    assert(text::digits_value(d.take(1)) == 1);
    assert(d.take(2).drop_last() =~= d.take(1));
    assert(d.take(2).last() == '0');
    assert(text::digits_value(d.take(2)) == 10);
    assert(d.take(3).drop_last() =~= d.take(2));
    assert(d.take(3).last() == '4');
    assert(text::digits_value(d.take(3)) == 104);
    assert(d.take(4).drop_last() =~= d.take(3));
    assert(d.take(4).last() == '8');
    assert(text::digits_value(d.take(4)) == 1048);
    assert(d.take(5).drop_last() =~= d.take(4));
    assert(d.take(5).last() == '5');
    assert(text::digits_value(d.take(5)) == 10485);
    assert(d.take(6).drop_last() =~= d.take(5));
    assert(d.take(6).last() == '7');
    assert(text::digits_value(d.take(6)) == 104857);
    assert(d.take(7).drop_last() =~= d.take(6));
    assert(d.take(7).last() == '6');
    assert(text::digits_value(d.take(7)) == 1048576);
    assert(d.take(7) =~= d);
    assert forall|i: int| 0 <= i < d.len() implies text::digit(#[trigger] d[i]) by {
    }
}

pub proof fn lemma_number_4194304()
    ensures
        json::plain_number("4194304"@),
        text::digits_value("4194304"@) == 4194304,
{
    reveal_strlit("4194304");
    let d = "4194304"@;
    assert(d.take(0) =~= Seq::empty());
    assert(text::digits_value(d.take(0)) == 0);
    assert(d.take(1).drop_last() =~= d.take(0));
    assert(d.take(1).last() == '4');
    assert(text::digits_value(d.take(1)) == 4);
    assert(d.take(2).drop_last() =~= d.take(1));
    assert(d.take(2).last() == '1');
    assert(text::digits_value(d.take(2)) == 41);
    assert(d.take(3).drop_last() =~= d.take(2));
    assert(d.take(3).last() == '9');
    assert(text::digits_value(d.take(3)) == 419);
    assert(d.take(4).drop_last() =~= d.take(3));
    assert(d.take(4).last() == '4');
    assert(text::digits_value(d.take(4)) == 4194);
    assert(d.take(5).drop_last() =~= d.take(4));
    assert(d.take(5).last() == '3');
    assert(text::digits_value(d.take(5)) == 41943);
    assert(d.take(6).drop_last() =~= d.take(5));
    assert(d.take(6).last() == '0');
    assert(text::digits_value(d.take(6)) == 419430);
    assert(d.take(7).drop_last() =~= d.take(6));
    assert(d.take(7).last() == '4');
    assert(text::digits_value(d.take(7)) == 4194304);
    assert(d.take(7) =~= d);
    assert forall|i: int| 0 <= i < d.len() implies text::digit(#[trigger] d[i]) by {
    }
}

proof fn lemma_core_fits()
    ensures
        fields_fit(core_table()),
{
    reveal_strlit("0");
    assert("0"@ =~= seq!['0']);
    lemma_digit("0"@, '0');
    lemma_number_1048576();
    reveal_strlit("pin_cores");
    assert("pin_cores"@.len() == 9);
    reveal_strlit("threads");
    assert("threads"@.len() == 7);
    reveal_strlit("stack_bytes");
    assert("stack_bytes"@.len() == 11);
    let t = core_table();
    assert(t.len() == 3);
    assert(default_fits(t[0]));
    assert(default_fits(t[1]));
    assert(default_fits(t[2]));
    assert(t[0].key@ != t[1].key@);
    assert(t[0].key@ != t[2].key@);
    assert(t[1].key@ != t[2].key@);
}

proof fn lemma_reactor_fits()
    ensures
        fields_fit(reactor_table()),
{
    reveal_strlit("0");
    assert("0"@ =~= seq!['0']);
    lemma_digit("0"@, '0');
    lemma_number_256();
    reveal_strlit("strategy");
    assert("strategy"@.len() == 8);
    reveal_strlit("max_events");
    assert("max_events"@.len() == 10);
    reveal_strlit("busy_poll");
    assert("busy_poll"@.len() == 9);
    reveal_strlit("timeout_ms");
    assert("timeout_ms"@.len() == 10);
    reveal_strlit("io_uring_entries");
    assert("io_uring_entries"@.len() == 16);
    reveal_strlit("io_uring_sq_thread");
    assert("io_uring_sq_thread"@.len() == 18);
    assert("max_events"@[0] != "timeout_ms"@[0]);
    let t = reactor_table();
    assert(t.len() == 6);
    assert(default_fits(t[0]));
    assert(default_fits(t[1]));
    assert(default_fits(t[2]));
    assert(default_fits(t[3]));
    assert(default_fits(t[4]));
    assert(default_fits(t[5]));
    assert(t[0].key@ != t[1].key@);
    assert(t[0].key@ != t[2].key@);
    assert(t[0].key@ != t[3].key@);
    assert(t[0].key@ != t[4].key@);
    assert(t[0].key@ != t[5].key@);
    assert(t[1].key@ != t[2].key@);
    assert(t[1].key@ != t[3].key@);
    assert(t[1].key@ != t[4].key@);
    assert(t[1].key@ != t[5].key@);
    assert(t[2].key@ != t[3].key@);
    assert(t[2].key@ != t[4].key@);
    assert(t[2].key@ != t[5].key@);
    assert(t[3].key@ != t[4].key@);
    assert(t[3].key@ != t[5].key@);
    assert(t[4].key@ != t[5].key@);
}

proof fn lemma_udp_fits()
    ensures
        fields_fit(udp_table()),
{
    reveal_strlit("0");
    assert("0"@ =~= seq!['0']);
    lemma_digit("0"@, '0');
    lemma_number_4194304();
    reveal_strlit("rcvbuf");
    assert("rcvbuf"@.len() == 6);
    reveal_strlit("sndbuf");
    assert("sndbuf"@.len() == 6);
    reveal_strlit("gso_segment_size");
    assert("gso_segment_size"@.len() == 16);
    reveal_strlit("gro");
    assert("gro"@.len() == 3);
    reveal_strlit("zerocopy");
    assert("zerocopy"@.len() == 8);
    reveal_strlit("reuseport");
    assert("reuseport"@.len() == 9);
    reveal_strlit("incoming_cpu");
    assert("incoming_cpu"@.len() == 12);
    assert("rcvbuf"@[0] != "sndbuf"@[0]);
    let t = udp_table();
    assert(t.len() == 7);
    assert(default_fits(t[0]));
    assert(default_fits(t[1]));
    assert(default_fits(t[2]));
    assert(default_fits(t[3]));
    assert(default_fits(t[4]));
    assert(default_fits(t[5]));
    assert(default_fits(t[6]));
    assert(t[0].key@ != t[1].key@);
    assert(t[0].key@ != t[2].key@);
    assert(t[0].key@ != t[3].key@);
    assert(t[0].key@ != t[4].key@);
    assert(t[0].key@ != t[5].key@);
    assert(t[0].key@ != t[6].key@);
    assert(t[1].key@ != t[2].key@);
    assert(t[1].key@ != t[3].key@);
    assert(t[1].key@ != t[4].key@);
    assert(t[1].key@ != t[5].key@);
    assert(t[1].key@ != t[6].key@);
    assert(t[2].key@ != t[3].key@);
    assert(t[2].key@ != t[4].key@);
    assert(t[2].key@ != t[5].key@);
    assert(t[2].key@ != t[6].key@);
    assert(t[3].key@ != t[4].key@);
    assert(t[3].key@ != t[5].key@);
    assert(t[3].key@ != t[6].key@);
    assert(t[4].key@ != t[5].key@);
    assert(t[4].key@ != t[6].key@);
    assert(t[5].key@ != t[6].key@);
}

proof fn lemma_tcp_fits()
    ensures
        fields_fit(tcp_table()),
{
    reveal_strlit("0");
    assert("0"@ =~= seq!['0']);
    lemma_digit("0"@, '0');
    lemma_number_4194304();
    reveal_strlit("nodelay");
    assert("nodelay"@.len() == 7);
    reveal_strlit("quickack");
    assert("quickack"@.len() == 8);
    reveal_strlit("defer_accept");
    assert("defer_accept"@.len() == 12);
    reveal_strlit("fastopen");
    assert("fastopen"@.len() == 8);
    reveal_strlit("cork");
    assert("cork"@.len() == 4);
    reveal_strlit("reuseport");
    assert("reuseport"@.len() == 9);
    reveal_strlit("rcvbuf");
    assert("rcvbuf"@.len() == 6);
    reveal_strlit("sndbuf");
    assert("sndbuf"@.len() == 6);
    assert("quickack"@[0] != "fastopen"@[0]);
    assert("rcvbuf"@[0] != "sndbuf"@[0]);
    let t = tcp_table();
    assert(t.len() == 8);
    assert(default_fits(t[0]));
    assert(default_fits(t[1]));
    assert(default_fits(t[2]));
    assert(default_fits(t[3]));
    assert(default_fits(t[4]));
    assert(default_fits(t[5]));
    assert(default_fits(t[6]));
    assert(default_fits(t[7]));
    assert(t[0].key@ != t[1].key@);
    assert(t[0].key@ != t[2].key@);
    assert(t[0].key@ != t[3].key@);
    assert(t[0].key@ != t[4].key@);
    assert(t[0].key@ != t[5].key@);
    assert(t[0].key@ != t[6].key@);
    assert(t[0].key@ != t[7].key@);
    assert(t[1].key@ != t[2].key@);
    assert(t[1].key@ != t[3].key@);
    assert(t[1].key@ != t[4].key@);
    assert(t[1].key@ != t[5].key@);
    assert(t[1].key@ != t[6].key@);
    assert(t[1].key@ != t[7].key@);
    assert(t[2].key@ != t[3].key@);
    assert(t[2].key@ != t[4].key@);
    assert(t[2].key@ != t[5].key@);
    assert(t[2].key@ != t[6].key@);
    assert(t[2].key@ != t[7].key@);
    assert(t[3].key@ != t[4].key@);
    assert(t[3].key@ != t[5].key@);
    assert(t[3].key@ != t[6].key@);
    assert(t[3].key@ != t[7].key@);
    assert(t[4].key@ != t[5].key@);
    assert(t[4].key@ != t[6].key@);
    assert(t[4].key@ != t[7].key@);
    assert(t[5].key@ != t[6].key@);
    assert(t[5].key@ != t[7].key@);
    assert(t[6].key@ != t[7].key@);
}

proof fn lemma_sctp_fits()
    ensures
        fields_fit(sctp_table()),
{
    reveal_strlit("0");
    assert("0"@ =~= seq!['0']);
    lemma_digit("0"@, '0');
    lemma_number_10();
    reveal_strlit("nodelay");
    assert("nodelay"@.len() == 7);
    reveal_strlit("init_max_streams");
    assert("init_max_streams"@.len() == 16);
    reveal_strlit("partial_delivery_point");
    assert("partial_delivery_point"@.len() == 22);
    reveal_strlit("max_burst");
    assert("max_burst"@.len() == 9);
    reveal_strlit("reuseport");
    assert("reuseport"@.len() == 9);
    assert("max_burst"@[0] != "reuseport"@[0]);
    let t = sctp_table();
    assert(t.len() == 5);
    assert(default_fits(t[0]));
    assert(default_fits(t[1]));
    assert(default_fits(t[2]));
    assert(default_fits(t[3]));
    assert(default_fits(t[4]));
    assert(t[0].key@ != t[1].key@);
    assert(t[0].key@ != t[2].key@);
    assert(t[0].key@ != t[3].key@);
    assert(t[0].key@ != t[4].key@);
    assert(t[1].key@ != t[2].key@);
    assert(t[1].key@ != t[3].key@);
    assert(t[1].key@ != t[4].key@);
    assert(t[2].key@ != t[3].key@);
    assert(t[2].key@ != t[4].key@);
    assert(t[3].key@ != t[4].key@);
}

proof fn lemma_metrics_fits()
    ensures
        fields_fit(metrics_table()),
{
    let t = metrics_table();
    assert(t.len() == 1);
    assert(default_fits(t[0]));
}

proof fn lemma_zero_copy_fits()
    ensures
        fields_fit(zero_copy_table()),
{
    reveal_strlit("splice");
    assert("splice"@.len() == 6);
    reveal_strlit("registered_buffers");
    assert("registered_buffers"@.len() == 18);
    reveal_strlit("udp_zerocopy");
    assert("udp_zerocopy"@.len() == 12);
    let t = zero_copy_table();
    assert(t.len() == 3);
    assert(default_fits(t[0]));
    assert(default_fits(t[1]));
    assert(default_fits(t[2]));
    assert(t[0].key@ != t[1].key@);
    assert(t[0].key@ != t[2].key@);
    assert(t[1].key@ != t[2].key@);
}

proof fn lemma_af_xdp_fits()
    ensures
        fields_fit(af_xdp_table()),
{
    reveal_strlit("0");
    assert("0"@ =~= seq!['0']);
    lemma_digit("0"@, '0');
    reveal_strlit("device");
    assert("device"@.len() == 6);
    reveal_strlit("queue");
    assert("queue"@.len() == 5);
    let t = af_xdp_table();
    assert(t.len() == 2);
    assert(default_fits(t[0]));
    assert(default_fits(t[1]));
    assert(t[0].key@ != t[1].key@);
}

proof fn lemma_engine_fits()
    ensures
        fields_fit(engine_table()),
{
    reveal_strlit("udp_bind");
    assert("udp_bind"@.len() == 8);
    reveal_strlit("tcp_bind");
    assert("tcp_bind"@.len() == 8);
    assert("udp_bind"@[0] != "tcp_bind"@[0]);
    let t = engine_table();
    assert(t.len() == 2);
    assert(default_fits(t[0]));
    assert(default_fits(t[1]));
    assert(t[0].key@ != t[1].key@);
}

/// The fields of every section fit, and no section occurs twice.
pub proof fn law_table_is_consistent()
    ensures
        forall|i: int| 0 <= i < section_table().len() ==> fields_fit(
            (#[trigger] section_table()[i]).fields,
        ),
        forall|i: int, j: int|
            0 <= i < j < section_table().len() ==> (#[trigger] section_table()[i]).name
                != (#[trigger] section_table()[j]).name,
{
    lemma_core_fits();
    lemma_reactor_fits();
    lemma_udp_fits();
    lemma_tcp_fits();
    lemma_sctp_fits();
    lemma_metrics_fits();
    lemma_zero_copy_fits();
    lemma_af_xdp_fits();
    lemma_engine_fits();
    reveal_strlit("core");
    assert("core"@.len() == 4);
    reveal_strlit("reactor");
    assert("reactor"@.len() == 7);
    reveal_strlit("udp");
    assert("udp"@.len() == 3);
    reveal_strlit("tcp");
    assert("tcp"@.len() == 3);
    reveal_strlit("sctp");
    assert("sctp"@.len() == 4);
    reveal_strlit("metrics");
    assert("metrics"@.len() == 7);
    reveal_strlit("zero_copy");
    assert("zero_copy"@.len() == 9);
    reveal_strlit("af_xdp");
    assert("af_xdp"@.len() == 6);
    reveal_strlit("engine");
    assert("engine"@.len() == 6);
    assert("core"@[0] != "sctp"@[0]);
    assert("reactor"@[0] != "metrics"@[0]);
    assert("udp"@[0] != "tcp"@[0]);
    assert("af_xdp"@[0] != "engine"@[0]);
}

} // verus!
