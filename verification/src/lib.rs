//! A verified network engine core: wire formats, checksums, a userspace
//! TCP endpoint, lock-free-style containers and the molecule combinators
//! they are assembled from.
pub mod address_laws;
pub mod af_xdp;
pub mod affine;
pub mod api;
pub mod atom;
pub mod bench;
pub mod bench_laws;
pub mod buffer;
pub mod bytes;
pub mod channel;
pub mod checksum;
pub mod cli;
pub mod command_laws;
pub mod compose;
pub mod config;
pub mod config_defaults;
pub mod config_laws;
pub mod config_model;
pub mod config_table;
pub mod conn;
pub mod detect;
pub mod detect_laws;
pub mod document_laws;
pub mod engine;
pub mod engine_laws;
pub mod feedback;
pub mod fuzz;
pub mod io_laws;
pub mod json;
pub mod kernel_laws;
pub mod layout;
pub mod mem;
pub mod metrics;
pub mod molecule;
pub mod order;
pub mod parse;
pub mod reactor;
pub mod reactor_loop;
pub mod report_laws;
pub mod ring;
pub mod ring_laws;
pub mod simd;
pub mod sockaddr;
pub mod stack;
pub mod text;
pub mod text_laws;
pub mod transport;
pub mod uring;
pub mod uring_flow;
pub mod uring_laws;
pub mod uring_pool;
pub mod ustack;
pub mod ustack_acks;
pub mod ustack_keeps;
pub mod ustack_laws;
pub mod ustack_peer;
pub mod ustack_runs;
pub mod wire;
pub mod wire_laws;
pub mod xdp_laws;
