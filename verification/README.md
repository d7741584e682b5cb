# fds

A packet engine's logic as a verified library: protocol parsers and
checksums, a user-space TCP stack, the state machines behind an io_uring
datapath and AF_XDP sockets, lock-step rings and pools, the connection
table, metrics, configuration with its detection tool, and a small algebra
of molecules (composition, feedback, pipelines) with its affine typing.

- `src/` is the library. Every function carries a contract over a
  mathematical model of its data; the proof functions named `law_*` state
  what holds across calls.
- `app/` is the program around it: sockets, threads, rings, mapped memory,
  files and benchmarks. It performs what the library decides.
- `tests/` runs the library on concrete values.

## Modules

| Area | Modules |
| --- | --- |
| Bytes and text | `bytes`, `text`, `order`, `json` |
| Protocols | `parse`, `checksum`, `simd`, `wire`, `ustack`, `ustack_keeps`, `ustack_laws`, `ustack_runs`, `ustack_acks` |
| Datapaths | `uring`, `uring_pool`, `uring_laws`, `af_xdp`, `engine`, `channel`, `transport`, `sockaddr`, `reactor`, `reactor_loop`, `api` |
| State | `conn`, `metrics`, `ring`, `buffer`, `stack`, `layout`, `mem` |
| Configuration | `config`, `config_table`, `config_model`, `config_defaults`, `detect`, `cli` |
| Molecules | `atom`, `molecule`, `compose`, `feedback`, `affine` |
| Harnesses | `bench`, `fuzz` |

## Trust

Calls into `serde_json` and the few functions of the standard library that
have no specification stand behind items marked
`#[verifier::external_body]`; each says in its doc comment what it claims.
