# AXON core

The core of a publish/subscribe middleware: discovery between processes and hosts,
quality of service rules, ring buffers in shared memory, the wire formats of the
daemons, and the bookkeeping for keys from a quantum key distribution network.

The library under `src/` is verified with Verus: each function states what it returns
or changes, and the laws of the library are public proof functions whose names begin
with `law_`. Calls into other crates (XML, base64, zstd, HKDF, URLs, random numbers)
stand behind small trusted functions whose contracts say what is taken for granted.

- `src/daemon/` - the discovery table, linking of publishers and subscribers, departures,
  synchronisation between daemons, and the XML-RPC interface
- `src/qkd/` - keys: configuration, the shared store, announcements, message keys
- `src/local/` - ring buffers, channels over them, and the life of their segments
- `src/quic_transport.rs`, `src/quic_calls.rs`, `src/topic_pipeline.rs` - decisions of the
  transport between hosts
- `src/bridge/` - what callers in C are told
- `tests/` - tests of the library
- `app/` - the daemon around it: sockets, shared memory, TLS, threads
