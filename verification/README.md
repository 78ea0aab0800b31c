# shrt

A URL shortener. Links live in memory and in an append-only log, on a server that
speaks RESP (Redis, Dragonfly), or in an embedded RocksDB; requests come over HTTP/1.1.

The library under `src/` is written in Verus: each function states what it does in
`requires` and `ensures`, and Verus proves it. The program under `app/` is ordinary Rust
around it: files, sockets, threads, JSON, and what needs floating point.

| module | what it holds |
|---|---|
| `text` | strings, bytes, decimal numbers, white space |
| `codec`, `codec_laws` | the lines of the log |
| `aof` | the log itself, reading it back, following the logs of siblings, claiming an instance id |
| `base62` | the letters of codes |
| `fxmap` | maps of `rustc_hash` |
| `sort`, `listing` | listings of links |
| `store`, `store_laws`, `hits_laws`, `sibling_laws` | the store in memory and its log |
| `kv`, `lru`, `store_kv`, `kv_jobs`, `kv_laws` | the store on a RESP server |
| `store_rocks`, `rocks_jobs`, `rocks_laws` | the store in an embedded database |
| `metrics` | counters and their reports |
| `ratelimit` | whom a limit on requests watches |
| `app`, `app_laws` | the requests and their answers |
| `server_mini`, `server_hyper`, `server_laws` | what the two HTTP servers decide |
| `config`, `bench` | settings, and the load generator |

What is promised of several calls together stands as public proof functions whose names
begin with `law_`. What is believed without proof, calls into other crates and into std,
is marked `#[verifier::external_body]` or `assume_specification`, with a comment that says
what is claimed.

RocksDB needs a C++ toolchain to build. `app/rocks.rs` is compiled in with
`RUSTFLAGS="--cfg rocksdb"`; `STORE=rocksdb` then selects it.
