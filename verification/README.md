# rusty_redis

A small Redis-style key-value server that speaks RESP2, with its core
verified in Verus.

Layout:

- `src/` — the verified library.
  - `export_type.rs`: `RespValue`, the wire values, and their model.
  - `serial_deserial.rs`: the RESP2 encoder and the streaming decoder, each
    with an exact specification.
  - `codec_laws.rs`: what holds across the two directions (a frame decodes to
    the value it encodes, whatever follows it; a cut-off frame waits for more).
  - `decimal.rs`: decimal lengths and integers.
  - `db_ops.rs`: the store, its requests (`SET` with an optional `EX`
    expiration, `GET`) and its snapshots.
  - `hash_operations.rs`: argument checking for `SET` and `GET`, and their replies.
  - `handle_connection.rs`: a connection's receive buffer (RESP2 requests
    and inline command lines), what each request asks for, and the laws of
    a whole stream of requests however it is split into reads.
  - `text.rs`: the std text conversions the protocol uses, with the contracts
    the rest relies on.
- `app/main.rs` — the server: TCP with tokio, the store thread, and JSON
  snapshots written with serde_json (to a temporary file, then renamed).
- `tests/` — tests of the library.
