# redis_lite

A small Redis-compatible server whose protocol codec, key space and command
handling are verified with Verus.

- `src/resp.rs`: RESP values, the frame grammar the decoder follows, the
  decoder and the encoder.
- `src/resp_laws.rs`: decoding reads back what encoding wrote; partial frames
  ask for more bytes; frames are read in order.
- `src/decimal.rs`: decimal formatting and parsing of integers.
- `src/byte_text.rs`: byte-string comparison and ASCII upper-casing.
- `src/data_store.rs`: the key space (strings with expiry deadlines, lists).
- `src/store_laws.rs`, `src/command_laws.rs`: what reads give back of writes,
  at the store and at the command level.
- `src/operations.rs`: the commands PING, ECHO, SET, GET, RPUSH and LRANGE.
- `app/main.rs`: the TCP server (tokio), the clock, and the shared store.
