# StreamForge

An event streaming engine: an append-only commit log, a broker that keeps topics
and consumer groups over such logs, the wire protocol between the broker and its
clients, and the clients. The library is written in Verus; what its functions do
is stated in their contracts and proved.

## Layout

- `src/log/` — records, segments, sparse indexes and the log made of them. A log says,
  as `FileOp`s, which changes to make in its directory, and, as a `Cursor`, where to
  read in its files; the records themselves stay on disk. `laws.rs` and `storage_laws.rs` state what
  holds of whole histories: what is appended is read back, under consecutive
  offsets, also after the log was reopened.
- `src/broker/` — frames and their encoding (`protocol.rs`), topics, consumer groups,
  the course of a connection (`connection.rs`), and the handling of requests
  (`server.rs`) as steps that the surroundings perform.
  `server_laws.rs` and `history_laws.rs` state what holds across requests: a record
  that was acknowledged is fetched, whatever came between.
- `src/compression/` — LZ4 compression of records and of batches.
- `src/producer/`, `src/consumer/` — the clients, apart from their connections.
- `src/cli.rs`, `src/text.rs`, `src/wire.rs` — the command line, numbers as text, and
  little-endian integers.
- `app/` — the program: files, sockets, the accept loop.
- `tests/` — tests that run the library, with its directories in memory.

## What is believed without proof

These functions call outside code and are believed to do what their contracts say:
the checksum (`crc32fast`), compression and decompression (`lz4_flex`), the lossy
reading of text and the quoting of text (the standard library), and the printed form
of a payload (`bytes`). Each says in its doc comment what is claimed.
