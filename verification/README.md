# dial9 trace format and telemetry core, verified

A compact, self-describing binary trace format (schemas, events with
delta-encoded timestamps, interned strings, symbol tables) and the logic of a
Tokio telemetry pipeline built on it, written in Verus with contracts proved.

Library (`src/`):

- `leb128`, `codec`, `roundtrip`, `stream`: the wire format, its encoders and
  decoders, and the round-trip proofs.
- `schema`, `types`, `encoder`, `decoder`, `growth`: schemas, the encoder
  (with the whole-trace round-trip law) and the streaming decoder.
- `events`, `buffer`, `collector`: runtime events, the per-thread batch
  buffer (a flushed batch decodes to exactly the recorded events) and the
  bounded batch queue that keeps the newest batches.
- `rotation`, `writer`, `segments`: the decisions of the rotating file writer
  (budget, file size, eviction), the writer interface, and sealed-segment
  naming and metadata.
- `tracker`: long-poll detection on a bucket wheel.
- `symbolize`, `addrset`, `profiling`: offline symbolization of stack-frame
  addresses (collected in a `BTreeSet`) and per-file callframe definitions.
- `search`: which bucket and prefix a search lists.

`app/` holds the file-system, thread-local and serialization glue, the
long-wait future and tracker thread around `tracker`, and the shared
collector.
