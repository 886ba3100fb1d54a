# manta

A receiver for Morse telegraphy: it takes the samples of a band, follows every signal in it,
and reports what they send. `src/` is the verified part, a library in Verus; `app/` is the
ordinary Rust around it, with sockets, files, threads and floating-point numbers.

The engine:

- `lifecycle`, `track`, `manager`: the life of a track, its place among the channels, and all
  tracks together; `manager_laws` says what holds of every hop.
- `events`: the order in which reports leave.
- `peak`: the signal-to-noise ratio that a decoder is told.
- `report`: which track speaks for a recording, and what is said when none does.
- `listen`: the steps of the streaming loop.
- `doctor`, `soak`, `soak_metrics`: the judgement on a source and on a long run.

The sources:

- `metis`, `hpsdr`: the datagrams of an HPSDR receiver, and the stream they make up.
- `kiwi_wire`, `kiwi_handshake`, `kiwi`: the frames of a KiwiSDR receiver, how a connection is
  opened, and how it is kept.
- `wav`, `replay`: recordings, read with `hound`.
- `pace`, `decimate`: sources slowed down to real time, and sources at a lower rate.

Numbers:

- `level`: single-precision numbers, bit by bit or by an integer that orders them.
- `dyadic`: double-precision numbers, held exactly as `mantissa * 2^exponent`.

Times are in nanoseconds, places on the band in billionths of a channel.

Proof functions whose names begin with `law_` state what holds of the library as a whole.
Three functions are trusted rather than proved: `kiwi_wire::decode_lossy`, which calls
`String::from_utf8_lossy`, and `wav::read_layout` and `wav::read_i16`, which call `hound`.
