# oxideav_mpegts

A verified MPEG transport stream library. Everything under `src/` is proved
with Verus; there are no trusted items.

| Module | What it holds |
| --- | --- |
| `packet` | 188-byte packets, adaptation fields in both directions, 188/192/204-byte framings |
| `pes` | PES headers in both directions, trick modes, reassembly from packets |
| `psi` | PAT, PMT, CAT, TSDT, NIT, SDT, EIT, TDT, TOT, section assembly, CRC |
| `descriptor` | descriptor loops and the bodies read from them |
| `build` | writers of tables and descriptors |
| `clock` | continuity counters, wrapping timestamps |
| `stream_type` | the stream type byte and its classes |
| `validate` | conformance report of a whole stream |
| `tstd` | decoder model: parameters, byte routing and classes, arrival schedule |
| `muxer` | multiplexer: tables, PES packets, clock references, splices, constant rate |

Contracts speak of spec functions over `Seq<u8>` and integers. What holds
across functions is stated by public proof functions. Files named `round_trip`
and `read_back` say what a reader gets of what a writer wrote. For the
multiplexer:

| File | What it states |
| --- | --- |
| `session_laws`, `call_laws` | frames come back in the order in which they were written, whatever calls a session is made of; under pacing where no frame without a timestamp overtakes one that is held |
| `draining` | taking the output out changes nothing of what follows |
| `conformance`, `session_conformance` | what a validation finds in the output |
| `punctual` | when clock references are on time without pacing |
| `byte_clock`, `one_clock` | with pacing all clock references are on one byte clock |
| `clock_gaps`, `clock_lag` | and no two of them are far apart, where no frame takes long |
| `plan_laws`, `home_laws` | which configurations give every PID one owner and have everything where it belongs |
| `laws`, `well_formed` | what holds after every call |

`app/` puts the multiplexer behind the `Muxer` trait of `oxideav_core`, writes its
output to a `WriteSeek`, and holds the fluid buffer model, which computes in
floating point. `tests/` runs the library from outside.
