# Pit Crew Coach

A local practice coach for iRacing: it reads recorded telemetry (`.ibt` files or lap
tables in CSV), summarizes a session, asks a local Ollama model for coaching feedback,
and serves a small web UI for recording, importing and comparing runs.

The project is split in two:

- `src/` is a library verified with Verus. Every function there carries a contract, and
  the laws the program relies on are stated and proved as proof functions.
- `app/` is the program around it: command line, file and network I/O, threads, the
  floating-point analysis of laps and corners, and the serde/axum/clap glue.

## Library modules

| Module | What it holds |
|---|---|
| `ibt` | The `.ibt` layout: header, variable table, little-endian reads, channel lookup, raw sample values |
| `session_info` | Scanning the session-info text for track, sector and car keys |
| `fixture` | Anonymized fixture files: kept channels, repacked header, table and samples, lap choice |
| `fixture_text` | The reduced session info written into fixtures |
| `readback` | Proof that a fixture's session info reads back with the values it was written with |
| `text` | Character-level helpers with their specifications (trimming, decimal digits, ASCII case) |
| `coach` | Cleaning the coach model's output and choosing the feedback shown |
| `commands` | File names tried when looking for a program on the search path |
| `files` | Which telemetry files to read or list, and whether a typed path can be imported |
| `runs` | Labels, ids and model choice for recorded runs |
| `splits` | The store of recorded runs kept by the web UI, with ids that are never reused |
| `laps` | Grouping samples into laps from the lap counter and line crossings |
| `track` | Where track maps are saved and which saved map to keep |

## Tests

The tests under `tests/` run the library on concrete inputs, with the outside crates
linked.
