# xcraft

The BSP (Build Server Protocol) side of `xcraft`, a CLI for building Xcode
projects from the terminal, and its IPA export: a Verus-verified library with a
thin command-line program around it.

- `src/` is the verified library: Unix path handling as `std::path` does it, the
  activity-log decoder and the candidate-log search, the compile-database parser
  and queries, the BSP configuration and state file, the server's request
  decisions and message framing, and the `xcodebuild` arguments of an export.
- `app/` holds `main`, the file and process I/O, JSON and TOML (de)serialization
  and the stdio server loop, calling the library for every decision.
- `tests/` runs the library on concrete values.
