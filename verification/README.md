# lib

Small "should-be-std" libraries — regex, JSON, TOML, CSV, semver, hex, base64,
UUID, `.env` parsing, a ChaCha20 generator, error chains and shortest float
printing — written in Verus, with their behaviour stated in `requires`/`ensures`
contracts over mathematical models and proved.

Layout:

- `src/` — the verified library, one module per format or facility. Each module
  states its grammar or algorithm as spec functions (`spec_from_str`,
  `spec_parse_version`, `gen`, …) and proves the executable code against them.
  Round-trip laws live next to the code they are about (`hex`, `base64`, `uuid`,
  `csv::roundtrip`, `json::roundtrip`, `semver::roundtrip`, `toml::roundtrip`).
  `regex::sound` relates the matcher to the language of the parsed pattern, and
  `ryu::interval` shows that the printed digits read back, are shortest and are
  the closest such digits.
- `src/encoding.rs`, `src/text.rs` — shared facts about UTF-8 and character text.
- `tests/` — ordinary Rust tests that run the compiled library.
- `app/` — the parts that cannot be verified: file and OS access, thread-local
  generators, floating-point conversions, and copies of library types that carry
  derives of other crates.
