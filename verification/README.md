# racelogic_vbo

A reader for Racelogic VBOX `.vbo` telemetry logs whose logic is proved with Verus.

- `src/` is the verified library. `parser` specifies the meaning of one physical line
  (`step`) and of a whole input (`parse_input`); `StreamParser` and `Parser` are proved to
  compute exactly that. `lines` bounds how much of an overlong line is retained, `number`
  states which fields are numeric literals, `section` and `text` recognise section markers
  and words, `telemetry` decides channel roles, unit labels and flag bits, `analysis` decides
  gate crossings and how a lap timer reacts to each one, and `export` escapes GPX text.
  `laws` and `analysis` hold the properties proved of every input.
- `app/` is ordinary Rust around the library: reading files and buffered streams,
  converting the logged literals to `f64`, floating-point telemetry and lap geometry, and the
  CSV, GPX, Parquet and serde exports.
- `tests/` runs the library on concrete inputs.
