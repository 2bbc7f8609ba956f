# iem_tool

Tools around in-ear-monitor equalisation: a biquad EQ engine, frequency-response
curve processing, an AutoEQ solver, a curve converter, a GraphicEQ exporter and a
desktop shell.

Layout:

- `src/` is the library, written in Verus. It holds the logic that is about text,
  names and files rather than numbers: filter-type and bank codes, the scanning of
  raw measurement files and ParametricEQ text, channel detection and curve-name
  standardisation, the grouping of left/right measurement pairs, the sorted JSON
  index of the curve library, and the GraphicEQ output lines. Every public function
  carries a contract, and the properties that span several calls are stated and
  proved as `law_*` proof functions.
- `tests/` runs the library on concrete inputs.
- `app/` is ordinary Rust around the library: the floating-point signal processing
  (biquad design, curve interpolation and smoothing, the AutoEQ solver), the C ABI,
  file-system walks, the command-line tools and the Tauri desktop commands.
