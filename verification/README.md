# ReconL

The deciding parts of a small software renderer and its tools, written in Verus:
every function under `src/` has a contract and a proof.

## Layout

- `src/raster/`: fixed-point triangle setup and coverage (`fixed`, `job`), binning
  into tiles (`bin`, `tile`, `determinism`), clipping, texture addressing, frame
  generation, targets and the single-precision conversions (`single`, `simd`).
- `src/resource/`: mip chains, staging buffers, and the crash-safe spill arena
  (`spill`). What an arena and its file hold together from call to call is in
  `spill/contents.rs`, and what a reopened file gives back in `spill/laws.rs`.
- `src/scene.rs`, `src/shadow.rs`: pass lists and their barriers, world revisions,
  cascade selection and the shadow cache's keys.
- `src/png/`: a PNG writer and reader, with the round trip in `png/laws.rs`.
- `src/host/`: a host's side of a device: the reference scene, the plan of a frame,
  the allocator's ledger, names, units and arguments.
- `src/bench/`, `src/diff.rs`, `src/info.rs`: what the three tools accept, do in
  which order, and report.
- `src/rounding.rs`, `src/text.rs`, `src/hash.rs`, `src/bytes.rs`, `src/seqs.rs`,
  `src/num.rs`: exact rounding, text, xxHash64 and the arithmetic beneath.
- `tests/`: the library on concrete values.
- `app/`: the program. Floating-point shading, files, threads, memory and the clock
  live here; each call it makes into the library is tested against what that
  function asks for.

Single-precision values cross into the library as their bit patterns. Functions
named `law_...` state what holds across several functions.
