# foot_cycle_clip

Builds format-neutral clip candidates from one planned source-to-output time
map, and proves what it builds.

- `src/` is the verified library. Floating-point numbers are bit patterns;
  `rounding`, `magnitude`, `binary32` and `binary64` define and prove correctly
  rounded arithmetic on them. `rows`, `keys`, `cubic`, `operation`, `preflight`
  and `candidate` are the operation itself. `number_laws`, `map_laws`,
  `row_laws`, `candidate_laws` and `renaming_laws` state what holds of every
  input.
- `app/` is the host-facing layer with native numbers, `glam` values, error
  messages and the sampler.
- `tests/` runs the library against native arithmetic and against whole clips.
