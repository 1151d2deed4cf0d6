# Sparse rulers

A program to find minimal complete circular sparse rulers, with a verified core.

- **Circular sparse ruler**: segments `s_1, .., s_k` on a circle that sum to a length `L`.
- **Complete**: every distance from 1 to `L - 1` is the sum of a contiguous run of segments,
  going round the circle.
- **Minimal**: no complete ruler of the same length has fewer segments.

## Layout

- `src/` is the library. Its contracts are proved by Verus, but for those of a few wrappers around
  calls into `rayon`, `bytemuck` and the standard library, which are taken on trust and say so.
  - `ruler`, `symmetry`, `combinatorics`: what rulers are, when two are the same, and counting.
  - `bitset`, `completeness`: the bitwise test for completeness.
  - `ranking`, `successor`: the search space in dictionary order.
  - `range_search`, `session`, `campaign`: the search of a range of ranks, of one length with one
    number of segments, and across lengths.
  - `lower_bound`: the least number of segments that a complete ruler can have.
  - `gpu`, `bytes`, `sorting`: the host's side of a search on the GPU.
  - `state`, `clock`, `format`: bookkeeping, spans of time, and how results are written down.
  - `laws`: what the search as a whole promises.
- `app/` is the program around it: arguments, files, the terminal, the compute device. It reads its
  compute shader from `shader.wgsl` when it is run with `--gpu`.
- `tests/` runs the library on concrete rulers.
