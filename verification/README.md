# fas_rs

Frame-aware CPU frequency scheduling for games, verified with Verus.

The scheduler watches the frames of the game on top. While frames come late, the CPU frequency
answers in proportion to the time by which they missed. While they come in time, it follows the
load demand: the share of the highest frequency that the load needs.

- `src/` is the library. It takes readings as plain values and hands back what is to be done, so
  that all of it can be verified.
  - `looper`, `control`, `params`: when a game is taken over, and how the frequency changes.
  - `buffer`, `config`: the recent frames of a game, and the frame rates that it may aim at.
  - `cpu_info`, `cpu_cycles_reader`, `weighting`: frequency policies and what their cycle counters
    tell.
  - `guarantees`, `demand`, `smoothing`, `ordering`: what holds of the scheduler, of the samples
    and of the arithmetic as a whole.
  - `binary64`, `rounding`: binary64 floating point on integers, correctly rounded; only the sign
    and payload of a NaN may differ from a processor's.
  - `timing`, `text`, `sorting`: spans of time, numbers in files, sorted lists.
  - `platform`: the functions of other crates that the library calls.
- `app/` is the loop on a device: perf events, sysfs, the configuration file, the frame analyzer.
- `tests/` runs the library on concrete values, next to the processor's own floating point.
