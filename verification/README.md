# choice_tape

A typed record of every decision made while generating a test case: the
*choice tape*. Generation records each random draw as a choice; shrinking edits
the recorded tape and re-runs generation in replay mode, keeping an edit if the
test still fails and the tape got simpler.

The library under `src/` is written in Verus, and every function in it is
proved against its contract, but for four calls into `std`, `rand` and
`rand_xorshift` (marked `external_body`) whose contracts are taken on trust:

- `choice`, `tape`: choices, tapes, and the order in which shrinking descends;
  `order` and `keys` hold the orderings underneath, `float_bits` and `tape_int`
  the encodings of floats and integers.
- `state`: recording and replaying, with keyed sub-streams; `key_map` is the
  map its streams live in, `state_laws` what holds of whole runs.
- `wire`: the persisted byte form of a tape; `le` is its integers, `wire_laws`
  what holds of it. `persisted` is the text form of a failure.
- `forkfile`: a log of tapes that survives the death of the process that
  writes it; `text` and `base16` are its lines and digits.
- `func`: strategies for generating random functions; `runner` is what values
  are generated from, `salt` what tells a function's arguments apart, and
  `observed` the table of its calls.

Floats are held as their IEEE-754 bit patterns. `app/` holds what is not
verified: conversions from `f64`, forkfiles on disk, and functions that share
their tape and their table of calls.
