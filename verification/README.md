# slimetools

Slime chunk tools for Minecraft Java Edition, written in Verus: the slime
chunk rule, pattern search over a square of chunks, slime counts around
chunks, slime maps, and the text they are reported in. The functions in
`src/` are verified against their contracts, except the few marked
`#[verifier::external_body]`, which call `std`, `rayon` or `num_cpus` and
whose contracts are taken on trust.

- `java_rng`, `int_math`, `bits`: the `java.util.Random` generator and
  wrapping integer arithmetic as mathematics, and bit facts.
- `slime_lib`, `slime_chunk`: the slime chunk rule and its fast variants.
- `pattern`, `preprocess`, `matcher`, `matcher_output`, `info`: the pattern
  search, from settings to the result table.
- `grid`, `counter`, `count_order`: slime maps, the best counts around
  chunks, and how count results compare.
- `report`: the map, count and match report files.
- `seed_map`: the seed map text file.
- `text`, `stats`, `timer`, `config`: decimal text, statistics, timing and
  run modes.

`app/` is the command-line program: argument handling, files, the terminal
and the log.
