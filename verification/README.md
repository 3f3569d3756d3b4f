# cube_core

A verified library for N×N×N Rubik-type cubes, written in Verus. A cube is
held packed: its first word holds the corners (with, for odd dimensions,
the single edges and the fixed centers), and every further word holds one
orbit of 24 pieces in 5-bit blocks. The library composes, inverts and
checks such cubes, moves them, and converts them to and from a geometric
form made of one point per cubie.

## Layout

- `arena.rs`, `state_arena.rs`: stores of packed cubes and their group
  operations; `laws.rs` proves the group laws on them.
- `ops.rs`, `bits.rs`, `kinds.rs`, `group.rs`, `orbit_words.rs`, `tagged.rs`,
  `bit.rs`: packing of orbits, and composition of orbit words.
- `cycles.rs`, `walks.rs`, `swaps.rs`, `order.rs`, `numbers.rs`: cycles,
  parities and orders of packed permutations, and the gcd and lcm behind them.
- `checks.rs`, `solvable.rs`: validity of packed cubes and the solvability
  conditions; `analysis.rs`: order, cycle decomposition and checks of a cube.
- `random.rs`: random cubes, built from drawn values by a verified function.
- `cube_vect.rs`, `packing.rs`, `roundtrip.rs`, `turns.rs`: the geometric
  form, its moves, and the conversions between both forms.
- `cube_moves.rs`, `table.rs`, `alg.rs`: moves, their names and the move table.
- `layout.rs`, `layout_format.rs`, `state_layout.rs`: the geometry of a
  dimension and its byte format.
- `cube_perm.rs`: the cube as kind-tagged permutation words.
- `error.rs`, `text.rs`: the error type and the texts of errors and moves.

`app/` holds the command-line tool (argument handling, files, printing), and
`tests/` the tests, which run the library with its outside crates.
