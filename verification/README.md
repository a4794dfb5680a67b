# radguy

Local fixed-point computation for systems of equations, verified with Verus.

A system assigns each variable a value computed from the values of other variables. Local Kleene
iteration finds the value of one target variable while evaluating only the variables that a
*local oracle* reports as dependencies; ordered variants take the dependencies by the weights of a
*strategy*.

Layout of `src/`:

- `lib.rs`: the traits of systems, sets, assignments and values.
- `arena.rs`: keys as indices; arenas, secondary arenas and two-way arenas.
- `set/`: bit sets of keys and bit-set relations over pairs of keys.
- `oracle.rs`, `oracle/`: local oracles (trivial, identity, `LocalMaxR`, `SMax`, weighted
  dependencies, the argument closure) and how they combine.
- `extension.rs`: oracles built from what the terms of a system depend on.
- `kleene.rs`: local Kleene iteration.
- `ordered/`: weights and strategies (binary heap, hash map, lazy heap, a d-ary heap of an outside
  crate), strategic oracles (counts, arguments, heights, combinations) and ordered Kleene
  iteration.
- `boolean.rs`, `boolean/`: Boolean systems held in arenas, their terms, and their local and
  strategic extensions.
- `numeric.rs`, `numeric/`: numbers with infinity and numeric systems.
- `ccs.rs`, `wccs.rs`, `wctl.rs`: processes, actions and formulas of CCS, weighted CCS and WCTL.
- `bits.rs`: the bits of an unsigned integer and casts between index widths.

Public functions state their results in `ensures` clauses that Verus proves; the calls into outside
crates sit behind small trusted wrappers whose contracts say what those crates document.

Both Kleene iterations give the value of the least fixed point for a sound oracle (`sound_oracle`,
`sound_strategic_oracle`): the identity, trivial, maximal and local-maxima oracles, the counting
oracles, and their compositions are shown sound, and `lemma_bool_least_fixed_point_reachable`
states what a well-formed Boolean system meets.

The CCS, weighted CCS and WCTL transition and bisimulation systems are not part of this crate; only
their processes, actions, formulas and the composition of relabellings are.
