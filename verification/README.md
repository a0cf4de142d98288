# metalspone

A verified library of the pieces of a STARK prover over BabyBear: the polynomial commitment scheme
with its folding, the lookup argument, the constraints of chips and their compilation to a register
program, and the rounds of proving a shard.

- `src/` is the library. Every function states what it returns, and Verus proves it.
  - `ring`, `field`, `babybear`, `prime`, `ext`, `domain`, `bits`, `matrix`: the algebra.
  - `fold`, `barycentric`, `interpolation`, `reducer`, `denominators`, `lde`, `merkle`, `pcs`,
    `reduction`, `query`, `sequential`, `recompute`, `commit`, `fri`, `verify`: committing and
    opening.
  - `polynomials`, `honest`, `acceptance`: why an honest proof is accepted.
  - `lookup`, `permutation`, `checks`, `sums`, `builder`, `constraints`, `folder`, `chip`: chips,
    their sums and their constraints.
  - `recording`, `program`, `ir`, `compiler`, `compile`, `quotient`: recording constraints as a
    program, and dividing them by the vanishing polynomial.
  - `dispatch`, `device`, `accelerate`: running that program on a device.
  - `cosets`, `disjoint`, `names`, `ordering`, `prover`, `shard`, `opening`: proving a shard.
  - `shape`: the shapes of recursion programs.
  - `memory`, `cpu`, `poseidon2`: the traces of two chips.
- `tests/` runs the library on concrete values.
- `app/` is ordinary Rust around the library: settings, command lines, transcripts, Merkle
  trees and system calls.

What the library takes from other crates stands behind items that are marked as trusted, each with
what is claimed of it.
