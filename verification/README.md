# sp1_recursion_collections

Arrays for a recursion compiler's intermediate representation, with the builder that
records their instructions, two routines of a FRI batch-opening verifier written with
them, and the guest-side output writer of a zkVM — whose behaviour is stated in contracts and proved by Verus.

- `src/ir.rs` — variables (`Var`, `Felt`, `Ext`, `Ptr`, `Usize`), instructions (`DslIr`,
  modelled by `Instr`), and `Builder`, which hands out fresh variables and appends
  instructions. Every builder operation's contract gives the exact instructions it appends
  and the counters it ends with.
- `src/variable.rs` — `MemVariable` and `FromConstant`, implemented for the scalar kinds.
- `src/collections.rs` — `Array` (fixed or in memory): `len`, `shift`, `truncate`,
  `Builder::{array, dyn_array, array_to_dyn, get, set}`, copying, comparing, loading and
  storing arrays, and building arrays of constants.
- `src/fri.rs` — `reduce` and `verify_batch`.
- `src/semantics.rs` — what a program does when it runs: variables, memory cells, a bump
  allocator, loops and branches; Poseidon2 is a parameter of the machine.
- `src/laws.rs` — proved properties of the programs built for arrays: a read gives back
  the last write (also through another array addressing the same cells), a load gives back
  what a store wrote, allocation and disjointness of consecutive allocations, shifting
  (aliasing, composition) and truncation, conversion of fixed arrays, arrays of constants
  (also arrays of arrays of constants), and when equality and inequality assertions succeed
  (also on arrays of arrays).
- `src/digest.rs` — what `reduce`'s program does when it runs: it always runs to the end,
  moves the table index past each table of the current height, and hashes the flattened
  coefficients of those tables' rows, table after table and element after element.
- `src/merkle.rs` — what `verify_batch`'s program does when it runs: the root it compares
  with the commitment is the Merkle walk's, from the digest of the tallest tables, each
  sibling compressed in on the side of its index bit and, at each height reached, the
  digest of the tables of that height; the opening is accepted exactly when the
  commitment equals that root.
- `src/io.rs` — which `syscall_write` calls writing a slice makes.
- `app/lib.rs` — the system calls themselves, `std::io::Write`, and bincode.
