# talloc

A heap allocator that keeps its bookkeeping inside the memory it hands out, with proofs
in Verus that it does so correctly.

Memory is a store of 64-bit words (`Memory`). Each chunk of the heap is free or
reserved. A reserved chunk costs one word, its tag. Free chunks stand in 128 lists by
size; the words that hold the first node of each list stand in memory too, at an
address of the user's choice.

- `src/` is the library. Contracts speak of a `Heap`: the chunks by address, what each
  reserved one is used for, and the lists. `model.rs` says what each operation does to
  it, and `extent.rs` and `arena.rs` what changes of the arena do. `talloc.rs` says how
  a heap stands in memory. `malloc.rs`, `free.rs`, `resize.rs`, `arena.rs` and `mov.rs`
  hold the operations, `scan.rs` a check of what stands in memory, and `laws.rs` what
  holds of the allocator as a whole.
- `tests/` runs the allocator on memory of its own.
- `app/` puts it on the memory of the process, behind a spin lock, as a global
  allocator.
