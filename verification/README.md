# plum

The middle of a compiler for Plum, an ML-family language whose memory is reference counted
with reuse analysis, together with an interpreter for what it produces. The library is
written in Verus: what each function computes is stated in its contract and proved.

| Module | What it holds |
| --- | --- |
| `ast` | Surface syntax |
| `lower` | From surface syntax to the intermediate representation |
| `ir` | The intermediate representation, and its model: a `Term` is an operator with names, children and arms |
| `anf` | Naming of intermediate allocations |
| `liftassign` | Lifting of assignments out of value positions |
| `fbip` | Insertion of reference counts, and marking of where memory can be reused |
| `interp` | An interpreter: a machine that takes small steps, with a reference-counted heap |
| `names` | Sets and maps of names, and text that stands for numbers |

The interpreter holds floating-point numbers by their bits, and leaves arithmetic on them,
threads and channels to its host: it waits with a request and goes on with the reply. The
host in `app/` serves these requests with threads of the operating system; the one in
`tests/source.rs` runs one task after another.

Laws that relate several functions are public proof functions. They stand in the modules
named `laws` and beside the functions that they speak of. What counting and reuse promise of
references is in `fbip/balance.rs`, `fbip/running.rs`, `fbip/paid.rs` and `fbip/inplace.rs`;
what evaluation does to the heap is in `interp/memory.rs`; that building in place and
building afresh agree is in `interp/agreement.rs` and `interp/optimised.rs`, and what crosses from heap to heap in
`interp/portable.rs`; that counting keeps what a program computes is in `interp/erasure.rs`
and `interp/counting.rs`, and that it frees nothing that is still needed, for expressions
that are evaluated in one go (`interp/direct.rs`), in `interp/safety.rs` and
`interp/tidy.rs`; that lifting an assignment keeps the meaning is in `interp/lifting.rs`,
that naming allocations does in `interp/naming.rs`, and that a call depends on nothing of its
caller in `interp/context.rs`.

What is not proved is in `interp/text.rs`: the functions marked `external_body` call string
functions of the standard library, and their contracts are believed.
