# distaff bit-operation snippets, verified

Generators of stack-machine assembly for bit-level operations on values (truncation,
bitwise not/and/or/xor, shifts, rotations, remainder), written in Verus.

Each generator in `src/ops.rs` returns the exact text of its snippet; its contract names
the lines of that text. `src/vm.rs` models the stack machine that runs the snippets and
holds an interpreter, `run`, proved to follow the model. The machine computes in the
prime field of order `2^128 - 45 * 2^40 + 1`; the model computes exactly on the field's
elements and stops a run where an exact result would leave the field, so every result it
gives is the field's. Program text is read as words between spaces, tabs, carriage
returns and newlines (one instruction per line, or several on a line).

`src/laws.rs` proves, for every generator, what its snippet does to the stack wherever
it stands in a program (for example: `truncate(n, count)` replaces a value by its lowest
`count` bits; `bit_xor(n)` replaces two `n`-bit values by their xor; `rtl64_var(n)`
rotates a 64-bit value left by the count above it), how snippets combine (constant
rotations add their counts; a left rotation undoes a right one), how many rounds each
loop takes, and that a remainder by zero of a nonzero value never ends. `law_run_text`
ties the text to a run: a program text made of such lines reads back as its words and
runs to the stack the laws give.

`src/prover.rs` turns a vector of 16-byte evaluations into 32-byte leaves, laid out in
the machine's native byte order as the values lie in memory.

The tests in `tests/` run generated programs through `run`.
