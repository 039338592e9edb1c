# chip8

A CHIP-8 interpreter core and a small assembler that emits CHIP-8 code,
verified with Verus.

- `src/bits.rs` – pixel and bit addressing in display rows and sprite bytes.
- `src/stack.rs` – the sixteen-entry call stack.
- `src/cpu.rs` – fetching and executing instructions. The state of a machine
  is modelled by `Machine`; `step` says what one instruction does and
  `step_ok` when it can run.
- `src/table.rs` – the table of named data blocks.
- `src/assembler.rs` – register allocation, `if` and loop blocks,
  expressions, data blocks and sprite drawing. `StateView` models the
  assembler's state; each operation's effect is a spec function over it.
- `src/laws.rs` – properties across operations: drawing twice erases, a call
  followed by a return restores the machine, placed code is fetched back,
  the single instructions that the assembler emits for loads, increments and
  block jumps do what they stand for when the interpreter runs them, every
  operation keeps the assembler's state valid, and more.
- `src/programs.rs` – a model of running emitted code (`run`), and the laws
  that the code emitted for a multiplication, by a literal or by a
  variable, leaves the product in the register when run from its first word
  to its end.
- `app/main.rs` – the program: builds a small program, loads an optional
  ROM file and runs the interpreter loop with timers and tracing.
