# Stack VM

A stack-based bytecode virtual machine with an assembler and a disassembler,
written in Verus: every function of the library states its behaviour in a
contract that the verifier proves, except two calls into the standard library
whose contracts are trusted: `String::push` (wrapped by `text::push_char`) and
`char::to_uppercase` (wrapped by `text::std_char_uppercase`, whose result for a
non-ASCII char is named `char_uppercase` and not spelled out; ASCII letters are
uppercased by verified code).

## Layout

- `src/isa.rs`: the instructions, their byte encoding and decoding, and the
  law that decoding an encoding gives the instruction back.
- `src/basic_isa.rs`: a smaller instruction set (stack and arithmetic only)
  whose decoder knows the instructions without operand.
- `src/bytecode.rs`: the `.tbc` file format (magic `MVM\0`, version, length,
  code) and the law that reading back a written file gives the code.
- `src/text.rs`: text as sequences of chars: lines, trimming, uppercase,
  words, decimal and hexadecimal numbers.
- `src/assembler.rs`: the two-pass assembler, with the laws that the bytes
  are the encoding of the source's instructions in order, that case, byte
  order marks and comments do not matter, and that labels (lines whose code
  ends in `:`) stand for the offsets of the code that follows them. It also reports whether the last
  instruction is `HALT`; the command line warns when it is not.
- `src/disassembler.rs`: bytecode back to text, one instruction a line.
- `src/round_trip.rs`: the disassembly of any code assembles back to it.
- `src/vm.rs`: the machine as a step function from state and code to next
  state and effect (continue, print a value, halt) or trap, with laws on
  whole runs: a step at an instruction executes it, a run splits into
  consecutive runs, and straight-line code (no jumps, calls or returns)
  gives the state and output that its instructions give one after another.
- `app/main.rs`: the command line (`asm`, `run [--trace] [--step]`, `dis`),
  which reads and writes files and runs the step function in a loop.
- `tests/`: tests on concrete programs and values.

## Instruction set

| Byte | Mnemonic | Operand | Effect |
|------|----------|---------|--------|
| 0x01 | `PUSH n` | i64 | Push `n` |
| 0x02 | `POP` | - | Discard top |
| 0x03 | `DUP` | - | Duplicate top |
| 0x04 | `SWAP` | - | Swap top two |
| 0x10..0x15 | `ADD SUB MUL DIV MOD NEG` | - | Arithmetic (`DIV`/`MOD` trap on zero) |
| 0x20..0x22 | `EQ LT GT` | - | Compare, push 1 or 0 |
| 0x30..0x32 | `JMP JZ JNZ` | u32 | Jump (conditionally on the popped value) |
| 0x33 | `CALL` | u32 | Push the return address on the return stack, jump |
| 0x34 | `RET` | - | Pop the return address and jump back |
| 0x40 | `LOAD s` | u8 | Push global slot `s` |
| 0x41 | `STORE s` | u8 | Pop into global slot `s` |
| 0x60 | `PRINT` | - | Pop and print |
| 0xFF | `HALT` | - | Stop |
