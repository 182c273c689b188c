//! A stack-based bytecode virtual machine: the instruction set, the bytecode
//! file format, a two-pass assembler, a disassembler and the machine itself,
//! each with its behaviour stated and proved.

pub mod le_bytes;
pub mod isa;
pub mod basic_isa;
pub mod bytecode;
pub mod text;
pub mod assembler;
pub mod disassembler;
pub mod round_trip;
pub mod vm;
pub mod vm_laws;
