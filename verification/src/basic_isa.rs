//! A smaller instruction set: stack, arithmetic and global-slot instructions,
//! without comparisons or jumps. Its decoder knows only the instructions
//! without operand.
use vstd::prelude::*;
use crate::isa::i64_le_bytes;

verus! {

/// One instruction of the smaller set.
#[derive(Debug, Clone, Copy, PartialEq, Eq, Structural)]
pub enum Op {
    Push(i64),
    Pop,
    Dup,
    Swap,
    Add,
    Sub,
    Mul,
    Div,
    Mod,
    Neg,
    Load(u8),
    Store(u8),
    Print,
    Halt,
}

/// Why a byte sequence does not start with a known instruction.
#[derive(Debug, Clone, Copy, PartialEq, Eq, Structural)]
pub enum DecodeError {
    UnknownOpcode(u8),
    TruncatedInstruction,
}

/// The encoding of an instruction: opcode byte, then operand bytes.
pub open spec fn spec_encode(op: Op) -> Seq<u8> {
    match op {
        Op::Push(n) => seq![0x01u8] + i64_le_bytes(n),
        Op::Pop => seq![0x02u8],
        Op::Dup => seq![0x03u8],
        Op::Swap => seq![0x04u8],
        Op::Add => seq![0x10u8],
        Op::Sub => seq![0x11u8],
        Op::Mul => seq![0x12u8],
        Op::Div => seq![0x13u8],
        Op::Mod => seq![0x14u8],
        Op::Neg => seq![0x15u8],
        Op::Load(slot) => seq![0x40u8, slot],
        Op::Store(slot) => seq![0x41u8, slot],
        Op::Print => seq![0x60u8],
        Op::Halt => seq![0xFFu8],
    }
}

/// The instruction without operand that an opcode byte stands for, if the
/// decoder knows it.
pub open spec fn known_op(c: u8) -> Option<Op> {
    if c == 0x02 {
        Some(Op::Pop)
    } else if c == 0x03 {
        Some(Op::Dup)
    } else if c == 0x04 {
        Some(Op::Swap)
    } else if c == 0x10 {
        Some(Op::Add)
    } else if c == 0x11 {
        Some(Op::Sub)
    } else if c == 0x12 {
        Some(Op::Mul)
    } else if c == 0x13 {
        Some(Op::Div)
    } else if c == 0x14 {
        Some(Op::Mod)
    } else if c == 0x15 {
        Some(Op::Neg)
    } else if c == 0x60 {
        Some(Op::Print)
    } else if c == 0xFF {
        Some(Op::Halt)
    } else {
        None
    }
}

/// The inputs the decoder is defined on: the empty sequence, and those that
/// start with a known opcode. Any other first byte (an operand-taking or an
/// unassigned opcode) is outside its domain, and `decode` requires that it
/// is not given one.
pub open spec fn decodable(b: Seq<u8>) -> bool {
    b.len() == 0 || known_op(b[0]) is Some
}

/// What decoding gives on an input it handles.
pub open spec fn spec_decode(b: Seq<u8>) -> Result<(Op, usize), DecodeError> {
    if b.len() == 0 {
        Err(DecodeError::TruncatedInstruction)
    } else {
        Ok((known_op(b[0])->0, 1))
    }
}

impl Op {
    /// Appends the encoding of this instruction to `out`.
    pub fn encode(&self, out: &mut Vec<u8>)
        ensures
            final(out)@ == old(out)@ + spec_encode(*self),
    {
        match self {
            Op::Push(n) => {
                out.push(0x01);
                crate::le_bytes::push_u64_le(out, *n as u64);
            },
            Op::Pop => out.push(0x02),
            Op::Dup => out.push(0x03),
            Op::Swap => out.push(0x04),
            Op::Add => out.push(0x10),
            Op::Sub => out.push(0x11),
            Op::Mul => out.push(0x12),
            Op::Div => out.push(0x13),
            Op::Mod => out.push(0x14),
            Op::Neg => out.push(0x15),
            Op::Load(slot) => {
                out.push(0x40);
                out.push(*slot);
            },
            Op::Store(slot) => {
                out.push(0x41);
                out.push(*slot);
            },
            Op::Print => out.push(0x60),
            Op::Halt => out.push(0xFF),
        }
    }

    /// Decodes the instruction at the start of `bytes`.
    pub fn decode(bytes: &[u8]) -> (res: Result<(Op, usize), DecodeError>)
        requires
            decodable(bytes@),
        ensures
            res == spec_decode(bytes@),
    {
        if bytes.len() == 0 {
            return Err(DecodeError::TruncatedInstruction);
        }
        match bytes[0] {
            0x02 => Ok((Op::Pop, 1)),
            0x03 => Ok((Op::Dup, 1)),
            0x04 => Ok((Op::Swap, 1)),
            0x10 => Ok((Op::Add, 1)),
            0x11 => Ok((Op::Sub, 1)),
            0x12 => Ok((Op::Mul, 1)),
            0x13 => Ok((Op::Div, 1)),
            0x14 => Ok((Op::Mod, 1)),
            0x15 => Ok((Op::Neg, 1)),
            0x60 => Ok((Op::Print, 1)),
            _ => Ok((Op::Halt, 1)),
        }
    }
}

/// Every instruction without operand decodes back from its encoding, whatever
/// follows it.
pub proof fn lemma_decode_encode(op: Op, rest: Seq<u8>)
    requires
        spec_encode(op).len() == 1,
    ensures
        decodable(spec_encode(op) + rest),
        spec_decode(spec_encode(op) + rest) == Ok::<(Op, usize), DecodeError>((op, 1)),
{
    if let Op::Push(n) = op {
        crate::le_bytes::lemma_u64_le(n as u64);
    }
}

} // verus!
