//! The instruction set: the single source of byte values for every opcode.
use vstd::prelude::*;
use crate::le_bytes::{
    u32_le, le_u32, u64_le, le_u64, lemma_u32_le, lemma_le_u32, lemma_u64_le, lemma_le_u64, push_u32_le,
    push_u64_le, read_u32_le, read_u64_le,
};

verus! {

/// One instruction of the machine.
#[derive(Debug, Clone, Copy, PartialEq, Eq, Structural)]
pub enum Op {
    Push(i64),
    Pop,
    Dup,
    Swap,
    Add,
    Sub,
    Mul,
    Div,
    Mod,
    Neg,
    Load(u8),
    Store(u8),
    Print,
    Halt,
    Eq,
    Lt,
    Gt,
    Jmp(u32),
    Jz(u32),
    Jnz(u32),
    Call(u32),
    Ret,
}

/// Why a byte sequence does not start with a valid instruction.
#[derive(Debug, Clone, Copy, PartialEq, Eq, Structural)]
pub enum DecodeError {
    InvalidOpcode(u8),
    TruncatedInstruction,
}

/// The opcode byte of an instruction.
pub open spec fn opcode(op: Op) -> u8 {
    match op {
        Op::Push(_) => 0x01,
        Op::Pop => 0x02,
        Op::Dup => 0x03,
        Op::Swap => 0x04,
        Op::Add => 0x10,
        Op::Sub => 0x11,
        Op::Mul => 0x12,
        Op::Div => 0x13,
        Op::Mod => 0x14,
        Op::Neg => 0x15,
        Op::Load(_) => 0x40,
        Op::Store(_) => 0x41,
        Op::Print => 0x60,
        Op::Halt => 0xFF,
        Op::Eq => 0x20,
        Op::Lt => 0x21,
        Op::Gt => 0x22,
        Op::Jmp(_) => 0x30,
        Op::Jz(_) => 0x31,
        Op::Jnz(_) => 0x32,
        Op::Call(_) => 0x33,
        Op::Ret => 0x34,
    }
}

/// The little-endian bytes of a 64-bit signed integer (two's complement).
pub open spec fn i64_le_bytes(n: i64) -> Seq<u8> {
    u64_le(n as u64)
}

/// The operand bytes that follow the opcode.
pub open spec fn operand_bytes(op: Op) -> Seq<u8> {
    match op {
        Op::Push(n) => i64_le_bytes(n),
        Op::Load(slot) => seq![slot],
        Op::Store(slot) => seq![slot],
        Op::Jmp(addr) => u32_le(addr),
        Op::Jz(addr) => u32_le(addr),
        Op::Jnz(addr) => u32_le(addr),
        Op::Call(addr) => u32_le(addr),
        _ => seq![],
    }
}

/// The encoding of an instruction: its opcode followed by its operand.
pub open spec fn spec_encode(op: Op) -> Seq<u8> {
    seq![opcode(op)] + operand_bytes(op)
}

/// The number of bytes an instruction occupies.
pub open spec fn op_size(op: Op) -> nat {
    match op {
        Op::Push(_) => 9,
        Op::Load(_) | Op::Store(_) => 2,
        Op::Jmp(_) | Op::Jz(_) | Op::Jnz(_) | Op::Call(_) => 5,
        _ => 1,
    }
}

/// An encoding is as long as the size of its instruction.
pub proof fn lemma_encode_len(op: Op)
    ensures
        spec_encode(op).len() == op_size(op),
{
    match op {
        Op::Push(n) => lemma_u64_le(n as u64),
        Op::Jmp(a) | Op::Jz(a) | Op::Jnz(a) | Op::Call(a) => lemma_u32_le(a),
        _ => {},
    }
}

impl Op {
    /// Appends the encoding of this instruction to `out`.
    pub fn encode(&self, out: &mut Vec<u8>)
        ensures
            final(out)@ == old(out)@ + spec_encode(*self),
    {
        match self {
            Op::Push(n) => {
                out.push(0x01);
                push_u64_le(out, *n as u64);
            },
            Op::Pop => out.push(0x02),
            Op::Dup => out.push(0x03),
            Op::Swap => out.push(0x04),
            Op::Add => out.push(0x10),
            Op::Sub => out.push(0x11),
            Op::Mul => out.push(0x12),
            Op::Div => out.push(0x13),
            Op::Mod => out.push(0x14),
            Op::Neg => out.push(0x15),
            Op::Load(slot) => {
                out.push(0x40);
                out.push(*slot);
            },
            Op::Store(slot) => {
                out.push(0x41);
                out.push(*slot);
            },
            Op::Print => out.push(0x60),
            Op::Halt => out.push(0xFF),
            Op::Eq => out.push(0x20),
            Op::Lt => out.push(0x21),
            Op::Gt => out.push(0x22),
            Op::Jmp(addr) => {
                out.push(0x30);
                push_u32_le(out, *addr);
            },
            Op::Jz(addr) => {
                out.push(0x31);
                push_u32_le(out, *addr);
            },
            Op::Jnz(addr) => {
                out.push(0x32);
                push_u32_le(out, *addr);
            },
            Op::Call(addr) => {
                out.push(0x33);
                push_u32_le(out, *addr);
            },
            Op::Ret => out.push(0x34),
        }
    }
}

/// Appends every byte of `src` to `out`, in order.
pub fn append_bytes(out: &mut Vec<u8>, src: &[u8])
    ensures
        final(out)@ == old(out)@ + src@,
{
    let ghost start = out@;
    let mut i: usize = 0;
    while i < src.len()
        invariant
            i <= src@.len(),
            out@ == start + src@.take(i as int),
        decreases src@.len() - i,
    {
        out.push(src[i]);
        i = i + 1;
        assert(src@.take(i as int) == src@.take((i - 1) as int).push(src@[i - 1]));
    }
    assert(src@.take(i as int) == src@);
}


/// What decoding the start of `b` gives: the instruction and its size, or why
/// there is none.
pub open spec fn spec_decode(b: Seq<u8>) -> Result<(Op, usize), DecodeError> {
    if b.len() == 0 {
        Err(DecodeError::TruncatedInstruction)
    } else {
        let c = b[0];
        if c == 0x01 {
            if b.len() < 9 {
                Err(DecodeError::TruncatedInstruction)
            } else {
                Ok((Op::Push(le_u64(b.subrange(1, 9)) as i64), 9))
            }
        } else if c == 0x40 || c == 0x41 {
            if b.len() < 2 {
                Err(DecodeError::TruncatedInstruction)
            } else if c == 0x40 {
                Ok((Op::Load(b[1]), 2))
            } else {
                Ok((Op::Store(b[1]), 2))
            }
        } else if c == 0x30 || c == 0x31 || c == 0x32 || c == 0x33 {
            if b.len() < 5 {
                Err(DecodeError::TruncatedInstruction)
            } else {
                let addr = le_u32(b.subrange(1, 5));
                if c == 0x30 {
                    Ok((Op::Jmp(addr), 5))
                } else if c == 0x31 {
                    Ok((Op::Jz(addr), 5))
                } else if c == 0x32 {
                    Ok((Op::Jnz(addr), 5))
                } else {
                    Ok((Op::Call(addr), 5))
                }
            }
        } else {
            match simple_op(c) {
                Some(op) => Ok((op, 1)),
                None => Err(DecodeError::InvalidOpcode(c)),
            }
        }
    }
}

/// The instruction without operand that a byte stands for, if any.
pub open spec fn simple_op(c: u8) -> Option<Op> {
    if c == 0x02 {
        Some(Op::Pop)
    } else if c == 0x03 {
        Some(Op::Dup)
    } else if c == 0x04 {
        Some(Op::Swap)
    } else if c == 0x10 {
        Some(Op::Add)
    } else if c == 0x11 {
        Some(Op::Sub)
    } else if c == 0x12 {
        Some(Op::Mul)
    } else if c == 0x13 {
        Some(Op::Div)
    } else if c == 0x14 {
        Some(Op::Mod)
    } else if c == 0x15 {
        Some(Op::Neg)
    } else if c == 0x60 {
        Some(Op::Print)
    } else if c == 0xFF {
        Some(Op::Halt)
    } else if c == 0x20 {
        Some(Op::Eq)
    } else if c == 0x21 {
        Some(Op::Lt)
    } else if c == 0x22 {
        Some(Op::Gt)
    } else if c == 0x34 {
        Some(Op::Ret)
    } else {
        None
    }
}

impl Op {
    /// Decodes the instruction at the start of `bytes`, giving it with its size.
    pub fn decode(bytes: &[u8]) -> (res: Result<(Op, usize), DecodeError>)
        ensures
            res == spec_decode(bytes@),
    {
        if bytes.len() == 0 {
            return Err(DecodeError::TruncatedInstruction);
        }
        match bytes[0] {
            0x01 => {
                if bytes.len() < 9 {
                    return Err(DecodeError::TruncatedInstruction);
                }
                let value = read_u64_le(bytes, 1);
                Ok((Op::Push(value as i64), 9))
            },
            0x02 => Ok((Op::Pop, 1)),
            0x03 => Ok((Op::Dup, 1)),
            0x04 => Ok((Op::Swap, 1)),
            0x10 => Ok((Op::Add, 1)),
            0x11 => Ok((Op::Sub, 1)),
            0x12 => Ok((Op::Mul, 1)),
            0x13 => Ok((Op::Div, 1)),
            0x14 => Ok((Op::Mod, 1)),
            0x15 => Ok((Op::Neg, 1)),
            0x40 => {
                if bytes.len() < 2 {
                    return Err(DecodeError::TruncatedInstruction);
                }
                Ok((Op::Load(bytes[1]), 2))
            },
            0x41 => {
                if bytes.len() < 2 {
                    return Err(DecodeError::TruncatedInstruction);
                }
                Ok((Op::Store(bytes[1]), 2))
            },
            0x60 => Ok((Op::Print, 1)),
            0xFF => Ok((Op::Halt, 1)),
            0x20 => Ok((Op::Eq, 1)),
            0x21 => Ok((Op::Lt, 1)),
            0x22 => Ok((Op::Gt, 1)),
            0x30 => {
                if bytes.len() < 5 {
                    return Err(DecodeError::TruncatedInstruction);
                }
                Ok((Op::Jmp(read_u32_le(bytes, 1)), 5))
            },
            0x31 => {
                if bytes.len() < 5 {
                    return Err(DecodeError::TruncatedInstruction);
                }
                Ok((Op::Jz(read_u32_le(bytes, 1)), 5))
            },
            0x32 => {
                if bytes.len() < 5 {
                    return Err(DecodeError::TruncatedInstruction);
                }
                Ok((Op::Jnz(read_u32_le(bytes, 1)), 5))
            },
            0x33 => {
                if bytes.len() < 5 {
                    return Err(DecodeError::TruncatedInstruction);
                }
                Ok((Op::Call(read_u32_le(bytes, 1)), 5))
            },
            0x34 => Ok((Op::Ret, 1)),
            opcode => Err(DecodeError::InvalidOpcode(opcode)),
        }
    }
}

/// Decoding an encoded instruction gives it back, with its size, whatever
/// bytes follow it.
pub proof fn lemma_decode_encode(op: Op, rest: Seq<u8>)
    ensures
        spec_decode(spec_encode(op) + rest) == Ok::<(Op, usize), DecodeError>((op, op_size(op) as usize)),
{
    lemma_encode_len(op);
    let b = spec_encode(op) + rest;
    match op {
        Op::Push(n) => {
            lemma_u64_le(n as u64);
            assert(b.subrange(1, 9) == i64_le_bytes(n));
            assert((n as u64) as i64 == n) by (bit_vector);
        },
        Op::Jmp(a) | Op::Jz(a) | Op::Jnz(a) | Op::Call(a) => {
            lemma_u32_le(a);
            assert(b.subrange(1, 5) == u32_le(a));
        },
        _ => {},
    }
}

/// A successful decode consumed exactly the encoding of the instruction it
/// gave: the encoding is the only one of that instruction.
pub proof fn lemma_encode_decode(b: Seq<u8>)
    ensures
        spec_decode(b) matches Ok((op, size)) ==> {
            &&& size == op_size(op)
            &&& size <= b.len()
            &&& b.subrange(0, size as int) == spec_encode(op)
        },
{
    if let Ok((op, size)) = spec_decode(b) {
        match op {
            Op::Push(n) => {
                let x = le_u64(b.subrange(1, 9));
                lemma_le_u64(b.subrange(1, 9));
                assert((x as i64) as u64 == x) by (bit_vector);
                assert(b.subrange(0, 9) == seq![b[0]] + b.subrange(1, 9));
            },
            Op::Jmp(_) | Op::Jz(_) | Op::Jnz(_) | Op::Call(_) => {
                lemma_le_u32(b.subrange(1, 5));
                assert(b.subrange(0, 5) == seq![b[0]] + b.subrange(1, 5));
            },
            Op::Load(_) | Op::Store(_) => {
                assert(b.subrange(0, 2) == seq![b[0], b[1]]);
            },
            _ => {
                assert(b.subrange(0, 1) == seq![b[0]]);
            },
        }
    }
}


/// The encoding of a sequence of instructions, one after the other.
pub open spec fn encode_all(ops: Seq<Op>) -> Seq<u8>
    decreases ops.len(),
{
    if ops.len() == 0 {
        seq![]
    } else {
        spec_encode(ops[0]) + encode_all(ops.drop_first())
    }
}

/// Encoding one more instruction appends its encoding.
pub proof fn lemma_encode_all_push(ops: Seq<Op>, op: Op)
    ensures
        encode_all(ops.push(op)) == encode_all(ops) + spec_encode(op),
    decreases ops.len(),
{
    if ops.len() == 0 {
        assert(ops.push(op).drop_first() == Seq::<Op>::empty());
        assert(encode_all(Seq::<Op>::empty()) == Seq::<u8>::empty());
        assert(spec_encode(op) + Seq::<u8>::empty() == spec_encode(op));
        assert(Seq::<u8>::empty() + spec_encode(op) == spec_encode(op));
    } else {
        assert(ops.push(op).drop_first() == ops.drop_first().push(op));
        lemma_encode_all_push(ops.drop_first(), op);
        assert(spec_encode(ops[0]) + (encode_all(ops.drop_first()) + spec_encode(op)) == (spec_encode(ops[0])
            + encode_all(ops.drop_first())) + spec_encode(op));
    }
}
/// The opcode table: each instruction is encoded as its documented opcode
/// byte followed by its operand (an `i64` as eight little-endian bytes, a
/// slot as one byte, a target as four little-endian bytes).
pub proof fn lemma_opcode_table()
    ensures
        spec_encode(Op::Pop) == seq![0x02u8],
        spec_encode(Op::Dup) == seq![0x03u8],
        spec_encode(Op::Swap) == seq![0x04u8],
        spec_encode(Op::Add) == seq![0x10u8],
        spec_encode(Op::Sub) == seq![0x11u8],
        spec_encode(Op::Mul) == seq![0x12u8],
        spec_encode(Op::Div) == seq![0x13u8],
        spec_encode(Op::Mod) == seq![0x14u8],
        spec_encode(Op::Neg) == seq![0x15u8],
        spec_encode(Op::Eq) == seq![0x20u8],
        spec_encode(Op::Lt) == seq![0x21u8],
        spec_encode(Op::Gt) == seq![0x22u8],
        spec_encode(Op::Ret) == seq![0x34u8],
        spec_encode(Op::Print) == seq![0x60u8],
        spec_encode(Op::Halt) == seq![0xFFu8],
        forall|n: i64| #[trigger] spec_encode(Op::Push(n)) == seq![0x01u8] + u64_le(n as u64),
        forall|s: u8| #[trigger] spec_encode(Op::Load(s)) == seq![0x40u8, s],
        forall|s: u8| #[trigger] spec_encode(Op::Store(s)) == seq![0x41u8, s],
        forall|a: u32| #[trigger] spec_encode(Op::Jmp(a)) == seq![0x30u8] + u32_le(a),
        forall|a: u32| #[trigger] spec_encode(Op::Jz(a)) == seq![0x31u8] + u32_le(a),
        forall|a: u32| #[trigger] spec_encode(Op::Jnz(a)) == seq![0x32u8] + u32_le(a),
        forall|a: u32| #[trigger] spec_encode(Op::Call(a)) == seq![0x33u8] + u32_le(a),
{
    assert(spec_encode(Op::Pop) == seq![0x02u8]);
    assert(spec_encode(Op::Dup) == seq![0x03u8]);
    assert(spec_encode(Op::Swap) == seq![0x04u8]);
    assert(spec_encode(Op::Add) == seq![0x10u8]);
    assert(spec_encode(Op::Sub) == seq![0x11u8]);
    assert(spec_encode(Op::Mul) == seq![0x12u8]);
    assert(spec_encode(Op::Div) == seq![0x13u8]);
    assert(spec_encode(Op::Mod) == seq![0x14u8]);
    assert(spec_encode(Op::Neg) == seq![0x15u8]);
    assert(spec_encode(Op::Eq) == seq![0x20u8]);
    assert(spec_encode(Op::Lt) == seq![0x21u8]);
    assert(spec_encode(Op::Gt) == seq![0x22u8]);
    assert(spec_encode(Op::Ret) == seq![0x34u8]);
    assert(spec_encode(Op::Print) == seq![0x60u8]);
    assert(spec_encode(Op::Halt) == seq![0xFFu8]);
    assert forall|s: u8| #[trigger] spec_encode(Op::Load(s)) == seq![0x40u8, s] by {
        assert(seq![0x40u8] + seq![s] == seq![0x40u8, s]);
    }
    assert forall|s: u8| #[trigger] spec_encode(Op::Store(s)) == seq![0x41u8, s] by {
        assert(seq![0x41u8] + seq![s] == seq![0x41u8, s]);
    }
}

/// A byte that stands for an instruction without operand decodes to it, as a
/// one-byte instruction, whatever follows.
proof fn lemma_decode_simple(c: u8, rest: Seq<u8>)
    requires
        simple_op(c) is Some,
    ensures
        spec_decode(seq![c] + rest) == Ok::<(Op, usize), DecodeError>((simple_op(c)->0, 1usize)),
{
    assert((seq![c] + rest)[0] == c);
}

/// Each opcode byte of an instruction without operand decodes to that
/// instruction, whatever follows it.
pub proof fn lemma_opcode_decode(rest: Seq<u8>)
    ensures
        spec_decode(seq![0x02u8] + rest) == Ok::<(Op, usize), DecodeError>((Op::Pop, 1usize)),
        spec_decode(seq![0x03u8] + rest) == Ok::<(Op, usize), DecodeError>((Op::Dup, 1usize)),
        spec_decode(seq![0x04u8] + rest) == Ok::<(Op, usize), DecodeError>((Op::Swap, 1usize)),
        spec_decode(seq![0x10u8] + rest) == Ok::<(Op, usize), DecodeError>((Op::Add, 1usize)),
        spec_decode(seq![0x11u8] + rest) == Ok::<(Op, usize), DecodeError>((Op::Sub, 1usize)),
        spec_decode(seq![0x12u8] + rest) == Ok::<(Op, usize), DecodeError>((Op::Mul, 1usize)),
        spec_decode(seq![0x13u8] + rest) == Ok::<(Op, usize), DecodeError>((Op::Div, 1usize)),
        spec_decode(seq![0x14u8] + rest) == Ok::<(Op, usize), DecodeError>((Op::Mod, 1usize)),
        spec_decode(seq![0x15u8] + rest) == Ok::<(Op, usize), DecodeError>((Op::Neg, 1usize)),
        spec_decode(seq![0x20u8] + rest) == Ok::<(Op, usize), DecodeError>((Op::Eq, 1usize)),
        spec_decode(seq![0x21u8] + rest) == Ok::<(Op, usize), DecodeError>((Op::Lt, 1usize)),
        spec_decode(seq![0x22u8] + rest) == Ok::<(Op, usize), DecodeError>((Op::Gt, 1usize)),
        spec_decode(seq![0x34u8] + rest) == Ok::<(Op, usize), DecodeError>((Op::Ret, 1usize)),
        spec_decode(seq![0x60u8] + rest) == Ok::<(Op, usize), DecodeError>((Op::Print, 1usize)),
        spec_decode(seq![0xFFu8] + rest) == Ok::<(Op, usize), DecodeError>((Op::Halt, 1usize)),
{
    lemma_decode_simple(0x02u8, rest);
    lemma_decode_simple(0x03u8, rest);
    lemma_decode_simple(0x04u8, rest);
    lemma_decode_simple(0x10u8, rest);
    lemma_decode_simple(0x11u8, rest);
    lemma_decode_simple(0x12u8, rest);
    lemma_decode_simple(0x13u8, rest);
    lemma_decode_simple(0x14u8, rest);
    lemma_decode_simple(0x15u8, rest);
    lemma_decode_simple(0x20u8, rest);
    lemma_decode_simple(0x21u8, rest);
    lemma_decode_simple(0x22u8, rest);
    lemma_decode_simple(0x34u8, rest);
    lemma_decode_simple(0x60u8, rest);
    lemma_decode_simple(0xFFu8, rest);
}
} // verus!
