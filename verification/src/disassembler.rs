//! The disassembler: bytecode back to assembly text, one instruction a line.
use vstd::prelude::*;
use crate::isa::{
    Op, DecodeError, spec_decode, encode_all, op_size, lemma_encode_decode,
    lemma_decode_encode, lemma_encode_len,
};
use crate::text::{decimal, signed_decimal, push_decimal, push_signed_decimal};

verus! {

broadcast use vstd::string::group_string_axioms;

/// The mnemonic of an instruction, in upper case.
pub open spec fn mnemonic(op: Op) -> Seq<char> {
    match op {
        Op::Push(_) => "PUSH"@,
        Op::Pop => "POP"@,
        Op::Dup => "DUP"@,
        Op::Swap => "SWAP"@,
        Op::Add => "ADD"@,
        Op::Sub => "SUB"@,
        Op::Mul => "MUL"@,
        Op::Div => "DIV"@,
        Op::Mod => "MOD"@,
        Op::Neg => "NEG"@,
        Op::Load(_) => "LOAD"@,
        Op::Store(_) => "STORE"@,
        Op::Print => "PRINT"@,
        Op::Halt => "HALT"@,
        Op::Eq => "EQ"@,
        Op::Lt => "LT"@,
        Op::Gt => "GT"@,
        Op::Jmp(_) => "JMP"@,
        Op::Jz(_) => "JZ"@,
        Op::Jnz(_) => "JNZ"@,
        Op::Call(_) => "CALL"@,
        Op::Ret => "RET"@,
    }
}

/// The decimal text of an instruction's operand, if it has one.
pub open spec fn operand_text(op: Op) -> Option<Seq<char>> {
    match op {
        Op::Push(n) => Some(signed_decimal(n as int)),
        Op::Load(slot) => Some(decimal(slot as nat)),
        Op::Store(slot) => Some(decimal(slot as nat)),
        Op::Jmp(addr) => Some(decimal(addr as nat)),
        Op::Jz(addr) => Some(decimal(addr as nat)),
        Op::Jnz(addr) => Some(decimal(addr as nat)),
        Op::Call(addr) => Some(decimal(addr as nat)),
        _ => None,
    }
}

/// The assembly text of an instruction: its mnemonic, then a space and its
/// operand when it has one.
pub open spec fn op_text(op: Op) -> Seq<char> {
    match operand_text(op) {
        Some(t) => mnemonic(op) + " "@ + t,
        None => mnemonic(op),
    }
}

/// The line of assembly text for an instruction, with its newline.
pub open spec fn op_line(op: Op) -> Seq<char> {
    op_text(op) + "\n"@
}

/// `text` before the result of a disassembly, if that succeeded.
pub open spec fn prepend(text: Seq<char>, r: Result<Seq<char>, DecodeError>) -> Result<Seq<char>, DecodeError> {
    match r {
        Ok(t) => Ok(text + t),
        Err(e) => Err(e),
    }
}

/// What disassembling `code` gives: the lines of its instructions, in order,
/// or the error of the first instruction that does not decode.
pub open spec fn spec_disassemble(code: Seq<u8>) -> Result<Seq<char>, DecodeError>
    decreases code.len(),
{
    if code.len() == 0 {
        Ok(Seq::empty())
    } else {
        match spec_decode(code) {
            Err(e) => Err(e),
            Ok((op, size)) => {
                proof {
                    lemma_encode_decode(code);
                }
                prepend(op_line(op), spec_disassemble(code.skip(size as int)))
            },
        }
    }
}

/// Appends the line of assembly text for `op`.
fn push_op_line(out: &mut String, op: Op)
    ensures
        final(out)@ == old(out)@ + op_line(op),
{
    match op {
        Op::Push(n) => {
            out.append("PUSH ");
            push_signed_decimal(out, n);
        },
        Op::Pop => out.append("POP"),
        Op::Dup => out.append("DUP"),
        Op::Swap => out.append("SWAP"),
        Op::Add => out.append("ADD"),
        Op::Sub => out.append("SUB"),
        Op::Mul => out.append("MUL"),
        Op::Div => out.append("DIV"),
        Op::Mod => out.append("MOD"),
        Op::Neg => out.append("NEG"),
        Op::Load(slot) => {
            out.append("LOAD ");
            push_decimal(out, slot as u64);
        },
        Op::Store(slot) => {
            out.append("STORE ");
            push_decimal(out, slot as u64);
        },
        Op::Print => out.append("PRINT"),
        Op::Halt => out.append("HALT"),
        Op::Eq => out.append("EQ"),
        Op::Lt => out.append("LT"),
        Op::Gt => out.append("GT"),
        Op::Jmp(addr) => {
            out.append("JMP ");
            push_decimal(out, addr as u64);
        },
        Op::Jz(addr) => {
            out.append("JZ ");
            push_decimal(out, addr as u64);
        },
        Op::Jnz(addr) => {
            out.append("JNZ ");
            push_decimal(out, addr as u64);
        },
        Op::Call(addr) => {
            out.append("CALL ");
            push_decimal(out, addr as u64);
        },
        Op::Ret => out.append("RET"),
    }
    out.append("\n");
    assert(out@ == old(out)@ + op_line(op)) by {
        reveal_strlit("PUSH ");
        reveal_strlit("PUSH");
        reveal_strlit(" ");
        reveal_strlit("LOAD ");
        reveal_strlit("LOAD");
        reveal_strlit("STORE ");
        reveal_strlit("STORE");
        reveal_strlit("JMP ");
        reveal_strlit("JMP");
        reveal_strlit("JZ ");
        reveal_strlit("JZ");
        reveal_strlit("JNZ ");
        reveal_strlit("JNZ");
        reveal_strlit("CALL ");
        reveal_strlit("CALL");
    }
}

/// Disassembles `code` into assembly text, one line per instruction.
pub fn disassemble(code: &[u8]) -> (res: Result<String, DecodeError>)
    ensures
        match res {
            Ok(text) => spec_disassemble(code@) == Ok::<Seq<char>, DecodeError>(text@),
            Err(e) => spec_disassemble(code@) == Err::<Seq<char>, DecodeError>(e),
        },
{
    let mut output = String::new();
    let mut pc: usize = 0;
    assert(code@.skip(0) == code@);
    while pc < code.len()
        invariant
            pc <= code@.len(),
            spec_disassemble(code@) == prepend(output@, spec_disassemble(code@.skip(pc as int))),
        decreases code@.len() - pc,
    {
        let rest = &code[pc..code.len()];
        assert(rest@ == code@.skip(pc as int));
        let (op, size) = match Op::decode(rest) {
            Ok(x) => x,
            Err(e) => return Err(e),
        };
        proof {
            lemma_encode_decode(rest@);
            assert(rest@.skip(size as int) == code@.skip(pc + size));
        }
        let ghost before = output@;
        push_op_line(&mut output, op);
        proof {
            if let Ok(t) = spec_disassemble(code@.skip(pc + size)) {
                assert(before + (op_line(op) + t) == output@ + t);
            }
        }
        pc = pc + size;
    }
    assert(code@.skip(pc as int).len() == 0);
    assert(output@ + Seq::<char>::empty() == output@);
    Ok(output)
}


/// The assembly listing of a sequence of instructions: their lines, in order.
pub open spec fn listing(ops: Seq<Op>) -> Seq<char>
    decreases ops.len(),
{
    if ops.len() == 0 {
        seq![]
    } else {
        op_line(ops[0]) + listing(ops.drop_first())
    }
}

/// The instructions decoded from the start of `code`, one after the other,
/// up to the first that does not decode.
pub open spec fn decoded_ops(code: Seq<u8>) -> Seq<Op>
    decreases code.len(),
{
    if code.len() == 0 {
        seq![]
    } else {
        match spec_decode(code) {
            Err(_) => seq![],
            Ok((op, size)) => {
                proof {
                    lemma_encode_decode(code);
                }
                seq![op] + decoded_ops(code.skip(size as int))
            },
        }
    }
}

/// Disassembling encoded instructions gives their listing.
pub proof fn lemma_disassemble_encode_all(ops: Seq<Op>)
    ensures
        spec_disassemble(encode_all(ops)) == Ok::<Seq<char>, DecodeError>(listing(ops)),
        decoded_ops(encode_all(ops)) == ops,
    decreases ops.len(),
{
    if ops.len() > 0 {
        let op = ops[0];
        let rest = encode_all(ops.drop_first());
        lemma_decode_encode(op, rest);
        lemma_encode_len(op);
        lemma_disassemble_encode_all(ops.drop_first());
        let code = encode_all(ops);
        assert(code.skip(op_size(op) as int) == rest);
        assert(seq![op] + ops.drop_first() == ops);
    } else {
        assert(encode_all(ops).len() == 0);
    }
}

/// Code that disassembles is the encoding of the instructions decoded from
/// it, and its disassembly is their listing.
pub proof fn lemma_disassemble_decoded(code: Seq<u8>)
    ensures
        spec_disassemble(code) is Ok ==> {
            &&& code == encode_all(decoded_ops(code))
            &&& spec_disassemble(code) == Ok::<Seq<char>, DecodeError>(listing(decoded_ops(code)))
        },
    decreases code.len(),
{
    if code.len() > 0 {
        if let Ok((op, size)) = spec_decode(code) {
            lemma_encode_decode(code);
            lemma_disassemble_decoded(code.skip(size as int));
            let ops = decoded_ops(code);
            assert(ops.drop_first() == decoded_ops(code.skip(size as int)));
            assert(ops[0] == op);
            assert(code == code.subrange(0, size as int) + code.skip(size as int));
        }
    } else {
        assert(code == encode_all(Seq::<Op>::empty()));
    }
}
} // verus!
