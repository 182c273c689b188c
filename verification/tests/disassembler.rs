use lib::disassembler::disassemble;
use lib::isa::{DecodeError, Op};

#[test]
fn disassemble_empty() {
    let text = disassemble(&[]).unwrap();
    assert_eq!(text, "");
}

#[test]
fn disassemble_instructions() {
    let mut code = Vec::new();
    Op::Push(42).encode(&mut code);
    Op::Pop.encode(&mut code);
    Op::Dup.encode(&mut code);
    Op::Swap.encode(&mut code);
    Op::Add.encode(&mut code);
    Op::Sub.encode(&mut code);
    Op::Mul.encode(&mut code);
    Op::Div.encode(&mut code);
    Op::Mod.encode(&mut code);
    Op::Neg.encode(&mut code);
    Op::Load(0).encode(&mut code);
    Op::Store(1).encode(&mut code);
    Op::Print.encode(&mut code);
    Op::Eq.encode(&mut code);
    Op::Lt.encode(&mut code);
    Op::Gt.encode(&mut code);
    Op::Halt.encode(&mut code);
    let text = disassemble(&code).unwrap();
    let expected = "PUSH 42\nPOP\nDUP\nSWAP\nADD\nSUB\nMUL\nDIV\nMOD\nNEG\nLOAD 0\nSTORE 1\nPRINT\nEQ\nLT\nGT\nHALT\n";
    assert_eq!(text, expected);
}

#[test]
fn disassemble_invalid() {
    assert!(disassemble(&[0x00]).is_err());
    assert!(disassemble(&[0x42]).is_err());
}

#[test]
fn disassemble_jumps_and_numbers() {
    let mut code = Vec::new();
    Op::Push(-9274).encode(&mut code);
    Op::Push(i64::MIN).encode(&mut code);
    Op::Jmp(4294967295).encode(&mut code);
    Op::Jz(61).encode(&mut code);
    Op::Jnz(0).encode(&mut code);
    Op::Load(255).encode(&mut code);
    let text = disassemble(&code).unwrap();
    assert_eq!(
        text,
        "PUSH -9274\nPUSH -9223372036854775808\nJMP 4294967295\nJZ 61\nJNZ 0\nLOAD 255\n"
    );
}

#[test]
fn disassemble_error_after_valid() {
    let mut code = Vec::new();
    Op::Halt.encode(&mut code);
    code.push(0x30);
    code.push(0x01);
    assert_eq!(disassemble(&code).unwrap_err(), DecodeError::TruncatedInstruction);
    assert_eq!(disassemble(&[0xFF, 0x99]).unwrap_err(), DecodeError::InvalidOpcode(0x99));
}
