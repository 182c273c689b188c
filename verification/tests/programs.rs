use lib::assembler::{assemble, try_assemble};
use lib::bytecode::{read_program, write_program};
use lib::disassembler::disassemble;
use lib::isa::Op;
use lib::vm::{Effect, Vm, VmError};

fn run_source(source: &str) -> Result<Vec<i64>, VmError> {
    let code = assemble(source).unwrap();
    let code = read_program(&write_program(&code)).unwrap();
    let mut vm = Vm::new();
    vm.rewind();
    let mut printed = Vec::new();
    loop {
        assert!(!vm.step_overflows(&code));
        match vm.step(&code)? {
            Effect::Continue => {}
            Effect::Output(v) => printed.push(v),
            Effect::Halted => return Ok(printed),
        }
    }
}

#[test]
fn program_arithmetic() {
    let out = run_source("PUSH 7\nPUSH 3\nADD\nPUSH 9\nPUSH 4\nSUB\nMUL\nPUSH 5\nDIV\nPRINT\nHALT").unwrap();
    assert_eq!(out, vec![10]);
}

#[test]
fn program_sum_to_100() {
    let source = "\
        PUSH 100
        STORE 0
        PUSH 0
        STORE 1
    loop:
        LOAD 0
        JZ done
        LOAD 1
        LOAD 0
        ADD
        STORE 1
        LOAD 0
        PUSH 1
        SUB
        STORE 0
        JMP loop
    done:
        LOAD 1
        PRINT
        HALT";
    assert_eq!(run_source(source).unwrap(), vec![5050]);
}

#[test]
fn program_recursive_factorial() {
    let source = "\
        PUSH 5
        CALL fact
        PRINT
        HALT
    fact:
        DUP
        PUSH 1
        GT
        JZ base
        DUP
        PUSH 1
        SUB
        CALL fact
        MUL
        RET
    base:
        POP
        PUSH 1
        RET";
    assert_eq!(run_source(source).unwrap(), vec![120]);
}

#[test]
fn program_gcd() {
    let source = "\
        PUSH 56
        STORE 0
        PUSH 98
        STORE 1
    loop:
        LOAD 1
        JZ done
        LOAD 0
        LOAD 1
        MOD
        LOAD 1
        STORE 0
        STORE 1
        JMP loop
    done:
        LOAD 0
        PRINT
        HALT";
    assert_eq!(run_source(source).unwrap(), vec![14]);
}

#[test]
fn ret_without_call_traps() {
    assert_eq!(run_source("RET\nHALT").unwrap_err(), VmError::StackUnderflow(0));
}

#[test]
fn call_ret_encoding() {
    let mut code = Vec::new();
    Op::Call(0x0A0B).encode(&mut code);
    Op::Ret.encode(&mut code);
    assert_eq!(code, vec![0x33, 0x0B, 0x0A, 0x00, 0x00, 0x34]);
    assert_eq!(Op::decode(&code).unwrap(), (Op::Call(0x0A0B), 5));
    assert_eq!(Op::decode(&code[5..]).unwrap(), (Op::Ret, 1));
    assert_eq!(disassemble(&code).unwrap(), "CALL 2571\nRET\n");
}

#[test]
fn trap_messages() {
    assert_eq!(VmError::StackUnderflow(0).message(), "trap at ip=0x0000: stack underflow (POP on empty stack)");
    assert_eq!(VmError::StackOverflow(0x2400).message(), "trap at ip=0x2400: stack overflow (PUSH on full stack)");
    assert_eq!(VmError::DivisionByZero(0x12).message(), "trap at ip=0x0012: division by zero");
    assert_eq!(VmError::ModuloByZero(0x12).message(), "trap at ip=0x0012: modulo by zero");
    assert_eq!(VmError::MissingHalt(0xA).message(), "trap at ip=0x000A: program ended without HALT");
    assert_eq!(VmError::TruncatedInstruction(0x1ABCD).message(), "trap at ip=0x1ABCD: truncated instruction");
    assert_eq!(VmError::InvalidOpcode(0x5, 3).message(), "trap at ip=0x0003: invalid opcode 0x05");
}

#[test]
fn disassembly_reassembles() {
    let mut code = Vec::new();
    for op in [
        Op::Push(-5), Op::Push(i64::MAX), Op::Store(255), Op::Load(0), Op::Jmp(7), Op::Jz(0),
        Op::Jnz(u32::MAX), Op::Call(3), Op::Ret, Op::Neg, Op::Mod, Op::Eq, Op::Halt,
    ] {
        op.encode(&mut code);
    }
    let text = disassemble(&code).unwrap();
    assert_eq!(assemble(&text).unwrap(), code);
    let (_, halted) = try_assemble(&text).unwrap().unwrap();
    assert!(halted);
}

#[test]
fn bom_case_and_comments() {
    let plain = assemble("push 3\nstore 1 ; keep\nx:\njnz x\nhalt").unwrap();
    assert_eq!(assemble("\u{FEFF}\u{FEFF}PUSH 3\nSTORE 1\nX:\nJNZ X\nHALT").unwrap(), plain);
    assert_eq!(assemble("Push 3 ;; a\nStOrE 1;\nX:;\njNz x ; again\nHalt").unwrap(), plain);
    assert_eq!(assemble("pUsH 1\nbad").unwrap_err(), assemble("PUSH 1\nBAD").unwrap_err());
}

#[test]
fn unicode_uppercase_of_source() {
    // U+017F (long s) uppercases to 'S' and U+0131 (dotless i) to 'I'.
    assert_eq!(assemble("pu\u{17F}h 1\npr\u{131}nt\nhalt").unwrap(), assemble("PUSH 1\nPRINT\nHALT").unwrap());
    assert_eq!(
        assemble("caf\u{E9}\nHALT").unwrap_err(),
        "Line 1: unknown instruction 'CAF\u{C9}'"
    );
    assert_eq!(assemble("\u{E9}t\u{E9}:\nJMP \u{C9}T\u{C9}\nHALT").unwrap(), assemble("JMP 0\nHALT").unwrap());
}
