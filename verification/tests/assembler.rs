use lib::assembler::{assemble, collect_labels, try_assemble};
use lib::disassembler::disassemble;
use lib::isa::Op;

#[test]
fn assemble_push_halt() {
    let source = "PUSH 42\nHALT";
    let bytes = assemble(source).unwrap();

    let mut expected = Vec::new();
    Op::Push(42).encode(&mut expected);
    Op::Halt.encode(&mut expected);

    assert_eq!(bytes, expected);
}

#[test]
fn assemble_all_instructions() {
    let source = "\
        PUSH 10
        POP
        DUP
        SWAP
        ADD
        SUB
        MUL
        DIV
        MOD
        NEG
        LOAD 0
        STORE 1
        PRINT
        EQ
        LT
        GT
        HALT";
    let bytes = assemble(source).unwrap();

    let mut pc = 0;
    let expected = vec![
        Op::Push(10), Op::Pop, Op::Dup, Op::Swap,
        Op::Add, Op::Sub, Op::Mul, Op::Div, Op::Mod, Op::Neg,
        Op::Load(0), Op::Store(1),
        Op::Print, Op::Eq, Op::Lt, Op::Gt, Op::Halt,
    ];
    for op in &expected {
        let (decoded, size) = Op::decode(&bytes[pc..]).unwrap();
        assert_eq!(&decoded, op);
        pc += size;
    }
    assert_eq!(pc, bytes.len());
}

#[test]
fn assemble_comments() {
    let source = "PUSH 1; this is a comment\nHALT";
    let bytes = assemble(source).unwrap();

    let mut expected = Vec::new();
    Op::Push(1).encode(&mut expected);
    Op::Halt.encode(&mut expected);
    assert_eq!(bytes, expected);
}

#[test]
fn assemble_case_insensitivity() {
    let lower = assemble("push 10\nhalt\n").unwrap();
    let upper = assemble("PUSH 10\nHALT\n").unwrap();
    assert_eq!(lower, upper);
}

#[test]
fn assemble_missing_halt() {
    let result = assemble("PUSH 1");
    assert!(result.is_ok());
}

#[test]
fn assemble_invalid_instruction() {
    let result = assemble("FOO\nHALT").unwrap_err();
    assert!(result.contains("unknown instruction"));
    assert!(result.contains("FOO"));
}

#[test]
fn assemble_invalid_operand() {
    let err1 = assemble("PUSH abc\nHALT\n").unwrap_err();
    assert!(err1.contains("invalid number"));

    let err2 = assemble("LOAD xyz\nHALT\n").unwrap_err();
    assert!(err2.contains("invalid number"));
}

#[test]
fn assemble_bom_stripped() {
    let source = "\u{FEFF}PUSH 10\nHALT";
    let bytes = assemble(source).unwrap();
    let expected = assemble("PUSH 10\nHALT").unwrap();
    assert_eq!(bytes, expected);
}

#[test]
fn assemble_jump_labels() {
    let source = "\
            PUSH 100
            STORE 0
        loop:
            LOAD 0
            JZ done
            PUSH 1
            SUB
            STORE 0
            JMP loop
        done:
            PRINT
            HALT";
    let bytes = assemble(source).unwrap();
    let mut pc = 0;
    let (op1, s1) = Op::decode(&bytes[pc..]).unwrap();
    assert_eq!(op1, Op::Push(100));
    pc += s1;
    let (op2, s2) = Op::decode(&bytes[pc..]).unwrap();
    assert_eq!(op2, Op::Store(0));
    pc += s2;
    assert_eq!(pc, 11);
}

#[test]
fn assemble_undefined_label() {
    let err = assemble("JMP nowhere\nHALT").unwrap_err();
    assert!(err.contains("undefined label"));
}

#[test]
fn assemble_label_and_jump_roundtrip() {
    let source = "\
            JMP end
            PUSH 99
            POP
        end:
            PUSH 42
            HALT";
    let bytes = assemble(source).unwrap();
    let text = disassemble(&bytes).unwrap();
    let reassembled = assemble(&text).unwrap();
    assert_eq!(bytes, reassembled);
}

#[test]
fn assemble_label_targets() {
    let source = "\
            PUSH 100
            STORE 0
        loop:
            LOAD 0
            JZ done
            PUSH 1
            SUB
            STORE 0
            JMP loop
        done:
            PRINT
            HALT";
    let bytes = assemble(source).unwrap();
    let expected = vec![
        Op::Push(100), Op::Store(0), Op::Load(0), Op::Jz(35), Op::Push(1), Op::Sub,
        Op::Store(0), Op::Jmp(11), Op::Print, Op::Halt,
    ];
    let mut code = Vec::new();
    for op in &expected {
        op.encode(&mut code);
    }
    assert_eq!(bytes, code);
}

#[test]
fn assemble_error_messages() {
    assert_eq!(assemble("HALT\nfoo 1").unwrap_err(), "Line 2: unknown instruction 'FOO'");
    assert_eq!(assemble("push").unwrap_err(), "Line 1: PUSH requires an operand");
    assert_eq!(assemble("PUSH 1 2").unwrap_err(), "Line 1: PUSH requires an operand");
    assert_eq!(assemble("\n\nload").unwrap_err(), "Line 3: LOAD requires an operand");
    assert_eq!(assemble("store 1 2").unwrap_err(), "Line 1: STORE requires an operand");
    assert_eq!(assemble("PUSH 1x").unwrap_err(), "Line 1: invalid number '1X'");
    assert_eq!(assemble("STORE 256").unwrap_err(), "Line 1: invalid number '256'");
    assert_eq!(assemble("PUSH 9223372036854775808").unwrap_err(), "Line 1: invalid number '9223372036854775808'");
    assert_eq!(assemble("jz away").unwrap_err(), "Line 1: undefined label 'AWAY'");
}

#[test]
fn assemble_number_forms() {
    let bytes = assemble("PUSH -9223372036854775808\nPUSH +7\nLOAD +255\nJMP 4294967295").unwrap();
    let mut code = Vec::new();
    Op::Push(i64::MIN).encode(&mut code);
    Op::Push(7).encode(&mut code);
    Op::Load(255).encode(&mut code);
    Op::Jmp(u32::MAX).encode(&mut code);
    assert_eq!(bytes, code);
    assert!(assemble("LOAD -1").is_err());
    assert!(assemble("PUSH -").is_err());
}

#[test]
fn assemble_whitespace_and_lines() {
    let bytes = assemble("\r\n\t PUSH\t5 \r\n  ; only a comment\n\n halt ;stop\r\n").unwrap();
    let mut code = Vec::new();
    Op::Push(5).encode(&mut code);
    Op::Halt.encode(&mut code);
    assert_eq!(bytes, code);
    assert_eq!(assemble("").unwrap(), Vec::<u8>::new());
}

#[test]
fn assemble_label_redefined_and_numeric() {
    let bytes = assemble("a:\nPOP\na:\nJMP a\nJNZ 3").unwrap();
    let mut code = Vec::new();
    Op::Pop.encode(&mut code);
    Op::Jmp(1).encode(&mut code);
    Op::Jnz(3).encode(&mut code);
    assert_eq!(bytes, code);
}

#[test]
fn try_assemble_reports_halt_and_bare_jump() {
    let (bytes, halted) = try_assemble("PUSH 1\nHALT").unwrap().unwrap();
    assert!(halted);
    assert_eq!(bytes.len(), 10);
    let (_, halted) = try_assemble("PUSH 1").unwrap().unwrap();
    assert!(!halted);
    let (bytes, halted) = try_assemble("HALT\nPUSH 1").unwrap().unwrap();
    assert!(!halted);
    assert_eq!(bytes, vec![0xFF, 0x01, 1, 0, 0, 0, 0, 0, 0, 0]);
    let (_, halted) = try_assemble("HALT\nstop:\n; done").unwrap().unwrap();
    assert!(halted);
    assert!(try_assemble("PUSH 1\nJMP").is_none());
    assert_eq!(try_assemble("FOO\nJMP").unwrap().unwrap_err(), "Line 1: unknown instruction 'FOO'");
}

#[test]
fn collect_labels_offsets() {
    let table = collect_labels("start:\n PUSH 1 ; x\n end:: \nJZ start\nLOAD 2\nloop:\nHALT\nback:");
    let names: Vec<String> = table.iter().map(|(n, _)| n.iter().collect()).collect();
    let offsets: Vec<usize> = table.iter().map(|(_, o)| *o).collect();
    assert_eq!(names, vec!["START", "END", "LOOP", "BACK"]);
    assert_eq!(offsets, vec![0, 9, 16, 17]);
}
