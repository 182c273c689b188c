use lib::isa::{DecodeError, Op};

#[test]
fn encode_decode_push() {
    let op = Op::Push(42);
    let mut bytes = Vec::new();
    op.encode(&mut bytes);
    let (decoded_op, size) = Op::decode(&bytes).unwrap();
    assert_eq!(decoded_op, op);
    assert_eq!(size, 9);
}

#[test]
fn all_variants_round_trip() {
    let ops = vec![
        Op::Push(0), Op::Push(-1), Op::Push(i64::MAX), Op::Push(i64::MIN),
        Op::Pop, Op::Dup, Op::Swap,
        Op::Add, Op::Sub, Op::Mul, Op::Div, Op::Mod, Op::Neg,
        Op::Load(0), Op::Load(255), Op::Store(0), Op::Store(255),
        Op::Print, Op::Halt, Op::Eq, Op::Lt, Op::Gt,
        Op::Jmp(0), Op::Jmp(u32::MAX), Op::Jz(0), Op::Jz(255), Op::Jnz(0xDEADBEEF),
    ];
    for op in ops {
        let mut bytes = Vec::new();
        op.encode(&mut bytes);
        let (decoded, _) = Op::decode(&bytes).unwrap();
        assert_eq!(decoded, op);
    }
}

#[test]
fn decode_truncated() {
    assert!(matches!(Op::decode(&[]), Err(DecodeError::TruncatedInstruction)));
    assert!(matches!(Op::decode(&[0x01]), Err(DecodeError::TruncatedInstruction)));
    assert!(matches!(Op::decode(&[0x40]), Err(DecodeError::TruncatedInstruction)));
    assert!(matches!(Op::decode(&[0x30]), Err(DecodeError::TruncatedInstruction)));
    assert!(matches!(Op::decode(&[0x31]), Err(DecodeError::TruncatedInstruction)));
    assert!(matches!(Op::decode(&[0x32]), Err(DecodeError::TruncatedInstruction)));
}

#[test]
fn decode_invalid_opcode() {
    assert!(matches!(Op::decode(&[0x00]), Err(DecodeError::InvalidOpcode(0x00))));
    assert!(matches!(Op::decode(&[0x42]), Err(DecodeError::InvalidOpcode(0x42))));
}

#[test]
fn encode_exact_bytes() {
    let mut bytes = Vec::new();
    Op::Push(-2).encode(&mut bytes);
    assert_eq!(bytes, vec![0x01, 0xFE, 0xFF, 0xFF, 0xFF, 0xFF, 0xFF, 0xFF, 0xFF]);
    let mut bytes = Vec::new();
    Op::Jnz(0x0102_0304).encode(&mut bytes);
    assert_eq!(bytes, vec![0x32, 0x04, 0x03, 0x02, 0x01]);
    let mut bytes = vec![0xAA];
    Op::Store(7).encode(&mut bytes);
    Op::Halt.encode(&mut bytes);
    assert_eq!(bytes, vec![0xAA, 0x41, 0x07, 0xFF]);
}

#[test]
fn decode_ignores_trailing_bytes() {
    let (op, size) = Op::decode(&[0x30, 0x10, 0x00, 0x00, 0x00, 0xFF, 0xFF]).unwrap();
    assert_eq!(op, Op::Jmp(16));
    assert_eq!(size, 5);
    let (op, size) = Op::decode(&[0x41, 0x09, 0x01]).unwrap();
    assert_eq!(op, Op::Store(9));
    assert_eq!(size, 2);
    assert!(matches!(Op::decode(&[0x01, 1, 2, 3, 4, 5, 6, 7]), Err(DecodeError::TruncatedInstruction)));
    assert!(matches!(Op::decode(&[0x41]), Err(DecodeError::TruncatedInstruction)));
    assert!(matches!(Op::decode(&[0x32, 0, 0, 0]), Err(DecodeError::TruncatedInstruction)));
}

#[test]
fn decode_push_negative() {
    let (op, size) = Op::decode(&[0x01, 0xFF, 0xFF, 0xFF, 0xFF, 0xFF, 0xFF, 0xFF, 0x7F]).unwrap();
    assert_eq!(op, Op::Push(i64::MAX));
    assert_eq!(size, 9);
    let (op, _) = Op::decode(&[0x01, 0, 0, 0, 0, 0, 0, 0, 0x80]).unwrap();
    assert_eq!(op, Op::Push(i64::MIN));
}
