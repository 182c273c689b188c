use lib::basic_isa::{DecodeError, Op};

#[test]
fn basic_encode_bytes() {
    let mut bytes = Vec::new();
    Op::Push(1).encode(&mut bytes);
    Op::Load(3).encode(&mut bytes);
    Op::Store(4).encode(&mut bytes);
    Op::Neg.encode(&mut bytes);
    Op::Halt.encode(&mut bytes);
    assert_eq!(bytes, vec![0x01, 1, 0, 0, 0, 0, 0, 0, 0, 0x40, 3, 0x41, 4, 0x15, 0xFF]);
}

#[test]
fn basic_decode_round_trip() {
    let ops = vec![
        Op::Pop, Op::Dup, Op::Swap, Op::Add, Op::Sub, Op::Mul, Op::Div, Op::Mod, Op::Neg,
        Op::Print, Op::Halt,
    ];
    for op in ops {
        let mut bytes = Vec::new();
        op.encode(&mut bytes);
        bytes.push(0x00);
        assert_eq!(Op::decode(&bytes).unwrap(), (op, 1));
    }
}

#[test]
fn basic_decode_empty() {
    assert!(matches!(Op::decode(&[]), Err(DecodeError::TruncatedInstruction)));
}
