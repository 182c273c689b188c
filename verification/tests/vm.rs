use lib::isa::Op;
use lib::vm::{Effect, Vm, VmError};

fn run(vm: &mut Vm, code: &[u8]) -> Result<Vec<i64>, VmError> {
    vm.rewind();
    let mut printed = Vec::new();
    loop {
        assert!(!vm.step_overflows(code), "arithmetic overflow");
        match vm.step(code)? {
            Effect::Continue => {}
            Effect::Output(v) => printed.push(v),
            Effect::Halted => return Ok(printed),
        }
    }
}

fn run_ops(ops: &[Op]) -> Result<Vec<i64>, VmError> {
    let mut code = Vec::new();
    for op in ops {
        op.encode(&mut code);
    }
    let mut vm = Vm::new();
    run(&mut vm, &code)?;
    Ok(vm.stack().to_vec())
}

#[test]
fn test_push_pop() {
    let mut vm = Vm::new();
    vm.push(42, 0).unwrap();
    assert_eq!(vm.pop(0).unwrap(), 42);
}

#[test]
fn add() {
    let stack = run_ops(&[Op::Push(2), Op::Push(3), Op::Add, Op::Halt]).unwrap();
    assert_eq!(stack, vec![5]);
}

#[test]
fn sub() {
    let stack = run_ops(&[Op::Push(5), Op::Push(3), Op::Sub, Op::Halt]).unwrap();
    assert_eq!(stack, vec![2]);
}

#[test]
fn mul() {
    let stack = run_ops(&[Op::Push(5), Op::Push(3), Op::Mul, Op::Halt]).unwrap();
    assert_eq!(stack, vec![15]);
}

#[test]
fn div() {
    let stack = run_ops(&[Op::Push(6), Op::Push(3), Op::Div, Op::Halt]).unwrap();
    assert_eq!(stack, vec![2]);
}

#[test]
fn mod_neg() {
    let stack = run_ops(&[Op::Push(20), Op::Push(14), Op::Mod, Op::Neg, Op::Halt]).unwrap();
    assert_eq!(stack, vec![-6]);
}

#[test]
fn dup() {
    let stack = run_ops(&[Op::Push(5), Op::Dup, Op::Halt]).unwrap();
    assert_eq!(stack, vec![5, 5]);
}

#[test]
fn swap() {
    let stack = run_ops(&[Op::Push(3), Op::Push(5), Op::Swap, Op::Halt]).unwrap();
    assert_eq!(stack, vec![5, 3]);
}

#[test]
fn globals() {
    let stack = run_ops(&[Op::Push(42), Op::Store(0), Op::Load(0), Op::Halt]).unwrap();
    assert_eq!(stack, vec![42]);
}

#[test]
fn stack_underflow() {
    let mut code = Vec::new();
    Op::Pop.encode(&mut code);
    Op::Halt.encode(&mut code);
    let mut vm = Vm::new();
    let err = run(&mut vm, &code).unwrap_err();
    assert!(matches!(err, VmError::StackUnderflow(0)));
}

#[test]
fn stack_overflow() {
    let mut code = Vec::new();
    for _ in 0..1025 {
        Op::Push(1).encode(&mut code);
    }
    Op::Halt.encode(&mut code);
    let mut vm = Vm::new();
    let err = run(&mut vm, &code).unwrap_err();
    assert!(matches!(err, VmError::StackOverflow(9216)));
}

#[test]
fn div_by_zero() {
    let stack = run_ops(&[Op::Push(10), Op::Push(0), Op::Div, Op::Halt]);
    assert!(matches!(stack, Err(VmError::DivisionByZero(18))));
}

#[test]
fn mod_by_zero() {
    let stack = run_ops(&[Op::Push(10), Op::Push(0), Op::Mod, Op::Halt]);
    assert!(matches!(stack, Err(VmError::ModuloByZero(18))));
}

#[test]
fn missing_halt() {
    let mut code = Vec::new();
    Op::Push(42).encode(&mut code);
    let mut vm = Vm::new();
    let err = run(&mut vm, &code).unwrap_err();
    assert!(matches!(err, VmError::MissingHalt(9)));
}

#[test]
fn invalid_opcode() {
    let mut vm = Vm::new();
    let err = run(&mut vm, &[0x00]).unwrap_err();
    assert!(matches!(err, VmError::InvalidOpcode(0x00, 0)));
}

#[test]
fn eq_true() {
    let stack = run_ops(&[Op::Push(5), Op::Push(5), Op::Eq, Op::Halt]).unwrap();
    assert_eq!(stack, vec![1]);
}

#[test]
fn eq_false() {
    let stack = run_ops(&[Op::Push(5), Op::Push(3), Op::Eq, Op::Halt]).unwrap();
    assert_eq!(stack, vec![0]);
}

#[test]
fn lt_true() {
    let stack = run_ops(&[Op::Push(3), Op::Push(5), Op::Lt, Op::Halt]).unwrap();
    assert_eq!(stack, vec![1]);
}

#[test]
fn lt_false() {
    let stack = run_ops(&[Op::Push(5), Op::Push(3), Op::Lt, Op::Halt]).unwrap();
    assert_eq!(stack, vec![0]);
}

#[test]
fn gt_true() {
    let stack = run_ops(&[Op::Push(5), Op::Push(3), Op::Gt, Op::Halt]).unwrap();
    assert_eq!(stack, vec![1]);
}

#[test]
fn gt_false() {
    let stack = run_ops(&[Op::Push(3), Op::Push(5), Op::Gt, Op::Halt]).unwrap();
    assert_eq!(stack, vec![0]);
}

#[test]
fn jmp() {
    let stack = run_ops(&[Op::Push(10), Op::Jmp(23), Op::Push(99), Op::Push(20), Op::Halt]).unwrap();
    assert_eq!(stack, vec![10, 20]);
}

#[test]
fn jz_taken() {
    let stack = run_ops(&[Op::Push(0), Op::Jz(23), Op::Push(99), Op::Push(20), Op::Halt]).unwrap();
    assert_eq!(stack, vec![20]);
}

#[test]
fn jz_not_taken() {
    let stack = run_ops(&[Op::Push(1), Op::Jz(23), Op::Push(99), Op::Halt]).unwrap();
    assert_eq!(stack, vec![99]);
}

#[test]
fn jnz_taken() {
    let stack = run_ops(&[Op::Push(1), Op::Jnz(23), Op::Push(99), Op::Push(20), Op::Halt]).unwrap();
    assert_eq!(stack, vec![20]);
}

#[test]
fn jnz_not_taken() {
    let stack = run_ops(&[Op::Push(0), Op::Jnz(23), Op::Push(99), Op::Halt]).unwrap();
    assert_eq!(stack, vec![99]);
}

#[test]
fn truncating_division_and_remainder() {
    assert_eq!(run_ops(&[Op::Push(-7), Op::Push(2), Op::Div, Op::Halt]).unwrap(), vec![-3]);
    assert_eq!(run_ops(&[Op::Push(-7), Op::Push(2), Op::Mod, Op::Halt]).unwrap(), vec![-1]);
    assert_eq!(run_ops(&[Op::Push(7), Op::Push(-2), Op::Mod, Op::Halt]).unwrap(), vec![1]);
    assert_eq!(run_ops(&[Op::Push(7), Op::Push(-2), Op::Div, Op::Halt]).unwrap(), vec![-3]);
}

#[test]
fn print_outputs_and_traps_keep_state() {
    let mut code = Vec::new();
    for op in [Op::Push(7), Op::Print, Op::Push(1), Op::Push(2), Op::Print, Op::Print, Op::Halt] {
        op.encode(&mut code);
    }
    let mut vm = Vm::new();
    assert_eq!(run(&mut vm, &code).unwrap(), vec![7, 2, 1]);
    let mut code = Vec::new();
    for op in [Op::Push(5), Op::Add, Op::Halt] {
        op.encode(&mut code);
    }
    let mut vm = Vm::new();
    assert_eq!(run(&mut vm, &code).unwrap_err(), VmError::StackUnderflow(9));
    assert!(vm.stack().is_empty());
    assert_eq!(vm.ip(), 10);
}

#[test]
fn truncated_and_overflow_checks() {
    let mut vm = Vm::new();
    assert_eq!(run(&mut vm, &[0x01, 0x00]).unwrap_err(), VmError::TruncatedInstruction(0));
    let mut code = Vec::new();
    for op in [Op::Push(i64::MAX), Op::Push(1), Op::Add] {
        op.encode(&mut code);
    }
    let mut vm = Vm::new();
    vm.step(&code).unwrap();
    vm.step(&code).unwrap();
    assert!(vm.step_overflows(&code));
    let mut code = Vec::new();
    for op in [Op::Push(i64::MIN), Op::Push(-1), Op::Div] {
        op.encode(&mut code);
    }
    let mut vm = Vm::new();
    vm.step(&code).unwrap();
    assert!(!vm.step_overflows(&code));
    vm.step(&code).unwrap();
    assert!(vm.step_overflows(&code));
}

#[test]
fn fetch_and_globals() {
    let mut code = Vec::new();
    for op in [Op::Push(3), Op::Store(200), Op::Halt] {
        op.encode(&mut code);
    }
    let mut vm = Vm::new();
    assert_eq!(vm.fetch(&code).unwrap(), (Op::Push(3), 9));
    run(&mut vm, &code).unwrap();
    assert_eq!(vm.global(200), 3);
    assert_eq!(vm.global(0), 0);
    assert_eq!(vm.ip(), 12);
    assert!(matches!(vm.fetch(&code), Err(VmError::MissingHalt(12))));
}
