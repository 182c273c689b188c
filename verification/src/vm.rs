//! The stack machine: its state, and one step of execution as a function
//! from state and code to next state and effect.
use vstd::prelude::*;
use crate::isa::{
    Op, DecodeError, spec_decode, spec_encode, encode_all, op_size, lemma_decode_encode, lemma_encode_len,
    lemma_encode_all_push,
};
use crate::text::{hex, zero_padded, push_padded_hex};

verus! {

/// The most values the operand stack holds.
pub const STACK_LIMIT: usize = 1024;

/// The number of global slots.
pub const NUM_GLOBALS: usize = 256;

/// A trap, with the address of the instruction that raised it.
#[derive(Debug, Clone, Copy, PartialEq, Eq, Structural)]
pub enum VmError {
    StackUnderflow(usize),
    StackOverflow(usize),
    DivisionByZero(usize),
    ModuloByZero(usize),
    MissingHalt(usize),
    InvalidOpcode(u8, usize),
    TruncatedInstruction(usize),
}

/// What an executed instruction asks of its surroundings.
#[derive(Debug, Clone, Copy, PartialEq, Eq, Structural)]
pub enum Effect {
    /// Nothing: go on with the next instruction.
    Continue,
    /// Print this value on a line of its own.
    Output(i64),
    /// The program has halted.
    Halted,
}

/// The machine.
pub struct Vm {
    stack: Vec<i64>,
    globals: Vec<i64>,
    ret_stack: Vec<usize>,
    ip: usize,
}

/// The state of a machine as mathematical values.
pub struct VmState {
    pub stack: Seq<i64>,
    pub globals: Seq<i64>,
    /// The return stack: the addresses `CALL` pushed, most recent last.
    pub ret_stack: Seq<usize>,
    pub ip: int,
}

impl VmState {
    /// The stack holds at most `STACK_LIMIT` values and there are
    /// `NUM_GLOBALS` globals.
    pub open spec fn wf(self) -> bool {
        &&& self.stack.len() <= STACK_LIMIT
        &&& self.globals.len() == NUM_GLOBALS
    }

    /// The state with another stack.
    pub open spec fn with_stack(self, stack: Seq<i64>) -> VmState {
        VmState { stack, ..self }
    }

    /// The state with another `ip`.
    pub open spec fn with_ip(self, ip: int) -> VmState {
        VmState { ip, ..self }
    }

    /// The state with another return stack.
    pub open spec fn with_ret_stack(self, ret_stack: Seq<usize>) -> VmState {
        VmState { ret_stack, ..self }
    }

    /// The value on top of the stack.
    pub open spec fn top(self) -> i64 {
        self.stack.last()
    }

    /// The state with the top value removed.
    pub open spec fn popped(self) -> VmState {
        self.with_stack(self.stack.drop_last())
    }
}

/// Absolute value.
pub open spec fn abs(a: int) -> int {
    if a < 0 { -a } else { a }
}

/// Division rounding toward zero, as Rust's `/` on integers.
pub open spec fn quotient(a: int, b: int) -> int {
    let q = abs(a) / abs(b);
    if (a < 0) == (b < 0) { q } else { -q }
}

/// The remainder of `quotient`, with the sign of the dividend, as Rust's `%`.
pub open spec fn remainder(a: int, b: int) -> int {
    let r = abs(a) % abs(b);
    if a < 0 { -r } else { r }
}

/// Whether an integer fits an `i64`.
pub open spec fn in_i64(x: int) -> bool {
    i64::MIN <= x <= i64::MAX
}

/// Pushing a value: a trap when the stack is full.
pub open spec fn spec_push(s: VmState, value: i64, at: usize) -> (VmState, Result<(), VmError>) {
    if s.stack.len() >= STACK_LIMIT {
        (s, Err(VmError::StackOverflow(at)))
    } else {
        (s.with_stack(s.stack.push(value)), Ok(()))
    }
}

/// Popping a value: a trap when the stack is empty.
pub open spec fn spec_pop(s: VmState, at: usize) -> (VmState, Result<i64, VmError>) {
    if s.stack.len() == 0 {
        (s, Err(VmError::StackUnderflow(at)))
    } else {
        (s.popped(), Ok(s.top()))
    }
}

/// The instructions that pop `b`, then `a`, and push a value computed from them.
pub open spec fn is_binary(op: Op) -> bool {
    match op {
        Op::Add | Op::Sub | Op::Mul | Op::Div | Op::Mod | Op::Eq | Op::Lt | Op::Gt => true,
        _ => false,
    }
}

/// The value a binary instruction pushes for operands `a` (deeper) and `b` (top).
pub open spec fn binary_value(op: Op, a: i64, b: i64) -> int {
    match op {
        Op::Add => a + b,
        Op::Sub => a - b,
        Op::Mul => a * b,
        Op::Div => quotient(a as int, b as int),
        Op::Mod => remainder(a as int, b as int),
        Op::Eq => if a == b { 1 } else { 0 },
        Op::Lt => if a < b { 1 } else { 0 },
        _ => if a > b { 1 } else { 0 },
    }
}

/// Whether computing an instruction's value overflows `i64`: this is no trap
/// of the machine, and `step` is not called on such a state.
pub open spec fn arith_overflows(op: Op, s: VmState) -> bool {
    if is_binary(op) && s.stack.len() >= 2 {
        let b = s.stack.last();
        let a = s.stack.drop_last().last();
        match op {
            Op::Div | Op::Mod => b != 0 && a == i64::MIN && b == -1,
            _ => !in_i64(binary_value(op, a, b)),
        }
    } else if op == Op::Neg && s.stack.len() >= 1 {
        s.top() == i64::MIN
    } else {
        false
    }
}

/// Executing one decoded instruction, in the state whose `ip` already points
/// past it; `at` is the instruction's own address, reported by traps.
pub open spec fn spec_execute(s: VmState, op: Op, at: usize) -> (VmState, Result<Effect, VmError>) {
    let n = s.stack.len();
    match op {
        Op::Push(v) => {
            let (t, r) = spec_push(s, v, at);
            (t, match r { Ok(_) => Ok(Effect::Continue), Err(e) => Err(e) })
        },
        Op::Load(slot) => {
            let (t, r) = spec_push(s, s.globals[slot as int], at);
            (t, match r { Ok(_) => Ok(Effect::Continue), Err(e) => Err(e) })
        },
        Op::Dup => {
            if n == 0 {
                (s, Err(VmError::StackUnderflow(at)))
            } else {
                let (t, r) = spec_push(s, s.top(), at);
                (t, match r { Ok(_) => Ok(Effect::Continue), Err(e) => Err(e) })
            }
        },
        Op::Halt => (s, Ok(Effect::Halted)),
        Op::Jmp(addr) => (s.with_ip(addr as int), Ok(Effect::Continue)),
        Op::Call(addr) => (
            s.with_ret_stack(s.ret_stack.push(s.ip as usize)).with_ip(addr as int),
            Ok(Effect::Continue),
        ),
        Op::Ret => {
            if s.ret_stack.len() == 0 {
                (s, Err(VmError::StackUnderflow(at)))
            } else {
                (s.with_ret_stack(s.ret_stack.drop_last()).with_ip(s.ret_stack.last() as int), Ok(Effect::Continue))
            }
        },
        _ => {
            if n == 0 {
                (s, Err(VmError::StackUnderflow(at)))
            } else {
                let v = s.top();
                let t = s.popped();
                match op {
                    Op::Pop => (t, Ok(Effect::Continue)),
                    Op::Neg => (t.with_stack(t.stack.push((-v) as i64)), Ok(Effect::Continue)),
                    Op::Print => (t, Ok(Effect::Output(v))),
                    Op::Store(slot) => (
                        VmState { globals: t.globals.update(slot as int, v), ..t },
                        Ok(Effect::Continue),
                    ),
                    Op::Jz(addr) => (if v == 0 { t.with_ip(addr as int) } else { t }, Ok(Effect::Continue)),
                    Op::Jnz(addr) => (if v != 0 { t.with_ip(addr as int) } else { t }, Ok(Effect::Continue)),
                    Op::Swap => {
                        if n == 1 {
                            (t, Err(VmError::StackUnderflow(at)))
                        } else {
                            let a = t.top();
                            let u = t.popped();
                            (u.with_stack(u.stack.push(v).push(a)), Ok(Effect::Continue))
                        }
                    },
                    _ => {
                        // the binary instructions: `v` is `b`, the next value is `a`
                        if n == 1 {
                            (t, Err(VmError::StackUnderflow(at)))
                        } else {
                            let a = t.top();
                            let u = t.popped();
                            if op == Op::Div && v == 0 {
                                (u, Err(VmError::DivisionByZero(at)))
                            } else if op == Op::Mod && v == 0 {
                                (u, Err(VmError::ModuloByZero(at)))
                            } else {
                                (u.with_stack(u.stack.push(binary_value(op, a, v) as i64)), Ok(Effect::Continue))
                            }
                        }
                    },
                }
            }
        },
    }
}

/// Fetching the instruction at `ip`: a trap when `ip` is past the end of the
/// code (the program ended without `HALT`) or the bytes there do not decode.
pub open spec fn spec_fetch(s: VmState, code: Seq<u8>) -> Result<(Op, usize), VmError> {
    if s.ip >= code.len() {
        Err(VmError::MissingHalt(s.ip as usize))
    } else {
        match spec_decode(code.skip(s.ip)) {
            Ok((op, size)) => Ok((op, size)),
            Err(DecodeError::InvalidOpcode(c)) => Err(VmError::InvalidOpcode(c, s.ip as usize)),
            Err(DecodeError::TruncatedInstruction) => Err(VmError::TruncatedInstruction(s.ip as usize)),
        }
    }
}

/// One step: fetch the instruction at `ip`, move `ip` past it, execute it.
pub open spec fn spec_step(s: VmState, code: Seq<u8>) -> (VmState, Result<Effect, VmError>) {
    match spec_fetch(s, code) {
        Err(e) => (s, Err(e)),
        Ok((op, size)) => spec_execute(s.with_ip(s.ip + size), op, s.ip as usize),
    }
}

/// Whether the next step would overflow `i64` arithmetic.
pub open spec fn spec_step_overflows(s: VmState, code: Seq<u8>) -> bool {
    match spec_fetch(s, code) {
        Ok((op, _)) => arith_overflows(op, s),
        Err(_) => false,
    }
}

impl View for Vm {
    type V = VmState;

    closed spec fn view(&self) -> VmState {
        VmState { stack: self.stack@, globals: self.globals@, ret_stack: self.ret_stack@, ip: self.ip as int }
    }
}

impl Vm {
    /// A machine with an empty stack, all globals zero and `ip` at 0.
    pub fn new() -> (vm: Vm)
        ensures
            vm@.wf(),
            vm@.stack == Seq::<i64>::empty(),
            vm@.globals == Seq::new(NUM_GLOBALS as nat, |i: int| 0i64),
            vm@.ret_stack == Seq::<usize>::empty(),
            vm@.ip == 0,
    {
        let vm = Vm { stack: Vec::new(), globals: vec![0i64; NUM_GLOBALS], ret_stack: Vec::new(), ip: 0 };
        assert(vm@.globals == Seq::new(NUM_GLOBALS as nat, |i: int| 0i64));
        vm
    }
}


impl Vm {
    /// Pushes a value; a trap (reported at `ip`) when the stack is full.
    pub fn push(&mut self, value: i64, ip: usize) -> (res: Result<(), VmError>)
        requires
            old(self)@.wf(),
        ensures
            final(self)@.wf(),
            (final(self)@, res) == spec_push(old(self)@, value, ip),
    {
        if self.stack.len() >= STACK_LIMIT {
            return Err(VmError::StackOverflow(ip));
        }
        self.stack.push(value);
        Ok(())
    }

    /// Pops the top value; a trap (reported at `ip`) when the stack is empty.
    pub fn pop(&mut self, ip: usize) -> (res: Result<i64, VmError>)
        requires
            old(self)@.wf(),
        ensures
            final(self)@.wf(),
            (final(self)@, res) == spec_pop(old(self)@, ip),
    {
        match self.stack.pop() {
            Some(v) => Ok(v),
            None => Err(VmError::StackUnderflow(ip)),
        }
    }

    /// The address of the next instruction.
    pub fn ip(&self) -> (ip: usize)
        ensures
            ip == self@.ip,
    {
        self.ip
    }

    /// The operand stack, bottom first.
    pub fn stack(&self) -> (s: &[i64])
        ensures
            s@ == self@.stack,
    {
        self.stack.as_slice()
    }

    /// The value of a global slot.
    pub fn global(&self, slot: u8) -> (v: i64)
        requires
            self@.wf(),
        ensures
            v == self@.globals[slot as int],
    {
        self.globals[slot as usize]
    }

    /// Moves `ip` back to the start of the code; stack and globals are kept.
    pub fn rewind(&mut self)
        ensures
            final(self)@ == old(self)@.with_ip(0),
    {
        self.ip = 0;
    }

    /// The instruction at `ip`, with its size, or the trap that fetching it
    /// raises.
    pub fn fetch(&self, code: &[u8]) -> (res: Result<(Op, usize), VmError>)
        ensures
            res == spec_fetch(self@, code@),
    {
        if self.ip >= code.len() {
            return Err(VmError::MissingHalt(self.ip));
        }
        let rest = &code[self.ip..code.len()];
        assert(rest@ == code@.skip(self.ip as int));
        match Op::decode(rest) {
            Ok((op, size)) => Ok((op, size)),
            Err(DecodeError::InvalidOpcode(c)) => Err(VmError::InvalidOpcode(c, self.ip)),
            Err(DecodeError::TruncatedInstruction) => Err(VmError::TruncatedInstruction(self.ip)),
        }
    }

    /// Whether the next step would overflow `i64` arithmetic.
    pub fn step_overflows(&self, code: &[u8]) -> (res: bool)
        requires
            self@.wf(),
        ensures
            res == spec_step_overflows(self@, code@),
    {
        match self.fetch(code) {
            Err(_) => false,
            Ok((op, _)) => {
                let n = self.stack.len();
                match op {
                    Op::Add | Op::Sub | Op::Mul | Op::Div | Op::Mod | Op::Eq | Op::Lt | Op::Gt => {
                        if n < 2 {
                            false
                        } else {
                            let b = self.stack[n - 1];
                            let a = self.stack[n - 2];
                            assert(self@.stack.drop_last().last() == a);
                            match op {
                                Op::Add => a.checked_add(b).is_none(),
                                Op::Sub => a.checked_sub(b).is_none(),
                                Op::Mul => a.checked_mul(b).is_none(),
                                Op::Div | Op::Mod => b != 0 && a == i64::MIN && b == -1,
                                _ => false,
                            }
                        }
                    },
                    Op::Neg => n >= 1 && self.stack[n - 1] == i64::MIN,
                    _ => false,
                }
            },
        }
    }

    /// Executes one instruction: fetches it at `ip`, moves `ip` past it and
    /// carries it out. A trap leaves the state as far as the instruction got.
    pub fn step(&mut self, code: &[u8]) -> (res: Result<Effect, VmError>)
        requires
            old(self)@.wf(),
            !spec_step_overflows(old(self)@, code@),
        ensures
            final(self)@.wf(),
            (final(self)@, res) == spec_step(old(self)@, code@),
    {
        let at = self.ip;
        let (op, size) = match self.fetch(code) {
            Ok(x) => x,
            Err(e) => return Err(e),
        };
        proof {
            crate::isa::lemma_encode_decode(code@.skip(at as int));
            assert(size <= code@.len() - at);
        }
        assert(at + size <= code.len());
        self.ip = at + size;
        self.execute(op, at)
    }

    fn execute(&mut self, op: Op, at: usize) -> (res: Result<Effect, VmError>)
        requires
            old(self)@.wf(),
            !arith_overflows(op, old(self)@),
        ensures
            final(self)@.wf(),
            (final(self)@, res) == spec_execute(old(self)@, op, at),
    {
        let ghost s = self@;
        match op {
            Op::Push(n) => {
                self.push(n, at)?;
                Ok(Effect::Continue)
            },
            Op::Load(slot) => {
                let v = self.globals[slot as usize];
                self.push(v, at)?;
                Ok(Effect::Continue)
            },
            Op::Dup => {
                let n = self.stack.len();
                if n == 0 {
                    return Err(VmError::StackUnderflow(at));
                }
                let m = self.stack[n - 1];
                self.push(m, at)?;
                Ok(Effect::Continue)
            },
            Op::Halt => Ok(Effect::Halted),
            Op::Jmp(addr) => {
                self.ip = addr as usize;
                Ok(Effect::Continue)
            },
            Op::Call(addr) => {
                self.ret_stack.push(self.ip);
                self.ip = addr as usize;
                Ok(Effect::Continue)
            },
            Op::Ret => {
                match self.ret_stack.pop() {
                    Some(back) => {
                        self.ip = back;
                        Ok(Effect::Continue)
                    },
                    None => Err(VmError::StackUnderflow(at)),
                }
            },
            Op::Pop => {
                self.pop(at)?;
                Ok(Effect::Continue)
            },
            Op::Neg => {
                let a = self.pop(at)?;
                self.stack.push(-a);
                Ok(Effect::Continue)
            },
            Op::Print => {
                let v = self.pop(at)?;
                Ok(Effect::Output(v))
            },
            Op::Store(slot) => {
                let v = self.pop(at)?;
                self.globals.set(slot as usize, v);
                Ok(Effect::Continue)
            },
            Op::Jz(addr) => {
                let v = self.pop(at)?;
                if v == 0 {
                    self.ip = addr as usize;
                }
                Ok(Effect::Continue)
            },
            Op::Jnz(addr) => {
                let v = self.pop(at)?;
                if v != 0 {
                    self.ip = addr as usize;
                }
                Ok(Effect::Continue)
            },
            Op::Swap => {
                let b = self.pop(at)?;
                let a = self.pop(at)?;
                self.stack.push(b);
                self.stack.push(a);
                Ok(Effect::Continue)
            },
            _ => {
                let b = self.pop(at)?;
                let a = self.pop(at)?;
                assert(b == s.stack.last() && a == s.stack.drop_last().last());
                if op == Op::Div && b == 0 {
                    return Err(VmError::DivisionByZero(at));
                }
                if op == Op::Mod && b == 0 {
                    return Err(VmError::ModuloByZero(at));
                }
                let c = apply_binary(op, a, b);
                assert(c == binary_value(op, a, b) as i64);
                self.stack.push(c);
                Ok(Effect::Continue)
            },
        }
    }
}


/// The value a binary instruction pushes.
fn apply_binary(op: Op, a: i64, b: i64) -> (c: i64)
    requires
        is_binary(op),
        (op == Op::Div || op == Op::Mod) ==> b != 0 && !(a == i64::MIN && b == -1),
        !(op == Op::Div || op == Op::Mod) ==> in_i64(binary_value(op, a, b)),
    ensures
        c == binary_value(op, a, b),
{
    match op {
        Op::Add => a + b,
        Op::Sub => a - b,
        Op::Mul => a * b,
        Op::Div => {
            proof {
                lemma_checked_div(a, b);
            }
            match a.checked_div(b) {
                Some(q) => q,
                None => 0,
            }
        },
        Op::Mod => {
            proof {
                lemma_checked_rem(a, b);
            }
            match a.checked_rem(b) {
                Some(r) => r,
                None => 0,
            }
        },
        Op::Eq => if a == b { 1 } else { 0 },
        Op::Lt => if a < b { 1 } else { 0 },
        _ => if a > b { 1 } else { 0 },
    }
}

/// Rust's `i64::checked_div` gives `quotient` when it is in range.
proof fn lemma_checked_div(a: i64, b: i64)
    requires
        b != 0,
        !(a == i64::MIN && b == -1),
    ensures
        in_i64(quotient(a as int, b as int)),
        a.checked_div(b) == Some(quotient(a as int, b as int) as i64),
{
    lemma_quotient_bounds(a as int, b as int);
    let x = a as int;
    let d = b as int;
    let ax = abs(x);
    let ad = abs(d);
    let q = ax / ad;
    if ad == 1 {
        assert(ax / 1 == ax) by (nonlinear_arith);
    } else {
        assert(q <= ax / 2) by (nonlinear_arith)
            requires
                q == ax / ad,
                ad >= 2,
                ax >= 0,
        ;
    }
    if x == 0 {
        assert(0int / ad == 0) by (nonlinear_arith)
            requires
                ad >= 1,
        ;
    } else if x > 0 && d > 0 {
        assert(ax == x && ad == d);
    } else if x < 0 && d < 0 {
        assert(x * -1 == ax && d * -1 == ad);
    } else if x < 0 {
        assert(x * -1 == ax && d == ad);
    } else {
        assert(x == ax && d * -1 == ad);
    }
}

/// Rust's `i64::checked_rem` gives `remainder`.
proof fn lemma_checked_rem(a: i64, b: i64)
    requires
        b != 0,
        !(a == i64::MIN && b == -1),
    ensures
        in_i64(remainder(a as int, b as int)),
        a.checked_rem(b) == Some(remainder(a as int, b as int) as i64),
{
    lemma_quotient_bounds(a as int, b as int);
    let x = a as int;
    let d = b as int;
    let ax = abs(x);
    let ad = abs(d);
    if x == 0 {
        assert(0int % ad == 0) by (nonlinear_arith)
            requires
                ad >= 1,
        ;
    } else if x > 0 && d > 0 {
        assert(ax == x && ad == d);
    } else if x < 0 && d < 0 {
        assert(x * -1 == ax && d * -1 == ad);
    } else if x < 0 {
        assert(x * -1 == ax && d == ad);
    } else {
        assert(x == ax && d * -1 == ad);
    }
}

proof fn lemma_quotient_bounds(a: int, b: int)
    requires
        b != 0,
    ensures
        abs(a) / abs(b) <= abs(a),
        0 <= abs(a) / abs(b),
        0 <= abs(a) % abs(b) < abs(b),
{
    let x = abs(a);
    let y = abs(b);
    assert(x / y <= x && 0 <= x / y) by (nonlinear_arith)
        requires
            x >= 0,
            y >= 1,
    ;
    assert(0 <= x % y < y) by (nonlinear_arith)
        requires
            x >= 0,
            y >= 1,
    ;
}


/// The address a trap reports.
pub open spec fn trap_address(e: VmError) -> usize {
    match e {
        VmError::StackUnderflow(ip) => ip,
        VmError::StackOverflow(ip) => ip,
        VmError::DivisionByZero(ip) => ip,
        VmError::ModuloByZero(ip) => ip,
        VmError::MissingHalt(ip) => ip,
        VmError::InvalidOpcode(_, ip) => ip,
        VmError::TruncatedInstruction(ip) => ip,
    }
}

/// Pushing a value onto a stack that is not full and popping gives the value
/// back and leaves the machine as it was.
pub proof fn lemma_push_pop(s: VmState, value: i64, at: usize)
    requires
        s.wf(),
        s.stack.len() < STACK_LIMIT,
    ensures
        spec_push(s, value, at).1 is Ok,
        spec_pop(spec_push(s, value, at).0, at) == (s, Ok::<i64, VmError>(value)),
{
    assert(s.stack.push(value).drop_last() == s.stack);
}

/// Every step keeps the stack within `STACK_LIMIT` values and the globals at
/// `NUM_GLOBALS` slots, and a trap reports the address of the instruction
/// that raised it.
pub proof fn lemma_step_invariants(s: VmState, code: Seq<u8>)
    requires
        s.wf(),
        0 <= s.ip <= usize::MAX,
    ensures
        spec_step(s, code).0.wf(),
        spec_step(s, code).1 matches Err(e) ==> trap_address(e) == s.ip,
{
}

/// The text a trap is reported with: its address as four or more hex
/// digits, then what went wrong.
pub open spec fn trap_text(e: VmError) -> Seq<char> {
    let head = "trap at ip=0x"@ + zero_padded(hex(trap_address(e) as nat), 4);
    match e {
        VmError::StackUnderflow(_) => head + ": stack underflow (POP on empty stack)"@,
        VmError::StackOverflow(_) => head + ": stack overflow (PUSH on full stack)"@,
        VmError::DivisionByZero(_) => head + ": division by zero"@,
        VmError::ModuloByZero(_) => head + ": modulo by zero"@,
        VmError::MissingHalt(_) => head + ": program ended without HALT"@,
        VmError::TruncatedInstruction(_) => head + ": truncated instruction"@,
        VmError::InvalidOpcode(op, _) => head + ": invalid opcode 0x"@ + zero_padded(hex(op as nat), 2),
    }
}

impl VmError {
    /// The text this trap is reported with.
    pub fn message(&self) -> (text: String)
        ensures
            text@ == trap_text(*self),
    {
        let mut text = String::new();
        text.append("trap at ip=0x");
        let ip = match self {
            VmError::StackUnderflow(ip) => *ip,
            VmError::StackOverflow(ip) => *ip,
            VmError::DivisionByZero(ip) => *ip,
            VmError::ModuloByZero(ip) => *ip,
            VmError::MissingHalt(ip) => *ip,
            VmError::InvalidOpcode(_, ip) => *ip,
            VmError::TruncatedInstruction(ip) => *ip,
        };
        push_padded_hex(&mut text, ip as u64, 4);
        match self {
            VmError::StackUnderflow(_) => text.append(": stack underflow (POP on empty stack)"),
            VmError::StackOverflow(_) => text.append(": stack overflow (PUSH on full stack)"),
            VmError::DivisionByZero(_) => text.append(": division by zero"),
            VmError::ModuloByZero(_) => text.append(": modulo by zero"),
            VmError::MissingHalt(_) => text.append(": program ended without HALT"),
            VmError::TruncatedInstruction(_) => text.append(": truncated instruction"),
            VmError::InvalidOpcode(op, _) => {
                text.append(": invalid opcode 0x");
                push_padded_hex(&mut text, *op as u64, 2);
            },
        }
        text
    }
}

/// `RET` undoes `CALL`: it returns to the instruction after the call and
/// leaves the return stack as it was before.
pub proof fn lemma_call_ret(s: VmState, target: u32, at_call: usize, at_ret: usize)
    requires
        0 <= s.ip <= usize::MAX,
    ensures
        spec_execute(spec_execute(s, Op::Call(target), at_call).0, Op::Ret, at_ret) == (s, Ok::<Effect, VmError>(Effect::Continue)),
{
    let t = spec_execute(s, Op::Call(target), at_call).0;
    assert(t.ret_stack.drop_last() == s.ret_stack);
}

/// How a run ended: `Some(Ok(()))` at a `HALT`, `Some(Err(e))` at a trap,
/// `None` when it was still going.
pub type RunEnd = Option<Result<(), VmError>>;

/// Running from state `s` for at most `n` steps: the state reached, the
/// values printed, and how the run ended.
pub open spec fn spec_run(s: VmState, code: Seq<u8>, n: nat) -> (VmState, Seq<i64>, RunEnd)
    decreases n,
{
    if n == 0 {
        (s, seq![], None)
    } else {
        let (t, r) = spec_step(s, code);
        match r {
            Err(e) => (t, seq![], Some(Err(e))),
            Ok(Effect::Halted) => (t, seq![], Some(Ok(()))),
            Ok(Effect::Output(v)) => {
                let (u, out, end) = spec_run(t, code, (n - 1) as nat);
                (u, seq![v] + out, end)
            },
            Ok(Effect::Continue) => spec_run(t, code, (n - 1) as nat),
        }
    }
}

/// Whether an instruction leaves control to the one after it.
pub open spec fn is_straight(op: Op) -> bool {
    match op {
        Op::Jmp(_) | Op::Jz(_) | Op::Jnz(_) | Op::Call(_) | Op::Ret => false,
        _ => true,
    }
}

/// Executing instructions one after the other from state `s`, each at the
/// address where the one before ended: the state reached, the values
/// printed, and how it ended.
pub open spec fn run_ops(s: VmState, ops: Seq<Op>) -> (VmState, Seq<i64>, RunEnd)
    decreases ops.len(),
{
    if ops.len() == 0 {
        (s, seq![], None)
    } else {
        let op = ops[0];
        let (t, r) = spec_execute(s.with_ip(s.ip + op_size(op)), op, s.ip as usize);
        match r {
            Err(e) => (t, seq![], Some(Err(e))),
            Ok(Effect::Halted) => (t, seq![], Some(Ok(()))),
            Ok(Effect::Output(v)) => {
                let (u, out, end) = run_ops(t, ops.drop_first());
                (u, seq![v] + out, end)
            },
            Ok(Effect::Continue) => run_ops(t, ops.drop_first()),
        }
    }
}

/// A step taken where an instruction's encoding starts executes that
/// instruction, with `ip` moved past it, whatever code comes before or after.
pub proof fn lemma_step_at(s: VmState, before: Seq<Op>, op: Op, after: Seq<u8>)
    requires
        s.ip == encode_all(before).len(),
    ensures
        spec_step(s, encode_all(before) + spec_encode(op) + after)
            == spec_execute(s.with_ip(s.ip + op_size(op)), op, s.ip as usize),
{
    let code = encode_all(before) + spec_encode(op) + after;
    lemma_encode_len(op);
    lemma_decode_encode(op, after);
    assert(code.skip(s.ip) == spec_encode(op) + after);
}

/// A run of `m + n` steps is a run of `m` steps followed, if it was still
/// going, by a run of `n` steps from where it stopped; the values printed
/// are those of the first part, then those of the second.
pub proof fn lemma_run_split(s: VmState, code: Seq<u8>, m: nat, n: nat)
    ensures
        ({
            let (t, out1, end1) = spec_run(s, code, m);
            let (u, out2, end2) = spec_run(t, code, n);
            spec_run(s, code, m + n) == if end1 is None {
                (u, out1 + out2, end2)
            } else {
                (t, out1, end1)
            }
        }),
    decreases m,
{
    if m == 0 {
        let (u, out2, end2) = spec_run(s, code, n);
        assert(seq![] + out2 == out2);
    } else {
        let (t, r) = spec_step(s, code);
        lemma_run_split(t, code, (m - 1) as nat, n);
        assert((m + n - 1) as nat == (m - 1) as nat + n);
        match r {
            Ok(Effect::Output(v)) => {
                let (t1, out1, end1) = spec_run(t, code, (m - 1) as nat);
                let (u, out2, end2) = spec_run(t1, code, n);
                assert(seq![v] + (out1 + out2) == (seq![v] + out1) + out2);
            },
            _ => {},
        }
    }
}

/// A straight instruction moves `ip` just past itself, trap or not.
proof fn lemma_straight_ip(s: VmState, op: Op, at: usize)
    requires
        is_straight(op),
    ensures
        spec_execute(s, op, at).0.ip == s.ip,
{
}

/// Code without jumps, calls or returns runs its instructions in order: from
/// the address where they start, as many steps as there are instructions
/// execute them one after the other, whatever code comes before or after.
pub proof fn lemma_run_straight(s: VmState, before: Seq<Op>, ops: Seq<Op>, after: Seq<u8>)
    requires
        s.ip == encode_all(before).len(),
        forall|i: int| 0 <= i < ops.len() ==> is_straight(#[trigger] ops[i]),
    ensures
        spec_run(s, encode_all(before) + encode_all(ops) + after, ops.len()) == run_ops(s, ops),
    decreases ops.len(),
{
    if ops.len() > 0 {
        let code = encode_all(before) + encode_all(ops) + after;
        let op = ops[0];
        let tail = ops.drop_first();
        assert(code == encode_all(before) + spec_encode(op) + (encode_all(tail) + after));
        lemma_step_at(s, before, op, encode_all(tail) + after);
        let next = s.with_ip(s.ip + op_size(op));
        lemma_straight_ip(next, op, s.ip as usize);
        lemma_encode_all_push(before, op);
        assert(code == encode_all(before.push(op)) + encode_all(tail) + after);
        assert forall|i: int| 0 <= i < tail.len() implies is_straight(#[trigger] tail[i]) by {
            assert(tail[i] == ops[i + 1]);
        }
        let t = spec_execute(next, op, s.ip as usize).0;
        lemma_run_straight(t, before.push(op), tail, after);
    }
}
} // verus!
