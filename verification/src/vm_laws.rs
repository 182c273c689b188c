//! What each instruction does to the machine, stated per instruction in terms
//! of the values on the stack before and after.
use vstd::prelude::*;
use crate::isa::Op;
use crate::vm::{VmState, VmError, Effect, STACK_LIMIT, spec_execute, abs};

verus! {

/// `PUSH v` puts `v` on top of the stack, or traps when the stack is full;
/// `LOAD s` does the same with the value of global `s`; `HALT` stops without
/// changing anything; `JMP t` moves `ip` to `t` and nothing else.
pub proof fn lemma_push_load_halt_jmp(s: VmState, v: i64, slot: u8, target: u32, at: usize)
    ensures
        s.stack.len() < STACK_LIMIT ==> spec_execute(s, Op::Push(v), at) == (
            s.with_stack(s.stack.push(v)),
            Ok::<Effect, VmError>(Effect::Continue),
        ),
        s.stack.len() >= STACK_LIMIT ==> spec_execute(s, Op::Push(v), at) == (
            s,
            Err::<Effect, VmError>(VmError::StackOverflow(at)),
        ),
        s.stack.len() < STACK_LIMIT ==> spec_execute(s, Op::Load(slot), at) == (
            s.with_stack(s.stack.push(s.globals[slot as int])),
            Ok::<Effect, VmError>(Effect::Continue),
        ),
        spec_execute(s, Op::Halt, at) == (s, Ok::<Effect, VmError>(Effect::Halted)),
        spec_execute(s, Op::Jmp(target), at) == (s.with_ip(target as int), Ok::<Effect, VmError>(Effect::Continue)),
{
}

/// The instructions that take one value `v` off the top of the stack: `POP`
/// drops it, `DUP` repeats it, `PRINT` outputs it, `STORE s` puts it in global
/// `s`, `NEG` pushes its negation, `JZ t` jumps to `t` exactly when it is zero
/// and `JNZ t` exactly when it is not (negative values included); otherwise
/// `ip` stays past the instruction.
pub proof fn lemma_one_operand(s: VmState, below: Seq<i64>, v: i64, slot: u8, target: u32, at: usize)
    requires
        s.stack == below.push(v),
    ensures
        spec_execute(s, Op::Pop, at) == (s.with_stack(below), Ok::<Effect, VmError>(Effect::Continue)),
        s.stack.len() < STACK_LIMIT ==> spec_execute(s, Op::Dup, at) == (
            s.with_stack(below.push(v).push(v)),
            Ok::<Effect, VmError>(Effect::Continue),
        ),
        spec_execute(s, Op::Print, at) == (s.with_stack(below), Ok::<Effect, VmError>(Effect::Output(v))),
        spec_execute(s, Op::Store(slot), at) == (
            VmState { stack: below, globals: s.globals.update(slot as int, v), ..s },
            Ok::<Effect, VmError>(Effect::Continue),
        ),
        v != i64::MIN ==> spec_execute(s, Op::Neg, at) == (
            s.with_stack(below.push((-v) as i64)),
            Ok::<Effect, VmError>(Effect::Continue),
        ),
        v != i64::MIN ==> spec_execute(s, Op::Neg, at).0.stack.last() + v == 0,
        spec_execute(s, Op::Jz(target), at) == (
            if v == 0 { s.with_stack(below).with_ip(target as int) } else { s.with_stack(below) },
            Ok::<Effect, VmError>(Effect::Continue),
        ),
        spec_execute(s, Op::Jnz(target), at) == (
            if v != 0 { s.with_stack(below).with_ip(target as int) } else { s.with_stack(below) },
            Ok::<Effect, VmError>(Effect::Continue),
        ),
{
    assert(s.stack.drop_last() == below);
}

/// `SWAP` exchanges the two values on top of the stack.
pub proof fn lemma_swap(s: VmState, below: Seq<i64>, a: i64, b: i64, at: usize)
    requires
        s.stack == below.push(a).push(b),
    ensures
        spec_execute(s, Op::Swap, at) == (s.with_stack(below.push(b).push(a)), Ok::<Effect, VmError>(Effect::Continue)),
{
    assert(s.stack.drop_last() == below.push(a));
    assert(below.push(a).drop_last() == below);
}

/// On an empty stack every instruction that takes a value from it traps with
/// a stack underflow at the instruction's address and changes nothing.
pub proof fn lemma_empty_stack(s: VmState, slot: u8, target: u32, at: usize)
    requires
        s.stack.len() == 0,
    ensures
        spec_execute(s, Op::Pop, at) == (s, Err::<Effect, VmError>(VmError::StackUnderflow(at))),
        spec_execute(s, Op::Dup, at) == (s, Err::<Effect, VmError>(VmError::StackUnderflow(at))),
        spec_execute(s, Op::Swap, at) == (s, Err::<Effect, VmError>(VmError::StackUnderflow(at))),
        spec_execute(s, Op::Print, at) == (s, Err::<Effect, VmError>(VmError::StackUnderflow(at))),
        spec_execute(s, Op::Neg, at) == (s, Err::<Effect, VmError>(VmError::StackUnderflow(at))),
        spec_execute(s, Op::Store(slot), at) == (s, Err::<Effect, VmError>(VmError::StackUnderflow(at))),
        spec_execute(s, Op::Jz(target), at) == (s, Err::<Effect, VmError>(VmError::StackUnderflow(at))),
        spec_execute(s, Op::Jnz(target), at) == (s, Err::<Effect, VmError>(VmError::StackUnderflow(at))),
        spec_execute(s, Op::Add, at) == (s, Err::<Effect, VmError>(VmError::StackUnderflow(at))),
        spec_execute(s, Op::Sub, at) == (s, Err::<Effect, VmError>(VmError::StackUnderflow(at))),
        spec_execute(s, Op::Mul, at) == (s, Err::<Effect, VmError>(VmError::StackUnderflow(at))),
        spec_execute(s, Op::Div, at) == (s, Err::<Effect, VmError>(VmError::StackUnderflow(at))),
        spec_execute(s, Op::Mod, at) == (s, Err::<Effect, VmError>(VmError::StackUnderflow(at))),
        spec_execute(s, Op::Eq, at) == (s, Err::<Effect, VmError>(VmError::StackUnderflow(at))),
        spec_execute(s, Op::Lt, at) == (s, Err::<Effect, VmError>(VmError::StackUnderflow(at))),
        spec_execute(s, Op::Gt, at) == (s, Err::<Effect, VmError>(VmError::StackUnderflow(at))),
{
}

/// `CALL t` saves the address after it on the return stack and jumps to `t`;
/// `RET` jumps to the most recently saved address and forgets it, or traps
/// when none is saved.
pub proof fn lemma_call_and_ret(s: VmState, target: u32, at: usize)
    requires
        0 <= s.ip <= usize::MAX,
    ensures
        spec_execute(s, Op::Call(target), at) == (
            VmState { ret_stack: s.ret_stack.push(s.ip as usize), ip: target as int, ..s },
            Ok::<Effect, VmError>(Effect::Continue),
        ),
        s.ret_stack.len() > 0 ==> spec_execute(s, Op::Ret, at) == (
            VmState { ret_stack: s.ret_stack.drop_last(), ip: s.ret_stack.last() as int, ..s },
            Ok::<Effect, VmError>(Effect::Continue),
        ),
        s.ret_stack.len() == 0 ==> spec_execute(s, Op::Ret, at) == (s, Err::<Effect, VmError>(VmError::StackUnderflow(at))),
{
}

/// The comparisons push 1 or 0: `EQ` 1 exactly when `a == b`, `LT` exactly
/// when `a < b`, `GT` exactly when `a > b`, where `b` was on top and `a`
/// below it. So for any two values exactly one of the three pushes 1.
pub proof fn lemma_comparisons(s: VmState, below: Seq<i64>, a: i64, b: i64, at: usize)
    requires
        s.stack == below.push(a).push(b),
    ensures
        spec_execute(s, Op::Eq, at) == (
            s.with_stack(below.push(if a == b { 1i64 } else { 0i64 })),
            Ok::<Effect, VmError>(Effect::Continue),
        ),
        spec_execute(s, Op::Lt, at) == (
            s.with_stack(below.push(if a < b { 1i64 } else { 0i64 })),
            Ok::<Effect, VmError>(Effect::Continue),
        ),
        spec_execute(s, Op::Gt, at) == (
            s.with_stack(below.push(if a > b { 1i64 } else { 0i64 })),
            Ok::<Effect, VmError>(Effect::Continue),
        ),
        spec_execute(s, Op::Eq, at).0.stack.last() + spec_execute(s, Op::Lt, at).0.stack.last()
            + spec_execute(s, Op::Gt, at).0.stack.last() == 1,
{
    assert(s.stack.drop_last() == below.push(a));
    assert(below.push(a).drop_last() == below);
}

/// `ADD`, `SUB` and `MUL` push `a + b`, `a - b` and `a * b` (`b` was on top),
/// when the result fits an `i64`.
pub proof fn lemma_add_sub_mul(s: VmState, below: Seq<i64>, a: i64, b: i64, at: usize)
    requires
        s.stack == below.push(a).push(b),
    ensures
        i64::MIN <= a + b <= i64::MAX ==> spec_execute(s, Op::Add, at) == (
            s.with_stack(below.push((a + b) as i64)),
            Ok::<Effect, VmError>(Effect::Continue),
        ),
        i64::MIN <= a - b <= i64::MAX ==> spec_execute(s, Op::Sub, at) == (
            s.with_stack(below.push((a - b) as i64)),
            Ok::<Effect, VmError>(Effect::Continue),
        ),
        i64::MIN <= a * b <= i64::MAX ==> spec_execute(s, Op::Mul, at) == (
            s.with_stack(below.push((a * b) as i64)),
            Ok::<Effect, VmError>(Effect::Continue),
        ),
{
    assert(s.stack.drop_last() == below.push(a));
    assert(below.push(a).drop_last() == below);
}

/// `DIV` and `MOD` by zero trap, each with its own error, leaving the two
/// operands taken off the stack. Otherwise (and short of `i64::MIN / -1`)
/// `DIV` pushes `q` and `MOD` pushes `r` such that `a == q * b + r`, `r` is
/// smaller than `b` in size and, unless zero, has the sign of `a`: division
/// rounds toward zero.
pub proof fn lemma_div_mod(s: VmState, below: Seq<i64>, a: i64, b: i64, at: usize)
    requires
        s.stack == below.push(a).push(b),
    ensures
        b == 0 ==> spec_execute(s, Op::Div, at) == (s.with_stack(below), Err::<Effect, VmError>(VmError::DivisionByZero(at))),
        b == 0 ==> spec_execute(s, Op::Mod, at) == (s.with_stack(below), Err::<Effect, VmError>(VmError::ModuloByZero(at))),
        b != 0 && !(a == i64::MIN && b == -1) ==> {
            let (td, rd) = spec_execute(s, Op::Div, at);
            let (tm, rm) = spec_execute(s, Op::Mod, at);
            let q = td.stack.last() as int;
            let r = tm.stack.last() as int;
            &&& rd == Ok::<Effect, VmError>(Effect::Continue)
            &&& rm == Ok::<Effect, VmError>(Effect::Continue)
            &&& td == s.with_stack(below.push(q as i64))
            &&& tm == s.with_stack(below.push(r as i64))
            &&& a == q * b + r
            &&& abs(r) < abs(b as int)
            &&& (r == 0 || (r < 0) == (a < 0))
        },
{
    assert(s.stack.drop_last() == below.push(a));
    assert(below.push(a).drop_last() == below);
    if b != 0 && !(a == i64::MIN && b == -1) {
        let x = abs(a as int);
        let d = abs(b as int);
        let q0 = x / d;
        let r0 = x % d;
        assert(x == d * q0 + r0 && 0 <= r0 < d) by {
            vstd::arithmetic::div_mod::lemma_fundamental_div_mod(x, d);
            vstd::arithmetic::div_mod::lemma_mod_bound(x, d);
        }
        assert(0 <= q0 <= x) by {
            vstd::arithmetic::div_mod::lemma_div_is_ordered_by_denominator(x, 1, d);
            vstd::arithmetic::div_mod::lemma_div_basics(x);
            vstd::arithmetic::div_mod::lemma_div_pos_is_pos(x, d);
        }
        if a < 0 && b == -1 {
            assert(a != i64::MIN);
        }
        assert(d * q0 == q0 * d) by (nonlinear_arith);
        if (a < 0) == (b < 0) {
            assert(a == q0 * b + (if a < 0 { -r0 } else { r0 })) by (nonlinear_arith)
                requires
                    x == d * q0 + r0,
                    d * q0 == q0 * d,
                    x == abs(a as int),
                    d == abs(b as int),
                    (a < 0) == (b < 0),
            ;
        } else {
            assert(a == (-q0) * b + (if a < 0 { -r0 } else { r0 })) by (nonlinear_arith)
                requires
                    x == d * q0 + r0,
                    d * q0 == q0 * d,
                    x == abs(a as int),
                    d == abs(b as int),
                    (a < 0) != (b < 0),
            ;
        }
        let q = crate::vm::quotient(a as int, b as int);
        assert(i64::MIN <= q <= i64::MAX) by {
            if d >= 2 {
                assert(d * q0 >= 2 * q0) by (nonlinear_arith)
                    requires
                        d >= 2,
                        q0 >= 0,
                ;
                assert(x <= 0x8000_0000_0000_0000);
            } else {
                assert(d == 1);
                assert(q0 == x);
            }
        }
    }
}

} // verus!
