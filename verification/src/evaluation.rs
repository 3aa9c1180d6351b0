//! The mathematical model of postfix (reverse Polish) evaluation, and the
//! checked executable evaluator: operands are pushed on a stack, an operator
//! replaces the two most recent operands by the operation's result, and a
//! clean evaluation leaves exactly one value, the answer.

use vstd::prelude::*;

use crate::Output;
use crate::conversion::is_operator_char;

verus! {

/// Absolute value.
pub open spec fn int_abs(a: int) -> int {
    if a < 0 {
        -a
    } else {
        a
    }
}

/// Truncating (round toward zero) division, the behaviour of `/` on `i32`.
pub open spec fn trunc_div(a: int, b: int) -> int {
    if (a < 0) == (b < 0) {
        int_abs(a) / int_abs(b)
    } else {
        -(int_abs(a) / int_abs(b))
    }
}

/// Integer exponentiation with a nonnegative exponent.
pub open spec fn pow_int(b: int, e: nat) -> int
    decreases e,
{
    if e == 0 {
        1
    } else {
        b * pow_int(b, (e - 1) as nat)
    }
}

/// Whether the operation is defined at all: division needs a nonzero divisor,
/// exponentiation a nonnegative exponent.
pub open spec fn op_defined(op: char, a: int, b: int) -> bool {
    if op == '/' {
        b != 0
    } else if op == '^' {
        b >= 0
    } else {
        true
    }
}

/// Unbounded result of one operation, left operand `a`, right operand `b`.
pub open spec fn apply_op(op: char, a: int, b: int) -> int {
    if op == '^' {
        pow_int(a, b as nat)
    } else if op == '*' {
        a * b
    } else if op == '/' {
        trunc_div(a, b)
    } else if op == '+' {
        a + b
    } else {
        a - b
    }
}

/// The value fits the 32-bit signed integer range.
pub open spec fn in_i32(v: int) -> bool {
    i32::MIN <= v <= i32::MAX
}

/// One evaluation step: a number is pushed; an operator consumes the two most
/// recent operands and pushes the result. `None` on a stack of fewer than two
/// operands, a character that is no operator, an undefined operation, or a
/// result out of the 32-bit range.
pub open spec fn eval_step(stack: Seq<int>, t: Output) -> Option<Seq<int>> {
    match t {
        Output::Number(n) => Some(stack.push(n as int)),
        Output::Operator(op) => {
            if !is_operator_char(op) || stack.len() < 2 {
                None
            } else {
                let a = stack[stack.len() - 2];
                let b = stack.last();
                if op_defined(op, a, b) && in_i32(apply_op(op, a, b)) {
                    Some(stack.drop_last().drop_last().push(apply_op(op, a, b)))
                } else {
                    None
                }
            }
        },
    }
}

/// Evaluation of the queue from position `i` onward, on the operand stack
/// accumulated so far.
pub open spec fn eval_from(q: Seq<Output>, i: int, stack: Seq<int>) -> Option<Seq<int>>
    decreases q.len() - i,
        when 0 <= i
{
    if i >= q.len() {
        Some(stack)
    } else {
        match eval_step(stack, q[i]) {
            Some(stack1) => eval_from(q, i + 1, stack1),
            None => None,
        }
    }
}

/// The queue evaluates cleanly: every step succeeds and exactly one operand,
/// the result, remains at the end.
pub open spec fn eval_ok(q: Seq<Output>) -> bool {
    match eval_from(q, 0, Seq::empty()) {
        Some(stack) => stack.len() == 1,
        None => false,
    }
}

/// The result of a clean evaluation of the queue.
pub open spec fn eval_value(q: Seq<Output>) -> int {
    match eval_from(q, 0, Seq::empty()) {
        Some(stack) => stack[0],
        None => 0,
    }
}

/// The operand stack of the executable evaluator, as the mathematical stack
/// it stands for.
pub open spec fn stack_model(v: Seq<i32>) -> Seq<int> {
    v.map_values(|x: i32| x as int)
}

proof fn lemma_abs_mul(x: int, y: int)
    ensures
        int_abs(x * y) == int_abs(x) * int_abs(y),
{
    if x >= 0 && y >= 0 {
        assert(x * y >= 0) by (nonlinear_arith)
            requires
                x >= 0 && y >= 0,
        ;
    } else if x < 0 && y < 0 {
        assert(x * y >= 0 && (-x) * (-y) == x * y) by (nonlinear_arith)
            requires
                x < 0 && y < 0,
        ;
    } else if x >= 0 && y < 0 {
        assert(x * y <= 0 && x * (-y) == -(x * y)) by (nonlinear_arith)
            requires
                x >= 0 && y < 0,
        ;
    } else {
        assert(x * y <= 0 && (-x) * y == -(x * y)) by (nonlinear_arith)
            requires
                x < 0 && y >= 0,
        ;
    }
}

proof fn lemma_pow_abs_one(a: int, e: nat)
    requires
        int_abs(a) == 1,
    ensures
        int_abs(pow_int(a, e)) == 1,
    decreases e,
{
    if e > 0 {
        lemma_pow_abs_one(a, (e - 1) as nat);
        lemma_abs_mul(a, pow_int(a, (e - 1) as nat));
    }
}

proof fn lemma_pow_abs_mono(a: int, k: nat, e: nat)
    requires
        int_abs(a) >= 1,
        k <= e,
    ensures
        int_abs(pow_int(a, e)) >= int_abs(pow_int(a, k)),
    decreases e - k,
{
    if k < e {
        lemma_pow_abs_mono(a, k, (e - 1) as nat);
        lemma_abs_mul(a, pow_int(a, (e - 1) as nat));
        let p = int_abs(pow_int(a, (e - 1) as nat));
        assert(int_abs(a) * p >= 1 * p) by (nonlinear_arith)
            requires
                int_abs(a) >= 1 && p >= 0,
        ;
    }
}

/// Once one more multiplication by the base has left the 32-bit range, the
/// full power is out of that range as well (for a base of magnitude at least
/// two; smaller bases never overflow).
proof fn lemma_pow_overflow(a: int, k: nat, e: nat)
    requires
        k < e,
        int_abs(a) >= 2,
        !in_i32(pow_int(a, (k + 1) as nat)),
    ensures
        !in_i32(pow_int(a, e)),
{
    let p1 = pow_int(a, (k + 1) as nat);
    assert(int_abs(p1) > i32::MAX);
    if k + 1 == e {
    } else {
        let p2 = pow_int(a, (k + 2) as nat);
        assert(p2 == a * p1);
        lemma_abs_mul(a, p1);
        assert(int_abs(a) * int_abs(p1) >= 2 * int_abs(p1)) by (nonlinear_arith)
            requires
                int_abs(a) >= 2 && int_abs(p1) >= 0,
        ;
        lemma_pow_abs_mono(a, (k + 2) as nat, e);
        assert(int_abs(pow_int(a, e)) >= 2 * int_abs(p1));
    }
}

/// Exponentiation by repeated multiplication, reporting overflow of the
/// 32-bit range instead of producing a wrapped value.
fn pow_checked(a: i32, e: u32) -> (r: Option<i32>)
    ensures
        match r {
            Some(v) => in_i32(pow_int(a as int, e as nat)) && v as int == pow_int(
                a as int,
                e as nat,
            ),
            None => !in_i32(pow_int(a as int, e as nat)),
        },
{
    let mut acc: i32 = 1;
    let mut k: u32 = 0;
    while k < e
        invariant
            k <= e,
            acc as int == pow_int(a as int, k as nat),
        decreases e - k,
    {
        proof {
            assert(-0x4000_0000_0000_0000 <= acc as int * a as int <= 0x4000_0000_0000_0000)
                by (nonlinear_arith)
                requires
                    -0x8000_0000 <= acc as int <= 0x7fff_ffff && -0x8000_0000 <= a as int
                        <= 0x7fff_ffff,
            ;
        }
        let next: i64 = acc as i64 * a as i64;
        proof {
            assert(acc as int * a as int == a as int * acc as int) by (nonlinear_arith);
            assert(next == pow_int(a as int, (k + 1) as nat));
        }
        if next > i32::MAX as i64 || next < i32::MIN as i64 {
            proof {
                if a as int == 0 {
                    assert(next == 0);
                } else if int_abs(a as int) == 1 {
                    lemma_pow_abs_one(a as int, k as nat);
                    lemma_abs_mul(acc as int, a as int);
                    assert(int_abs(next as int) == 1);
                } else {
                    lemma_pow_overflow(a as int, k as nat, e as nat);
                }
            }
            return None;
        }
        acc = next as i32;
        k = k + 1;
    }
    Some(acc)
}

/// Truncating division on operands for which the quotient is representable.
fn div_trunc(a: i32, b: i32) -> (r: i32)
    requires
        b != 0,
        !(a == i32::MIN && b == -1),
    ensures
        r as int == trunc_div(a as int, b as int),
{
    let negative: bool = (a < 0) != (b < 0);
    let ua: u64 = if a < 0 {
        (-(a as i64)) as u64
    } else {
        a as u64
    };
    let ub: u64 = if b < 0 {
        (-(b as i64)) as u64
    } else {
        b as u64
    };
    let uq: u64 = ua / ub;
    proof {
        assert(ua as int == int_abs(a as int));
        assert(ub as int == int_abs(b as int));
        assert(uq as int <= ua as int && (ub as int >= 2 ==> uq as int <= ua as int / 2))
            by (nonlinear_arith)
            requires
                ub as int >= 1 && uq as int == ua as int / ub as int && ua as int >= 0,
        ;
    }
    if negative {
        (-(uq as i64)) as i32
    } else {
        uq as i32
    }
}

/// One operation on 32-bit operands, reporting an undefined operation or a
/// result out of range instead of faulting.
fn apply_checked(op: char, a: i32, b: i32) -> (r: Option<i32>)
    requires
        is_operator_char(op),
    ensures
        match r {
            Some(v) => op_defined(op, a as int, b as int) && in_i32(
                apply_op(op, a as int, b as int),
            ) && v as int == apply_op(op, a as int, b as int),
            None => !(op_defined(op, a as int, b as int) && in_i32(
                apply_op(op, a as int, b as int),
            )),
        },
{
    match op {
        '^' => {
            if b < 0 {
                None
            } else {
                pow_checked(a, b as u32)
            }
        },
        '/' => {
            if b == 0 {
                None
            } else if a == i32::MIN && b == -1 {
                proof {
                    assert(trunc_div(a as int, b as int) == 2147483648);
                }
                None
            } else {
                Some(div_trunc(a, b))
            }
        },
        '*' => {
            proof {
                assert(-0x4000_0000_0000_0000 <= a as int * b as int <= 0x4000_0000_0000_0000)
                    by (nonlinear_arith)
                    requires
                        -0x8000_0000 <= a as int <= 0x7fff_ffff && -0x8000_0000 <= b as int
                            <= 0x7fff_ffff,
                ;
            }
            let wide: i64 = a as i64 * b as i64;
            if wide > i32::MAX as i64 || wide < i32::MIN as i64 {
                None
            } else {
                Some(wide as i32)
            }
        },
        '+' => {
            let wide: i64 = a as i64 + b as i64;
            if wide > i32::MAX as i64 || wide < i32::MIN as i64 {
                None
            } else {
                Some(wide as i32)
            }
        },
        _ => {
            let wide: i64 = a as i64 - b as i64;
            if wide > i32::MAX as i64 || wide < i32::MIN as i64 {
                None
            } else {
                Some(wide as i32)
            }
        },
    }
}

/// Evaluate a postfix token sequence with checked 32-bit arithmetic: the
/// result when the sequence evaluates cleanly, `None` otherwise.
pub fn eval_postfix(queue: &Vec<Output>) -> (r: Option<i32>)
    ensures
        match r {
            Some(v) => eval_ok(queue@) && v as int == eval_value(queue@),
            None => !eval_ok(queue@),
        },
{
    let mut stack: Vec<i32> = Vec::new();
    let mut i: usize = 0;
    proof {
        assert(stack_model(stack@) =~= Seq::<int>::empty());
    }
    while i < queue.len()
        invariant
            i <= queue.len(),
            eval_from(queue@, i as int, stack_model(stack@)) == eval_from(
                queue@,
                0,
                Seq::<int>::empty(),
            ),
        decreases queue.len() - i,
    {
        let t = queue[i];
        let ghost pre = stack_model(stack@);
        match t {
            Output::Number(n) => {
                stack.push(n);
                proof {
                    assert(stack_model(stack@) =~= pre.push(n as int));
                    assert(eval_step(pre, t) == Some(stack_model(stack@)));
                }
            },
            Output::Operator(op) => {
                let is_op = op == '^' || op == '*' || op == '/' || op == '+' || op == '-';
                if !is_op || stack.len() < 2 {
                    proof {
                        assert(eval_step(pre, t) is None);
                        assert(eval_from(queue@, i as int, pre) is None);
                    }
                    return None;
                }
                let b = stack.pop().unwrap();
                let a = stack.pop().unwrap();
                proof {
                    assert(stack_model(stack@) =~= pre.drop_last().drop_last());
                    assert(b as int == pre.last());
                    assert(a as int == pre[pre.len() - 2]);
                }
                match apply_checked(op, a, b) {
                    Some(v) => {
                        stack.push(v);
                        proof {
                            assert(stack_model(stack@) =~= pre.drop_last().drop_last().push(
                                v as int,
                            ));
                            assert(eval_step(pre, t) == Some(stack_model(stack@)));
                        }
                    },
                    None => {
                        proof {
                            assert(eval_step(pre, t) is None);
                            assert(eval_from(queue@, i as int, pre) is None);
                        }
                        return None;
                    },
                }
            },
        }
        proof {
            assert(eval_from(queue@, i as int, pre) == eval_from(
                queue@,
                i + 1,
                stack_model(stack@),
            ));
        }
        i = i + 1;
    }
    if stack.len() == 1 {
        let v = stack[0];
        proof {
            assert(stack_model(stack@).len() == 1);
            assert(v as int == stack_model(stack@)[0]);
        }
        Some(v)
    } else {
        None
    }
}

} // verus!
