//! A shunting-yard calculator: arithmetic expressions given as text are
//! converted to a postfix (reverse Polish) token sequence and evaluated.
//!
//! The converter recognizes integer operands, the binary operators
//! `^ * / + -` with the usual precedence and associativity, and parentheses.
//! Whitespace and any unrecognized character are skipped. The evaluator folds
//! the postfix sequence with checked 32-bit arithmetic.

use vstd::prelude::*;

pub mod conversion;
pub mod evaluation;
pub mod laws;

use crate::conversion::convert_from;
use crate::conversion::convert_full;
use crate::conversion::digit_run_end;
use crate::conversion::digits_value;
use crate::conversion::drain_stack;
use crate::conversion::is_digit_char;
use crate::conversion::is_operator_char;
use crate::conversion::is_right_associative;
use crate::conversion::lemma_digit_run_end;
use crate::conversion::lemma_digit_run_end_is;
use crate::conversion::lemma_digits_value_prefix;
use crate::conversion::op_precedence;
use crate::conversion::pop_for_close_paren;
use crate::conversion::pop_for_operator;
use crate::evaluation::eval_ok;
use crate::evaluation::eval_postfix;
use crate::evaluation::eval_value;

verus! {

/// A token of the postfix output queue: an operand or an operator character.
#[derive(Clone, Copy, Debug, PartialEq, Eq, Structural)]
pub enum Output {
    Operator(char),
    Number(i32),
}

/// How an operator associates when it meets another of equal precedence.
#[derive(Clone, Copy, Debug, PartialEq, Eq, Structural)]
pub enum AssociatedWith {
    Left,
    Right,
}

/// Precedence rank and associativity of an operator character.
///
/// Higher ranks bind tighter: `^` is 4 and right-associative; `*` and `/`
/// are 3, `+` and `-` are 2, all four left-associative.
pub fn get_precedence(operator: char) -> (r: (i32, AssociatedWith))
    requires
        is_operator_char(operator),
    ensures
        r.0 as int == op_precedence(operator),
        (r.1 == AssociatedWith::Right) == is_right_associative(operator),
{
    match operator {
        '^' => (4, AssociatedWith::Right),
        '/' => (3, AssociatedWith::Left),
        '*' => (3, AssociatedWith::Left),
        '+' => (2, AssociatedWith::Left),
        _ => (2, AssociatedWith::Left),
    }
}

/// What can go wrong while processing one expression.
#[derive(Clone, Copy, Debug, PartialEq, Eq, Structural)]
pub enum AlgorithmError {
    /// A digit run whose value exceeds the 32-bit integer range.
    UnableToParseInt,
    /// An internally expected pop found the operator stack empty. The
    /// contract of `execute` proves this is never produced.
    OperatorStackError,
    /// The postfix sequence does not evaluate cleanly to one value: an
    /// operand stack underflow or surplus, a stray parenthesis marker left by
    /// an unmatched `(`, division by zero, a negative exponent, or a result
    /// outside the 32-bit range.
    ArithmeticError,
}

/// The converter's working state: the pending operator stack and the postfix
/// output queue of the most recent conversion. Each call of `execute` starts
/// from fresh, empty state; nothing carries over between expressions.
pub struct Algorithm {
    pub operator_stack: Vec<char>,
    pub queue: Vec<Output>,
}

/// ASCII decimal digit test, as the scanner uses it.
fn is_ascii_digit(c: char) -> (r: bool)
    ensures
        r == is_digit_char(c),
{
    let u: u32 = c as u32;
    48 <= u && u <= 57
}

/// Scan the input text once, left to right, into a postfix token queue:
/// digit runs become `Number` tokens, operators wait on a stack until an
/// operator of suitable precedence or a parenthesis dislodges them,
/// whitespace and unrecognized characters are skipped. `None` when a digit
/// run exceeds the 32-bit integer range.
fn convert_text(input: &str) -> (r: Option<Vec<Output>>)
    ensures
        match r {
            Some(q) => convert_full(input@) == Some(q@),
            None => convert_full(input@) is None,
        },
{
    let mut st: Vec<char> = Vec::new();
    let mut q: Vec<Output> = Vec::new();
    let n: usize = input.unicode_len();
    let mut i: usize = 0;
    proof {
        assert(st@ =~= Seq::<char>::empty());
        assert(q@ =~= Seq::<Output>::empty());
    }
    while i < n
        invariant
            i <= n,
            n == input@.len(),
            convert_from(input@, i as int, st@, q@) == convert_full(input@),
        decreases n - i,
    {
        let ghost s = input@;
        let ghost st_pre = st@;
        let ghost q_pre = q@;
        let c = input.get_char(i);
        let cu: u32 = c as u32;
        if 48 <= cu && cu <= 57 {
            proof {
                lemma_digit_run_end(s, i as int);
            }
            let ghost jr = digit_run_end(s, i as int);
            let mut j: usize = i + 1;
            while j < n && is_ascii_digit(input.get_char(j))
                invariant
                    i < j <= n,
                    n == input@.len(),
                    s == input@,
                    is_digit_char(s[i as int]),
                    forall|k: int| i < k < j ==> is_digit_char(s[k]),
                decreases n - j,
            {
                j = j + 1;
            }
            proof {
                lemma_digit_run_end_is(s, i as int, j as int);
                assert(jr == j);
            }
            let mut value: i64 = 0;
            let mut k: usize = i;
            proof {
                assert(s.subrange(i as int, i as int) =~= Seq::<char>::empty());
            }
            while k < j
                invariant
                    i <= k <= j <= n,
                    n == input@.len(),
                    s == input@,
                    jr == j,
                    convert_from(s, i as int, st_pre, q_pre) == convert_full(s),
                    st@ == st_pre,
                    q@ == q_pre,
                    jr == digit_run_end(s, i as int),
                    forall|t: int| i <= t < j ==> is_digit_char(s[t]),
                    value == digits_value(s.subrange(i as int, k as int)),
                    0 <= value <= i32::MAX as i64,
                decreases j - k,
            {
                let d = input.get_char(k);
                let dv: i64 = (d as u32) as i64 - 48;
                let nv: i64 = value * 10 + dv;
                proof {
                    assert(s.subrange(i as int, k + 1).drop_last() =~= s.subrange(
                        i as int,
                        k as int,
                    ));
                    assert(nv == digits_value(s.subrange(i as int, k + 1)));
                }
                if nv > i32::MAX as i64 {
                    proof {
                        let run = s.subrange(i as int, jr);
                        assert(forall|t: int| 0 <= t < run.len() ==> is_digit_char(run[t]));
                        assert(s.subrange(i as int, k + 1) =~= run.subrange(0, k + 1 - i));
                        lemma_digits_value_prefix(run, k + 1 - i);
                        assert(digits_value(run) > i32::MAX as int);
                        assert(convert_from(s, i as int, st_pre, q_pre) is None);
                    }
                    return None;
                }
                value = nv;
                k = k + 1;
            }
            q.push(Output::Number(value as i32));
            proof {
                assert(s.subrange(i as int, j as int) =~= s.subrange(i as int, jr));
                assert(q@ =~= q_pre.push(Output::Number(value as i32)));
                assert(convert_from(s, i as int, st_pre, q_pre) == convert_from(
                    s,
                    j as int,
                    st@,
                    q@,
                ));
            }
            i = j;
        } else if c == '^' || c == '*' || c == '/' || c == '+' || c == '-' {
            loop
                invariant_except_break
                    is_operator_char(c),
                    pop_for_operator(st@, q@, c) == pop_for_operator(st_pre, q_pre, c),
                ensures
                    st@ == pop_for_operator(st_pre, q_pre, c).0,
                    q@ == pop_for_operator(st_pre, q_pre, c).1,
                decreases st@.len(),
            {
                if st.len() == 0 {
                    break ;
                }
                let top = st[st.len() - 1];
                let should_pop: bool = if !(top == '^' || top == '*' || top == '/' || top == '+'
                    || top == '-') {
                    false
                } else {
                    let (p1, a1) = get_precedence(c);
                    let (p2, _a2) = get_precedence(top);
                    match a1 {
                        AssociatedWith::Left => p1 <= p2,
                        AssociatedWith::Right => p1 < p2,
                    }
                };
                if !should_pop {
                    break ;
                }
                let ghost st_it = st@;
                let ghost q_it = q@;
                let op = st.pop().unwrap();
                q.push(Output::Operator(op));
                proof {
                    assert(st@ =~= st_it.drop_last());
                    assert(q@ =~= q_it.push(Output::Operator(st_it.last())));
                }
            }
            st.push(c);
            proof {
                let popped = pop_for_operator(st_pre, q_pre, c);
                assert(st@ =~= popped.0.push(c));
                assert(convert_from(s, i as int, st_pre, q_pre) == convert_from(
                    s,
                    i + 1,
                    st@,
                    q@,
                ));
            }
            i = i + 1;
        } else if c == '(' {
            st.push('(');
            proof {
                assert(st@ =~= st_pre.push('('));
                assert(convert_from(s, i as int, st_pre, q_pre) == convert_from(
                    s,
                    i + 1,
                    st@,
                    q@,
                ));
            }
            i = i + 1;
        } else if c == ')' {
            loop
                invariant_except_break
                    pop_for_close_paren(st@, q@) == pop_for_close_paren(st_pre, q_pre),
                ensures
                    st@ == pop_for_close_paren(st_pre, q_pre).0,
                    q@ == pop_for_close_paren(st_pre, q_pre).1,
                decreases st@.len(),
            {
                if st.len() == 0 {
                    break ;
                }
                let top = st[st.len() - 1];
                let ghost st_it = st@;
                let ghost q_it = q@;
                if top == '(' {
                    st.pop();
                    proof {
                        assert(st@ =~= st_it.drop_last());
                    }
                    break ;
                }
                let op = st.pop().unwrap();
                q.push(Output::Operator(op));
                proof {
                    assert(st@ =~= st_it.drop_last());
                    assert(q@ =~= q_it.push(Output::Operator(st_it.last())));
                }
            }
            proof {
                assert(convert_from(s, i as int, st_pre, q_pre) == convert_from(
                    s,
                    i + 1,
                    st@,
                    q@,
                ));
            }
            i = i + 1;
        } else {
            proof {
                assert(!is_digit_char(s[i as int]));
                assert(!is_operator_char(s[i as int]));
                assert(convert_from(s, i as int, st_pre, q_pre) == convert_from(
                    s,
                    i + 1,
                    st@,
                    q@,
                ));
            }
            i = i + 1;
        }
    }
    let ghost st_end = st@;
    let ghost q_end = q@;
    while st.len() > 0
        invariant
            drain_stack(st@, q@) == drain_stack(st_end, q_end),
        decreases st@.len(),
    {
        let ghost st_it = st@;
        let ghost q_it = q@;
        let op = st.pop().unwrap();
        q.push(Output::Operator(op));
        proof {
            assert(st@ =~= st_it.drop_last());
            assert(q@ =~= q_it.push(Output::Operator(st_it.last())));
        }
    }
    proof {
        assert(drain_stack(st@, q@) == q@);
        assert(convert_from(input@, n as int, st_end, q_end) == Some(drain_stack(st_end, q_end)));
    }
    Some(q)
}

impl Algorithm {
    /// Process one expression from scratch: convert the text to a postfix
    /// token queue, keep that queue, and evaluate it.
    ///
    /// The conversion is total over the text: whitespace and unrecognized
    /// characters are skipped, and a `)` with no matching `(` simply pops the
    /// whole operator stack, as if an open parenthesis stood before the
    /// expression. An unmatched `(` ends up in the queue as a stray operator
    /// token, and evaluation then fails. A digit run out of the 32-bit range
    /// gives `UnableToParseInt` and leaves the state empty; a queue that does
    /// not evaluate cleanly gives `ArithmeticError` and leaves the queue for
    /// inspection.
    pub fn execute(&mut self, input: &str) -> (r: Result<i32, AlgorithmError>)
        ensures
            final(self).operator_stack@.len() == 0,
            match r {
                Ok(v) => {
                    &&& convert_full(input@) == Some(final(self).queue@)
                    &&& eval_ok(final(self).queue@)
                    &&& v as int == eval_value(final(self).queue@)
                },
                Err(AlgorithmError::UnableToParseInt) => {
                    &&& convert_full(input@) is None
                    &&& final(self).queue@.len() == 0
                },
                Err(AlgorithmError::ArithmeticError) => {
                    &&& convert_full(input@) == Some(final(self).queue@)
                    &&& !eval_ok(final(self).queue@)
                },
                Err(AlgorithmError::OperatorStackError) => false,
            },
    {
        self.operator_stack = Vec::new();
        match convert_text(input) {
            None => {
                self.queue = Vec::new();
                Err(AlgorithmError::UnableToParseInt)
            },
            Some(q) => {
                self.queue = q;
                match eval_postfix(&self.queue) {
                    Some(v) => Ok(v),
                    None => Err(AlgorithmError::ArithmeticError),
                }
            },
        }
    }

    /// The result of the most recent conversion's queue, for a queue that
    /// evaluates cleanly. `execute` reports `ArithmeticError` for one that
    /// does not.
    pub fn calculate_result(&self) -> (r: i32)
        requires
            eval_ok(self.queue@),
        ensures
            r as int == eval_value(self.queue@),
    {
        let result = eval_postfix(&self.queue);
        result.unwrap()
    }
}

impl Default for Algorithm {
    /// Fresh converter state: empty operator stack, empty queue.
    fn default() -> (r: Self)
        ensures
            r.operator_stack@.len() == 0,
            r.queue@.len() == 0,
    {
        Algorithm { operator_stack: Vec::new(), queue: Vec::new() }
    }
}

} // verus!
