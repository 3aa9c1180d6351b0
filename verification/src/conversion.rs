//! The mathematical model of the infix-to-postfix conversion: a single
//! left-to-right scan over the characters of the input, driven by an operator
//! stack and an output queue (the shunting-yard algorithm).

use vstd::prelude::*;

use crate::Output;

verus! {

/// The five operator characters the converter recognizes.
pub open spec fn is_operator_char(c: char) -> bool {
    c == '^' || c == '*' || c == '/' || c == '+' || c == '-'
}

/// Precedence rank of an operator; a higher rank binds tighter.
pub open spec fn op_precedence(c: char) -> int {
    if c == '^' {
        4
    } else if c == '*' || c == '/' {
        3
    } else {
        2
    }
}

/// Only exponentiation associates to the right.
pub open spec fn is_right_associative(c: char) -> bool {
    c == '^'
}

/// Whether an incoming operator `o1` sends the stack top `o2` to the output
/// queue first: a left-associative `o1` yields on equal precedence, a
/// right-associative `o1` only to strictly higher precedence. An open
/// parenthesis on the stack never moves here.
pub open spec fn pops_before(o1: char, o2: char) -> bool {
    &&& is_operator_char(o2)
    &&& if is_right_associative(o1) {
        op_precedence(o1) < op_precedence(o2)
    } else {
        op_precedence(o1) <= op_precedence(o2)
    }
}

/// An ASCII decimal digit.
pub open spec fn is_digit_char(c: char) -> bool {
    48 <= c as int && c as int <= 57
}

/// Numeric value of a digit character.
pub open spec fn digit_value(c: char) -> int {
    c as int - 48
}

/// Base-10 value of a digit sequence.
pub open spec fn digits_value(s: Seq<char>) -> int
    decreases s.len(),
{
    if s.len() == 0 {
        0
    } else {
        10 * digits_value(s.drop_last()) + digit_value(s.last())
    }
}

/// One past the end of the maximal digit run that starts at `i`.
pub open spec fn digit_run_end(s: Seq<char>, i: int) -> int
    decreases s.len() - i,
{
    if i + 1 < s.len() && is_digit_char(s[i + 1]) {
        digit_run_end(s, i + 1)
    } else {
        i + 1
    }
}

/// The maximal digit run starting inside the text ends past its start, within
/// the text, contains only digits, and is followed by a non-digit if anything
/// follows it.
pub proof fn lemma_digit_run_end(s: Seq<char>, i: int)
    requires
        0 <= i < s.len(),
    ensures
        i < digit_run_end(s, i) <= s.len(),
        forall|k: int| i < k < digit_run_end(s, i) ==> is_digit_char(s[k]),
        digit_run_end(s, i) < s.len() ==> !is_digit_char(s[digit_run_end(s, i)]),
    decreases s.len() - i,
{
    if i + 1 < s.len() && is_digit_char(s[i + 1]) {
        lemma_digit_run_end(s, i + 1);
        assert forall|k: int| i < k < digit_run_end(s, i) implies is_digit_char(s[k]) by {
            if k != i + 1 {
                assert(is_digit_char(s[k]));
            }
        }
    }
}

/// A position `j` with only digits strictly between `i` and `j` and a
/// non-digit (or the end of the text) at `j` is exactly where the maximal
/// digit run starting at `i` ends.
pub proof fn lemma_digit_run_end_is(s: Seq<char>, i: int, j: int)
    requires
        0 <= i < j <= s.len(),
        forall|k: int| i < k < j ==> is_digit_char(s[k]),
        j < s.len() ==> !is_digit_char(s[j]),
    ensures
        digit_run_end(s, i) == j,
    decreases j - i,
{
    if i + 1 < s.len() && is_digit_char(s[i + 1]) {
        assert(i + 1 < j);
        lemma_digit_run_end_is(s, i + 1, j);
    }
}

/// A sequence of digits has a nonnegative value.
pub proof fn lemma_digits_value_nonneg(s: Seq<char>)
    requires
        forall|k: int| 0 <= k < s.len() ==> is_digit_char(s[k]),
    ensures
        digits_value(s) >= 0,
    decreases s.len(),
{
    if s.len() > 0 {
        lemma_digits_value_nonneg(s.drop_last());
    }
}

/// Reading further digits of a run can only increase the value read so far.
pub proof fn lemma_digits_value_prefix(r: Seq<char>, m: int)
    requires
        0 <= m <= r.len(),
        forall|k: int| 0 <= k < r.len() ==> is_digit_char(r[k]),
    ensures
        digits_value(r.subrange(0, m)) <= digits_value(r),
    decreases r.len() - m,
{
    if m == r.len() {
        assert(r.subrange(0, m) =~= r);
    } else {
        let p = r.subrange(0, m);
        let q = r.subrange(0, m + 1);
        assert(q.drop_last() =~= p);
        assert(forall|k: int| 0 <= k < p.len() ==> is_digit_char(p[k]));
        lemma_digits_value_nonneg(p);
        assert(digits_value(q) == 10 * digits_value(p) + digit_value(q.last()));
        lemma_digits_value_prefix(r, m + 1);
    }
}

/// Pop operators off the stack onto the queue while the precedence rule says
/// the incoming operator `o1` must wait for them.
pub open spec fn pop_for_operator(st: Seq<char>, q: Seq<Output>, o1: char) -> (Seq<char>, Seq<
    Output,
>)
    decreases st.len(),
{
    if st.len() > 0 && pops_before(o1, st.last()) {
        pop_for_operator(st.drop_last(), q.push(Output::Operator(st.last())), o1)
    } else {
        (st, q)
    }
}

/// Pop operators onto the queue down to the matching open parenthesis, which
/// is discarded. An emptied stack stands in for the missing parenthesis when
/// the input holds an unmatched `)`.
pub open spec fn pop_for_close_paren(st: Seq<char>, q: Seq<Output>) -> (Seq<char>, Seq<Output>)
    decreases st.len(),
{
    if st.len() == 0 {
        (st, q)
    } else if st.last() == '(' {
        (st.drop_last(), q)
    } else {
        pop_for_close_paren(st.drop_last(), q.push(Output::Operator(st.last())))
    }
}

/// Move everything still on the stack to the queue, most recent first. An
/// unmatched `(` left on the stack ends up in the queue as well.
pub open spec fn drain_stack(st: Seq<char>, q: Seq<Output>) -> Seq<Output>
    decreases st.len(),
{
    if st.len() == 0 {
        q
    } else {
        drain_stack(st.drop_last(), q.push(Output::Operator(st.last())))
    }
}

/// The rest of the conversion scan, from position `i` of the text with
/// operator stack `st` and output queue `q` already accumulated. `None` means
/// a digit run whose value does not fit the 32-bit integer range was met.
pub open spec fn convert_from(s: Seq<char>, i: int, st: Seq<char>, q: Seq<Output>) -> Option<
    Seq<Output>,
>
    decreases s.len() - i,
        when 0 <= i
{
    if i >= s.len() {
        Some(drain_stack(st, q))
    } else if is_digit_char(s[i]) {
        let j = digit_run_end(s, i);
        let v = digits_value(s.subrange(i, j));
        if v > i32::MAX as int {
            None
        } else {
            proof {
                lemma_digit_run_end(s, i);
            }
            convert_from(s, j, st, q.push(Output::Number(v as i32)))
        }
    } else if is_operator_char(s[i]) {
        let (st1, q1) = pop_for_operator(st, q, s[i]);
        convert_from(s, i + 1, st1.push(s[i]), q1)
    } else if s[i] == '(' {
        convert_from(s, i + 1, st.push('('), q)
    } else if s[i] == ')' {
        let (st1, q1) = pop_for_close_paren(st, q);
        convert_from(s, i + 1, st1, q1)
    } else {
        convert_from(s, i + 1, st, q)
    }
}

/// The whole conversion of an input text, from empty state: the postfix token
/// sequence, or `None` on an out-of-range numeric literal.
pub open spec fn convert_full(s: Seq<char>) -> Option<Seq<Output>> {
    convert_from(s, 0, Seq::empty(), Seq::empty())
}

} // verus!
