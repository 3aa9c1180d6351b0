//! Laws of the conversion. A fully parenthesized expression is modelled as a
//! tree; its rendering back to text and its postorder token sequence connect
//! the scanner to the structure it recovers.

use vstd::prelude::*;

use crate::Output;
use crate::conversion::convert_from;
use crate::conversion::convert_full;
use crate::conversion::digit_value;
use crate::conversion::digits_value;
use crate::conversion::is_digit_char;
use crate::conversion::is_operator_char;
use crate::conversion::lemma_digit_run_end_is;
use crate::conversion::pop_for_close_paren;
use crate::conversion::pop_for_operator;
use crate::evaluation::eval_value;

verus! {

/// A syntactically well-formed, fully parenthesized expression: a number, or
/// two subexpressions joined by one operator inside parentheses.
pub enum Expr {
    Num(i32),
    Node(char, Box<Expr>, Box<Expr>),
}

/// Well-formed: every operator is one of the recognized five, every operand
/// nonnegative (the scanner reads no sign).
pub open spec fn expr_wf(e: Expr) -> bool
    decreases e,
{
    match e {
        Expr::Num(n) => n >= 0,
        Expr::Node(op, l, r) => is_operator_char(op) && expr_wf(*l) && expr_wf(*r),
    }
}

/// The digit character of a value between 0 and 9.
pub open spec fn digit_char(d: int) -> char {
    if d == 0 {
        '0'
    } else if d == 1 {
        '1'
    } else if d == 2 {
        '2'
    } else if d == 3 {
        '3'
    } else if d == 4 {
        '4'
    } else if d == 5 {
        '5'
    } else if d == 6 {
        '6'
    } else if d == 7 {
        '7'
    } else if d == 8 {
        '8'
    } else {
        '9'
    }
}

/// Decimal rendering of a nonnegative value, most significant digit first.
pub open spec fn dec_digits(n: int) -> Seq<char>
    decreases n,
{
    if n < 10 {
        seq![digit_char(n)]
    } else {
        dec_digits(n / 10).push(digit_char(n % 10))
    }
}

/// The text of a fully parenthesized expression.
pub open spec fn render(e: Expr) -> Seq<char>
    decreases e,
{
    match e {
        Expr::Num(n) => dec_digits(n as int),
        Expr::Node(op, l, r) => seq!['('] + render(*l) + seq![op] + render(*r) + seq![')'],
    }
}

/// The postorder token sequence of an expression: both operand sequences,
/// then the operator — each token of the tree exactly once.
pub open spec fn postfix(e: Expr) -> Seq<Output>
    decreases e,
{
    match e {
        Expr::Num(n) => seq![Output::Number(n)],
        Expr::Node(op, l, r) => postfix(*l) + postfix(*r) + seq![Output::Operator(op)],
    }
}

/// Number of operands in the expression.
pub open spec fn operand_count(e: Expr) -> nat
    decreases e,
{
    match e {
        Expr::Num(_) => 1,
        Expr::Node(_, l, r) => operand_count(*l) + operand_count(*r),
    }
}

/// Number of operators in the expression.
pub open spec fn operator_count(e: Expr) -> nat
    decreases e,
{
    match e {
        Expr::Num(_) => 0,
        Expr::Node(_, l, r) => 1 + operator_count(*l) + operator_count(*r),
    }
}

proof fn lemma_dec_digits(n: int)
    requires
        0 <= n,
    ensures
        dec_digits(n).len() >= 1,
        forall|k: int| 0 <= k < dec_digits(n).len() ==> is_digit_char(#[trigger] dec_digits(n)[k]),
        digits_value(dec_digits(n)) == n,
    decreases n,
{
    let w = dec_digits(n);
    if n < 10 {
        assert(w.last() == digit_char(n));
        assert(w.drop_last() =~= Seq::<char>::empty());
        assert(digits_value(Seq::<char>::empty()) == 0);
        assert(digit_value(digit_char(n)) == n);
        assert(digits_value(w) == 10 * digits_value(w.drop_last()) + digit_value(w.last()));
    } else {
        lemma_dec_digits(n / 10);
        assert(w.last() == digit_char(n % 10));
        assert(w.drop_last() =~= dec_digits(n / 10));
        assert(digit_value(digit_char(n % 10)) == n % 10);
        assert(digits_value(w) == 10 * (n / 10) + n % 10);
        assert forall|k: int| 0 <= k < w.len() implies is_digit_char(#[trigger] w[k]) by {
            if k < w.len() - 1 {
                assert(w[k] == dec_digits(n / 10)[k]);
            } else {
                assert(w[k] == digit_char(n % 10));
            }
        }
    }
}

proof fn lemma_postfix_len(e: Expr)
    ensures
        postfix(e).len() == operand_count(e) + operator_count(e),
    decreases e,
{
    match e {
        Expr::Num(_) => {},
        Expr::Node(_, l, r) => {
            lemma_postfix_len(*l);
            lemma_postfix_len(*r);
        },
    }
}

/// A character of a segment known to stand at offset `i` of the text.
proof fn lemma_seg_index(s: Seq<char>, i: int, w: Seq<char>, k: int)
    requires
        0 <= i,
        i + w.len() <= s.len(),
        s.subrange(i, i + w.len() as int) == w,
        0 <= k < w.len(),
    ensures
        s[i + k] == w[k],
{
    assert(s.subrange(i, i + w.len() as int)[k] == s[i + k]);
}

/// A slice of a segment known to stand at offset `i` of the text.
proof fn lemma_seg_slice(s: Seq<char>, i: int, w: Seq<char>, a: int, b: int)
    requires
        0 <= i,
        i + w.len() <= s.len(),
        s.subrange(i, i + w.len() as int) == w,
        0 <= a <= b <= w.len(),
    ensures
        s.subrange(i + a, i + b) == w.subrange(a, b),
{
    assert forall|k: int| 0 <= k < b - a implies s.subrange(i + a, i + b)[k] == w.subrange(a, b)[
        k
    ] by {
        lemma_seg_index(s, i, w, a + k);
        assert(s.subrange(i + a, i + b)[k] == s[i + a + k]);
        assert(w.subrange(a, b)[k] == w[a + k]);
    }
    assert(s.subrange(i + a, i + b) =~= w.subrange(a, b));
}

/// The scan of a rendered expression, entered with any stack and queue, and
/// with no digit immediately after the segment: the stack comes out as it
/// went in, and the queue grows by exactly the expression's postorder tokens.
proof fn lemma_scan_segment(e: Expr, s: Seq<char>, i: int, st: Seq<char>, q: Seq<Output>)
    requires
        expr_wf(e),
        0 <= i,
        i + render(e).len() <= s.len(),
        s.subrange(i, i + render(e).len() as int) == render(e),
        i + render(e).len() < s.len() ==> !is_digit_char(s[i + render(e).len()]),
    ensures
        convert_from(s, i, st, q) == convert_from(
            s,
            i + render(e).len() as int,
            st,
            q + postfix(e),
        ),
    decreases e,
{
    let w = render(e);
    let j = i + w.len() as int;
    match e {
        Expr::Num(n) => {
            lemma_dec_digits(n as int);
            assert forall|k: int| i <= k < j implies is_digit_char(s[k]) by {
                lemma_seg_index(s, i, w, k - i);
                assert(is_digit_char(dec_digits(n as int)[k - i]));
            }
            lemma_digit_run_end_is(s, i, j);
            assert(digits_value(s.subrange(i, j)) == n as int);
            assert(convert_from(s, i, st, q) == convert_from(s, j, st, q.push(Output::Number(n))));
            assert(q.push(Output::Number(n)) =~= q + postfix(e));
        },
        Expr::Node(op, l, r) => {
            let rl = render(*l);
            let rr = render(*r);
            let pl = postfix(*l);
            let pr = postfix(*r);
            let il = i + 1;
            let iop = il + rl.len() as int;
            let ir = iop + 1;
            let icl = ir + rr.len() as int;
            let w1 = seq!['('] + rl;
            let w2 = w1 + seq![op];
            let w3 = w2 + rr;
            assert(w == w3 + seq![')']);
            assert(w[0] == '(') by {
                assert(w[0] == w3[0]);
                assert(w3[0] == w2[0]);
                assert(w2[0] == w1[0]);
                assert(w1[0] == '(');
            }
            assert(w[iop - i] == op) by {
                assert(w[iop - i] == w3[iop - i]);
                assert(w3[iop - i] == w2[iop - i]);
                assert(w2[iop - i] == op);
            }
            assert(w[icl - i] == ')') by {
                assert(w[icl - i] == seq![')'][0]);
            }
            lemma_seg_index(s, i, w, 0);
            lemma_seg_index(s, i, w, iop - i);
            lemma_seg_index(s, i, w, icl - i);
            assert(s[i] == '(');
            assert(s[iop] == op);
            assert(s[icl] == ')');
            assert(w.subrange(1, 1 + rl.len() as int) == rl) by {
                assert forall|k: int| 0 <= k < rl.len() implies w.subrange(1, 1 + rl.len() as int)[
                    k
                ] == rl[k] by {
                    assert(w.subrange(1, 1 + rl.len() as int)[k] == w[1 + k]);
                    assert(w[1 + k] == w3[1 + k]);
                    assert(w3[1 + k] == w2[1 + k]);
                    assert(w2[1 + k] == w1[1 + k]);
                    assert(w1[1 + k] == rl[k]);
                }
                assert(w.subrange(1, 1 + rl.len() as int) =~= rl);
            }
            let a = 2 + rl.len() as int;
            assert(w.subrange(a, a + rr.len() as int) == rr) by {
                assert forall|k: int| 0 <= k < rr.len() implies w.subrange(a, a + rr.len() as int)[
                    k
                ] == rr[k] by {
                    assert(w.subrange(a, a + rr.len() as int)[k] == w[a + k]);
                    assert(w[a + k] == w3[a + k]);
                    assert(w3[a + k] == rr[k]);
                }
                assert(w.subrange(a, a + rr.len() as int) =~= rr);
            }
            lemma_seg_slice(s, i, w, 1, 1 + rl.len() as int);
            lemma_seg_slice(s, i, w, a, a + rr.len() as int);
            assert(s.subrange(il, il + rl.len() as int) == rl);
            assert(s.subrange(ir, ir + rr.len() as int) == rr);
            // The '(' is pushed; nothing else happens to the state at `i`.
            assert(convert_from(s, i, st, q) == convert_from(s, il, st.push('('), q));
            // The left operand's tokens join the queue; the operator after
            // the segment ends a numeric operand's digit run.
            assert(!is_digit_char(op));
            lemma_scan_segment(*l, s, il, st.push('('), q);
            // The operator meets '(' on top of the stack and goes on top.
            let st1 = st.push('(');
            assert(pop_for_operator(st1, q + pl, op) == (st1, q + pl));
            assert(convert_from(s, iop, st1, q + pl) == convert_from(s, ir, st1.push(op), q + pl));
            // The right operand's tokens join the queue; ')' follows.
            assert(!is_digit_char(')'));
            lemma_scan_segment(*r, s, ir, st1.push(op), q + pl);
            assert((q + pl) + pr =~= q + (pl + pr));
            // The ')' pops the operator onto the queue, discards the '('.
            let st2 = st1.push(op);
            let q2 = q + (pl + pr);
            assert(op != '(');
            assert(st2.drop_last() =~= st1);
            assert(st2.last() == op);
            assert(pop_for_close_paren(st2, q2) == pop_for_close_paren(
                st1,
                q2.push(Output::Operator(op)),
            ));
            assert(st1.drop_last() =~= st);
            assert(st1.last() == '(');
            assert(pop_for_close_paren(st2, q2) == (st, q2.push(Output::Operator(op))));
            assert(convert_from(s, icl, st2, q2) == convert_from(
                s,
                icl + 1,
                st,
                q2.push(Output::Operator(op)),
            ));
            assert(q2.push(Output::Operator(op)) =~= q + postfix(e));
            assert(icl + 1 == j);
        },
    }
}

/// Converting the text of any well-formed, fully parenthesized expression
/// succeeds and yields exactly the expression's postorder token sequence: as
/// many tokens as the expression has operands and operators together, none
/// lost, none duplicated.
pub proof fn lemma_round_trip(e: Expr)
    requires
        expr_wf(e),
    ensures
        convert_full(render(e)) == Some(postfix(e)),
        postfix(e).len() == operand_count(e) + operator_count(e),
{
    let s = render(e);
    assert(s.subrange(0, s.len() as int) =~= s);
    lemma_scan_segment(e, s, 0, Seq::empty(), Seq::empty());
    assert(Seq::<Output>::empty() + postfix(e) =~= postfix(e));
    lemma_postfix_len(e);
}

/// Conversion is a pure function of the input text: two conversions of the
/// same expression, each from independently initialized empty state, yield an
/// identical postfix sequence and an identical result. `execute` pins its
/// final queue to `convert_full` of its input, so two fresh runs agree.
pub proof fn lemma_conversion_repeatable(s: Seq<char>, q1: Seq<Output>, q2: Seq<Output>)
    requires
        convert_full(s) == Some(q1),
        convert_full(s) == Some(q2),
    ensures
        q1 == q2,
        eval_value(q1) == eval_value(q2),
{
}

} // verus!
