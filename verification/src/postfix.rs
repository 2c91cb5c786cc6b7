//! Evaluation of postfix arithmetic expressions.
//!
//! A postfix expression is a sequence of operand and operator tokens.  It
//! is evaluated left to right with a value stack: an operand is pushed, an
//! operator pops its two arguments and pushes the result.  `eval` first
//! screens the token sequence by counting (a valid expression has exactly
//! one operator fewer than operands, and a long expression starts with two
//! operands) and answers `None` when the screen fails.

use vstd::prelude::*;

verus! {

/// An arithmetic operator.
#[derive(Clone, Copy, Debug, PartialEq, Eq, Structural)]
pub enum Operator {
    /// `+`
    Add,
    /// `-`
    Sub,
    /// `*`
    Mul,
    /// `/`
    Div,
}

/// A token of a postfix expression.
#[derive(Clone, Copy, Debug, PartialEq, Eq, Structural)]
pub enum Token {
    Operator(Operator),
    Operand(isize),
}

/// Division that truncates toward zero, as machine division does.
pub open spec fn div_trunc(a: int, b: int) -> int {
    let m = (if a < 0 { -a } else { a }) / (if b < 0 { -b } else { b });
    if (a < 0) == (b < 0) {
        m
    } else {
        -m
    }
}

/// What one operator makes of its two stack arguments, the deeper one
/// first.
pub open spec fn apply_op(op: Operator, a: int, b: int) -> int {
    match op {
        Operator::Add => a + b,
        Operator::Sub => a - b,
        Operator::Mul => a * b,
        Operator::Div => div_trunc(a, b),
    }
}

/// How many of the first `n` tokens are operands.
pub open spec fn operand_count(s: Seq<Token>, n: int) -> int
    decreases n,
{
    if n <= 0 {
        0
    } else {
        operand_count(s, n - 1) + (if s[n - 1] is Operand { 1int } else { 0int })
    }
}

/// How many of the first `n` tokens are operators.
pub open spec fn operator_count(s: Seq<Token>, n: int) -> int
    decreases n,
{
    if n <= 0 {
        0
    } else {
        operator_count(s, n - 1) + (if s[n - 1] is Operator { 1int } else { 0int })
    }
}

/// The screen the evaluator applies before running the stack machine:
/// exactly one operator fewer than operands, and, for expressions longer
/// than two tokens, two operands up front.
pub open spec fn counts_ok(s: Seq<Token>) -> bool {
    &&& operator_count(s, s.len() as int) + 1 == operand_count(s, s.len() as int)
    &&& s.len() > 2 ==> s[0] is Operand && s[1] is Operand
}

/// The value stack after the first `n` tokens, over unbounded integers;
/// `None` when an operator finds fewer than two values or divides by zero.
pub open spec fn sim_stack(s: Seq<Token>, n: int) -> Option<Seq<int>>
    decreases n,
{
    if n <= 0 {
        Some(Seq::empty())
    } else {
        match sim_stack(s, n - 1) {
            None => None,
            Some(st) => match s[n - 1] {
                Token::Operand(a) => Some(st.push(a as int)),
                Token::Operator(op) => {
                    if st.len() < 2 {
                        None
                    } else if op is Div && st.last() == 0 {
                        None
                    } else {
                        Some(st.drop_last().drop_last().push(
                            apply_op(op, st[st.len() - 2], st.last()),
                        ))
                    }
                },
            },
        }
    }
}

/// Whether the stack after the first `n` tokens exists and holds machine
/// integers only.
pub open spec fn stack_ok(s: Seq<Token>, n: int) -> bool {
    match sim_stack(s, n) {
        Some(st) => forall|i: int| 0 <= i < st.len() ==> isize::MIN <= #[trigger] st[i] <= isize::MAX,
        None => false,
    }
}

/// Whether the whole run of the stack machine stays defined and within
/// machine integers: no underflow, no division by zero, no overflow.
pub open spec fn sim_ok(s: Seq<Token>) -> bool {
    forall|n: int| 0 <= n <= s.len() ==> #[trigger] stack_ok(s, n)
}

/// The value the stack machine leaves on its stack, when it leaves exactly
/// one.
pub open spec fn sim_result(s: Seq<Token>) -> int {
    match sim_stack(s, s.len() as int) {
        Some(st) => st.last(),
        None => 0,
    }
}

/// The integer views of a stack of machine integers.
pub closed spec fn vals(v: Seq<isize>) -> Seq<int> {
    v.map(|i: int, x: isize| x as int)
}

/// Division of machine integers, truncating toward zero.  The computation
/// takes the quotient of the absolute values in a wider type, so each
/// division the machine performs has operands of one sign.
fn div_trunc_exec(a: isize, b: isize) -> (r: isize)
    requires
        b != 0,
        isize::MIN <= div_trunc(a as int, b as int) <= isize::MAX,
    ensures
        r as int == div_trunc(a as int, b as int),
{
    let aa: i128 = a as i128;
    let bb: i128 = b as i128;
    let na: i128 = if aa < 0 { -aa } else { aa };
    let nb: i128 = if bb < 0 { -bb } else { bb };
    proof {
        vstd::arithmetic::div_mod::lemma_div_nonincreasing(na as int, nb as int);
        vstd::arithmetic::div_mod::lemma_div_pos_is_pos(na as int, nb as int);
    }
    let q: i128 = na / nb;
    let sq: i128 = if (a < 0) == (b < 0) {
        q
    } else {
        -q
    };
    sq as isize
}

/// Evaluates the postfix expression.
///
/// Input: a postfix expression, where each element contains an operator or
/// operand.  Returns `Some(value)` when the expression passes the counting
/// screen, and `None` otherwise.  An expression that passes the screen but
/// would underflow the stack, divide by zero or leave the machine's
/// integer range is ruled out by the precondition, as the evaluation would
/// otherwise abort.
pub fn eval(tokens: &[Token]) -> (r: Option<isize>)
    requires
        counts_ok(tokens@) ==> sim_ok(tokens@),
    ensures
        counts_ok(tokens@) ==> (r matches Some(v) && v as int == sim_result(tokens@)),
        !counts_ok(tokens@) ==> r is None,
{
    let length = tokens.len();
    let mut digits: usize = 0;
    let mut operators: usize = 0;
    let mut x: usize = 0;
    while x < length
        invariant
            x <= length,
            length == tokens@.len(),
            digits == operand_count(tokens@, x as int),
            operators == operator_count(tokens@, x as int),
            digits + operators == x,
        decreases length - x,
    {
        match tokens[x] {
            Token::Operand(_) => {
                digits = digits + 1;
            },
            Token::Operator(_) => {
                operators = operators + 1;
            },
        }
        x = x + 1;
    }
    if digits == 0 || operators != digits - 1 {
        return None;
    }
    if length > 2 {
        match tokens[0] {
            Token::Operator(_) => {
                return None;
            },
            _ => {},
        }
        match tokens[1] {
            Token::Operator(_) => {
                return None;
            },
            _ => {},
        }
    }
    proof {
        assert(counts_ok(tokens@));
    }
    let mut st: Vec<isize> = Vec::new();
    let mut x: usize = 0;
    while x < length
        invariant
            x <= length,
            length == tokens@.len(),
            counts_ok(tokens@),
            sim_ok(tokens@),
            sim_stack(tokens@, x as int) == Some(vals(st@)),
            st@.len() == operand_count(tokens@, x as int) - operator_count(tokens@, x as int),
        decreases length - x,
    {
        let ghost s = tokens@;
        let ghost st0 = st@;
        proof {
            assert(stack_ok(s, x + 1));
        }
        match tokens[x] {
            Token::Operand(a) => {
                st.push(a);
                proof {
                    assert(vals(st@) =~= vals(st0).push(a as int));
                }
            },
            Token::Operator(op) => {
                proof {
                    assert(vals(st0).len() >= 2);
                }
                let b = st.pop().unwrap();
                let a = st.pop().unwrap();
                let ghost old_vals = vals(st0);
                proof {
                    assert(old_vals[old_vals.len() - 1] == b as int);
                    assert(old_vals[old_vals.len() - 2] == a as int);
                    let st1 = sim_stack(s, x + 1).unwrap();
                    assert(st1.last() == apply_op(op, a as int, b as int));
                    assert(isize::MIN <= st1[st1.len() - 1] <= isize::MAX);
                }
                let c: isize = match op {
                    Operator::Add => a + b,
                    Operator::Sub => a - b,
                    Operator::Mul => a * b,
                    Operator::Div => div_trunc_exec(a, b),
                };
                st.push(c);
                proof {
                    assert(vals(st@) =~= old_vals.drop_last().drop_last().push(
                        apply_op(op, a as int, b as int),
                    ));
                }
            },
        }
        x = x + 1;
    }
    proof {
        assert(st@.len() == 1);
        assert(vals(st@)[0] == st@[0] as int);
    }
    Some(st[0])
}

} // verus!
