//! Conversion of infix arithmetic expressions to postfix form.
//!
//! An infix expression is a sequence of tokens: operands, the four
//! arithmetic operators, and parentheses.  `is_valid` decides whether such
//! a sequence is a well-formed infix expression, and `infix_to_postfix`
//! converts a well-formed expression to its postfix form with an explicit
//! operator stack (the shunting-yard method).

use vstd::prelude::*;

verus! {

/// An arithmetic operator.
#[derive(Clone, Copy, Debug, PartialEq, Eq, Structural)]
pub enum Operator {
    /// `+`
    Add,
    /// `-`
    Sub,
    /// `*`
    Mul,
    /// `/`
    Div,
}

/// A token of an infix expression.
#[derive(Clone, Copy, Debug, PartialEq, Eq, Structural)]
pub enum InfixToken {
    Operator(Operator),
    Operand(isize),
    LeftParen,
    RightParen,
}

/// A token of a postfix expression.
#[derive(Clone, Copy, Debug, PartialEq, Eq, Structural)]
pub enum PostfixToken {
    Operator(Operator),
    Operand(isize),
}

/// Whether the operator atop the stack (`token1`) binds at least as
/// tightly as the incoming token (`token2`), so that it must be moved to
/// the output first.  A left parenthesis never leaves the stack this way.
pub open spec fn spec_is_higher(token1: InfixToken, token2: InfixToken) -> bool {
    if token1 == InfixToken::Operator(Operator::Mul) || token1 == InfixToken::Operator(Operator::Div) {
        true
    } else if token1 == InfixToken::LeftParen {
        false
    } else {
        token2 == InfixToken::Operator(Operator::Add) || token2 == InfixToken::Operator(Operator::Sub)
    }
}

/// Decides whether `token1`, at the top of the operator stack, has
/// priority over the incoming `token2`.
pub fn is_higher(token1: &InfixToken, token2: InfixToken) -> (r: bool)
    ensures
        r == spec_is_higher(*token1, token2),
{
    if let InfixToken::Operator(Operator::Mul) = *token1 {
        true
    } else if let InfixToken::Operator(Operator::Div) = *token1 {
        true
    } else if let InfixToken::LeftParen = *token1 {
        false
    } else if let InfixToken::Operator(Operator::Add) = token2 {
        true
    } else if let InfixToken::Operator(Operator::Sub) = token2 {
        true
    } else {
        false
    }
}

/// The parenthesis balance of the first `n` tokens: opening parentheses
/// counted up, closing ones down.
pub open spec fn paren_balance(s: Seq<InfixToken>, n: int) -> int
    decreases n,
{
    if n <= 0 {
        0
    } else {
        paren_balance(s, n - 1) + (if s[n - 1] is LeftParen {
            1int
        } else if s[n - 1] is RightParen {
            -1int
        } else {
            0int
        })
    }
}

/// What may follow what: an operand or an opening parenthesis never follows
/// an operand or a closing parenthesis, and an operator or a closing
/// parenthesis never follows an operator or an opening parenthesis.
pub open spec fn adjacency_ok(prev: InfixToken, cur: InfixToken) -> bool {
    &&& (cur is Operand || cur is LeftParen) ==> !(prev is Operand || prev is RightParen)
    &&& (cur is Operator || cur is RightParen) ==> !(prev is Operator || prev is LeftParen)
}

/// A well-formed infix expression: it opens with an operand or an opening
/// parenthesis, closes with an operand or a closing parenthesis, every
/// neighbouring pair is admissible, and the parentheses balance without
/// ever dipping below zero.
pub open spec fn spec_is_valid(s: Seq<InfixToken>) -> bool {
    &&& !(s[0] is Operator) && !(s[0] is RightParen)
    &&& !(s[s.len() - 1] is Operator) && !(s[s.len() - 1] is LeftParen)
    &&& forall|x: int| 1 <= x < s.len() ==> adjacency_ok(s[x - 1], #[trigger] s[x])
    &&& forall|n: int| 0 <= n <= s.len() ==> #[trigger] paren_balance(s, n) >= 0
    &&& paren_balance(s, s.len() as int) == 0
}

/// Whether two neighbouring tokens are admissible.
fn adjacent_ok(prev: &InfixToken, cur: &InfixToken) -> (r: bool)
    ensures
        r == adjacency_ok(*prev, *cur),
{
    match *cur {
        InfixToken::Operand(_) | InfixToken::LeftParen => match *prev {
            InfixToken::Operand(_) | InfixToken::RightParen => false,
            _ => true,
        },
        InfixToken::Operator(_) | InfixToken::RightParen => match *prev {
            InfixToken::Operator(_) | InfixToken::LeftParen => false,
            _ => true,
        },
    }
}

/// Decides whether the token sequence is a well-formed infix expression.
pub fn is_valid(tokens: &[InfixToken]) -> (r: bool)
    requires
        tokens@.len() > 0,
    ensures
        r == spec_is_valid(tokens@),
{
    let ghost s = tokens@;
    let length = tokens.len();
    match tokens[0] {
        InfixToken::Operator(_) => {
            return false;
        },
        InfixToken::RightParen => {
            return false;
        },
        _ => {},
    }
    let mut count: usize = match tokens[0] {
        InfixToken::LeftParen => 1,
        _ => 0,
    };
    let mut x: usize = 1;
    proof {
        assert(paren_balance(s, 0) == 0);
        assert(count == paren_balance(s, 1));
        assert(forall|n: int| 0 <= n <= 1 ==> #[trigger] paren_balance(s, n) >= 0);
    }
    while x < length
        invariant
            1 <= x <= length,
            length == s.len(),
            s == tokens@,
            !(s[0] is Operator) && !(s[0] is RightParen),
            count == paren_balance(s, x as int),
            count <= x,
            forall|n: int| 0 <= n <= x ==> #[trigger] paren_balance(s, n) >= 0,
            forall|i: int| 1 <= i < x ==> adjacency_ok(s[i - 1], #[trigger] s[i]),
        decreases length - x,
    {
        if !adjacent_ok(&tokens[x - 1], &tokens[x]) {
            return false;
        }
        match tokens[x] {
            InfixToken::LeftParen => {
                count = count + 1;
            },
            InfixToken::RightParen => {
                if count == 0 {
                    proof {
                        assert(paren_balance(s, x + 1) < 0);
                    }
                    return false;
                }
                count = count - 1;
            },
            _ => {},
        }
        x = x + 1;
    }
    match tokens[length - 1] {
        InfixToken::Operator(_) => {
            return false;
        },
        InfixToken::LeftParen => {
            return false;
        },
        _ => {},
    }
    if count != 0 {
        return false;
    }
    true
}

/// Rewrites an operator token of the infix alphabet as a postfix token.
/// Only operators can be rewritten, and only operators are ever handed in:
/// the operator stack never holds operands, and parentheses are consumed
/// in matching pairs before they would reach this point.
pub fn in_to_post(token: InfixToken) -> (r: PostfixToken)
    requires
        token matches InfixToken::Operator(_),
    ensures
        r == PostfixToken::Operator(token->Operator_0),
{
    match token {
        InfixToken::Operator(op) => PostfixToken::Operator(op),
        _ => vstd::pervasive::unreached(),
    }
}

/// The postfix token an infix token becomes on the output; only operators
/// and operands ever reach the output.
pub open spec fn to_postfix(t: InfixToken) -> PostfixToken {
    match t {
        InfixToken::Operator(op) => PostfixToken::Operator(op),
        InfixToken::Operand(a) => PostfixToken::Operand(a),
        InfixToken::LeftParen => PostfixToken::Operand(0),
        InfixToken::RightParen => PostfixToken::Operand(0),
    }
}

/// The conversion state after an incoming operator: every stacked token
/// with priority over it moves to the output, then the operator is
/// stacked.
pub open spec fn shunt_operator(out: Seq<PostfixToken>, st: Seq<InfixToken>, op: Operator) -> (
    Seq<PostfixToken>,
    Seq<InfixToken>,
)
    decreases st.len(),
{
    if st.len() > 0 && spec_is_higher(st.last(), InfixToken::Operator(op)) {
        shunt_operator(out.push(to_postfix(st.last())), st.drop_last(), op)
    } else {
        (out, st.push(InfixToken::Operator(op)))
    }
}

/// The conversion state after a closing parenthesis: stacked tokens move
/// to the output down to the matching opening parenthesis, which is
/// discarded.
pub open spec fn shunt_right_paren(out: Seq<PostfixToken>, st: Seq<InfixToken>) -> (
    Seq<PostfixToken>,
    Seq<InfixToken>,
)
    decreases st.len(),
{
    if st.len() == 0 {
        (out, st)
    } else if st.last() is LeftParen {
        (out, st.drop_last())
    } else {
        shunt_right_paren(out.push(to_postfix(st.last())), st.drop_last())
    }
}

/// One step of the conversion: operands go to the output, opening
/// parentheses to the stack; operators and closing parentheses move part
/// of the stack first.
pub open spec fn shunt_step(out: Seq<PostfixToken>, st: Seq<InfixToken>, t: InfixToken) -> (
    Seq<PostfixToken>,
    Seq<InfixToken>,
)
{
    match t {
        InfixToken::Operand(a) => (out.push(PostfixToken::Operand(a)), st),
        InfixToken::LeftParen => (out, st.push(InfixToken::LeftParen)),
        InfixToken::RightParen => shunt_right_paren(out, st),
        InfixToken::Operator(op) => shunt_operator(out, st, op),
    }
}

/// The conversion state after the first `n` tokens.
pub open spec fn shunt_run(s: Seq<InfixToken>, n: int) -> (Seq<PostfixToken>, Seq<InfixToken>)
    decreases n,
{
    if n <= 0 {
        (Seq::empty(), Seq::empty())
    } else {
        let r = shunt_run(s, n - 1);
        shunt_step(r.0, r.1, s[n - 1])
    }
}

/// The conversion's final flush: every token left on the stack moves to
/// the output, top first.
pub open spec fn shunt_drain(out: Seq<PostfixToken>, st: Seq<InfixToken>) -> Seq<PostfixToken>
    decreases st.len(),
{
    if st.len() == 0 {
        out
    } else {
        shunt_drain(out.push(to_postfix(st.last())), st.drop_last())
    }
}

/// The postfix form of an infix expression: run the conversion over all
/// tokens, then flush the stack.
pub open spec fn spec_infix_to_postfix(s: Seq<InfixToken>) -> Seq<PostfixToken> {
    let r = shunt_run(s, s.len() as int);
    shunt_drain(r.0, r.1)
}

/// The operator stack holds only operators and opening parentheses.
spec fn stack_items_ok(st: Seq<InfixToken>) -> bool {
    forall|i: int| 0 <= i < st.len() ==> (#[trigger] st[i]) is Operator || st[i] is LeftParen
}

/// How many opening parentheses the stack holds.
spec fn lp_count(st: Seq<InfixToken>) -> int
    decreases st.len(),
{
    if st.len() == 0 {
        0
    } else {
        lp_count(st.drop_last()) + (if st.last() is LeftParen {
            1int
        } else {
            0int
        })
    }
}

/// A stack with no opening parenthesis has none anywhere in it.
proof fn lemma_lp_zero(st: Seq<InfixToken>)
    requires
        lp_count(st) == 0,
        forall|i: int| 0 <= i < st.len() ==> lp_count(#[trigger] st.subrange(0, i)) >= 0,
    ensures
        forall|i: int| 0 <= i < st.len() ==> !((#[trigger] st[i]) is LeftParen),
    decreases st.len(),
{
    if st.len() > 0 {
        assert(lp_count(st.drop_last()) >= 0) by {
            assert(st.subrange(0, st.len() - 1) =~= st.drop_last());
        }
        assert(!(st.last() is LeftParen));
        assert forall|i: int| 0 <= i < st.drop_last().len() implies lp_count(
            #[trigger] st.drop_last().subrange(0, i),
        ) >= 0 by {
            assert(st.drop_last().subrange(0, i) =~= st.subrange(0, i));
        }
        lemma_lp_zero(st.drop_last());
        assert forall|i: int| 0 <= i < st.len() implies !((#[trigger] st[i]) is LeftParen) by {
            if i < st.len() - 1 {
                assert(st.drop_last()[i] == st[i]);
            }
        }
    }
}

/// Transforms an infix expression to a postfix expression.
///
/// Outputs `Some(postfix)` for a well-formed infix expression and `None`
/// otherwise: for the empty sequence, for a single token that is not an
/// operand, and for any sequence that `is_valid` rejects.
pub fn infix_to_postfix(tokens: &[InfixToken]) -> (r: Option<Vec<PostfixToken>>)
    ensures
        tokens@.len() == 0 ==> r is None,
        tokens@.len() > 0 && !spec_is_valid(tokens@) ==> r is None,
        tokens@.len() > 0 && spec_is_valid(tokens@) ==> (r matches Some(v) && v@
            == spec_infix_to_postfix(tokens@)),
{
    let ghost s = tokens@;
    let mut result: Vec<PostfixToken> = Vec::new();
    let mut temp: Vec<InfixToken> = Vec::new();
    if tokens.len() == 0 {
        return None;
    }
    if tokens.len() == 1 {
        match tokens[0] {
            InfixToken::Operand(a) => {
                result.push(PostfixToken::Operand(a));
                proof {
                    assert(paren_balance(s, 0) == 0);
                    assert(paren_balance(s, 1) == 0);
                    assert(forall|n: int| 0 <= n <= s.len() ==> #[trigger] paren_balance(s, n)
                        >= 0);
                    assert(spec_is_valid(s));
                    assert(shunt_run(s, 0) == (Seq::<PostfixToken>::empty(), Seq::<
                        InfixToken,
                    >::empty()));
                    assert(spec_infix_to_postfix(s) =~= result@);
                }
                return Some(result);
            },
            _ => {
                proof {
                    assert(!spec_is_valid(s));
                }
                return None;
            },
        }
    }
    if !is_valid(tokens) {
        return None;
    }
    let length = tokens.len();
    let mut x: usize = 0;
    proof {
        assert(shunt_run(s, 0) == (Seq::<PostfixToken>::empty(), Seq::<InfixToken>::empty()));
        assert(paren_balance(s, 0) == 0);
        assert(lp_count(temp@) == 0);
    }
    while x < length
        invariant
            x <= length,
            length == s.len(),
            s == tokens@,
            spec_is_valid(s),
            result@ == shunt_run(s, x as int).0,
            temp@ == shunt_run(s, x as int).1,
            stack_items_ok(temp@),
            lp_count(temp@) == paren_balance(s, x as int),
        decreases length - x,
    {
        let ghost out_x = shunt_run(s, x as int).0;
        let ghost st_x = shunt_run(s, x as int).1;
        match tokens[x] {
            InfixToken::Operand(a) => {
                result.push(PostfixToken::Operand(a));
            },
            InfixToken::LeftParen => {
                temp.push(InfixToken::LeftParen);
                proof {
                    assert(temp@.drop_last() =~= st_x);
                }
            },
            InfixToken::RightParen => {
                proof {
                    assert(paren_balance(s, x + 1) >= 0);
                    assert(lp_count(temp@) >= 1);
                }
                while temp.len() != 0 && !(matches!(temp[temp.len() - 1], InfixToken::LeftParen))
                    invariant
                        stack_items_ok(temp@),
                        lp_count(temp@) == paren_balance(s, x as int),
                        shunt_right_paren(result@, temp@) == shunt_right_paren(out_x, st_x),
                    decreases temp@.len(),
                {
                    let ghost t0 = temp@;
                    let item = temp.pop().unwrap();
                    proof {
                        assert(t0[t0.len() - 1] is Operator);
                    }
                    result.push(in_to_post(item));
                    proof {
                        assert(temp@ =~= t0.drop_last());
                    }
                }
                proof {
                    assert(lp_count(Seq::<InfixToken>::empty()) == 0);
                    assert(temp@.len() != 0);
                }
                let ghost t1 = temp@;
                temp.pop();
                proof {
                    assert(temp@ =~= t1.drop_last());
                    assert(t1.last() is LeftParen);
                    assert(shunt_right_paren(result@, t1) == (result@, temp@));
                }
            },
            InfixToken::Operator(op) => {
                while temp.len() != 0 && is_higher(
                    &temp[temp.len() - 1],
                    InfixToken::Operator(op),
                )
                    invariant
                        stack_items_ok(temp@),
                        lp_count(temp@) == paren_balance(s, x as int),
                        shunt_operator(result@, temp@, op) == shunt_operator(out_x, st_x, op),
                    decreases temp@.len(),
                {
                    let ghost t0 = temp@;
                    let item = temp.pop().unwrap();
                    proof {
                        assert(!(t0.last() is LeftParen));
                        assert(t0[t0.len() - 1] is Operator);
                    }
                    result.push(in_to_post(item));
                    proof {
                        assert(temp@ =~= t0.drop_last());
                    }
                }
                let ghost t1 = temp@;
                temp.push(InfixToken::Operator(op));
                proof {
                    assert(temp@.drop_last() =~= t1);
                    assert(shunt_operator(result@, t1, op) == (result@, temp@));
                }
            },
        }
        x = x + 1;
        proof {
            assert(shunt_run(s, x as int)
                == shunt_step(shunt_run(s, x - 1).0, shunt_run(s, x - 1).1, s[x - 1]));
        }
    }
    proof {
        assert(paren_balance(s, s.len() as int) == 0);
        assert forall|i: int| 0 <= i < temp@.len() implies lp_count(
            #[trigger] temp@.subrange(0, i),
        ) >= 0 by {
            lemma_lp_prefix(temp@, i);
        }
        lemma_lp_zero(temp@);
    }
    while temp.len() != 0
        invariant
            stack_items_ok(temp@),
            forall|i: int| 0 <= i < temp@.len() ==> !((#[trigger] temp@[i]) is LeftParen),
            shunt_drain(result@, temp@) == shunt_drain(
                shunt_run(s, s.len() as int).0,
                shunt_run(s, s.len() as int).1,
            ),
        decreases temp@.len(),
    {
        let ghost t0 = temp@;
        let item = temp.pop().unwrap();
        proof {
            assert(t0[t0.len() - 1] is Operator);
        }
        result.push(in_to_post(item));
        proof {
            assert(temp@ =~= t0.drop_last());
        }
    }
    proof {
        assert(result@ == spec_infix_to_postfix(s));
    }
    Some(result)
}

/// Every prefix of a stack of operators and opening parentheses counts a
/// nonnegative number of opening parentheses.
proof fn lemma_lp_prefix(st: Seq<InfixToken>, i: int)
    requires
        0 <= i <= st.len(),
    ensures
        lp_count(st.subrange(0, i)) >= 0,
    decreases i,
{
    if i > 0 {
        lemma_lp_prefix(st, i - 1);
        assert(st.subrange(0, i).drop_last() =~= st.subrange(0, i - 1));
    }
}

} // verus!
