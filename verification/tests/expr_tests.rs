use ordered_tree::infix;
use ordered_tree::postfix;

fn op(o: postfix::Operator) -> postfix::Token {
    postfix::Token::Operator(o)
}

fn num(v: isize) -> postfix::Token {
    postfix::Token::Operand(v)
}

fn iop(o: infix::Operator) -> infix::InfixToken {
    infix::InfixToken::Operator(o)
}

fn inum(v: isize) -> infix::InfixToken {
    infix::InfixToken::Operand(v)
}

fn pop(o: infix::Operator) -> infix::PostfixToken {
    infix::PostfixToken::Operator(o)
}

fn pnum(v: isize) -> infix::PostfixToken {
    infix::PostfixToken::Operand(v)
}

#[test]
fn eval_single_operand() {
    assert_eq!(postfix::eval(&[num(7)]), Some(7));
}

#[test]
fn eval_sum_and_product() {
    // (2 + 3) * 4
    let e = [num(2), num(3), op(postfix::Operator::Add), num(4), op(postfix::Operator::Mul)];
    assert_eq!(postfix::eval(&e), Some(20));
}

#[test]
fn eval_subtraction() {
    let e = [num(2), num(5), op(postfix::Operator::Sub)];
    assert_eq!(postfix::eval(&e), Some(-3));
}

#[test]
fn eval_division_truncates() {
    let e = [num(7), num(2), op(postfix::Operator::Div)];
    assert_eq!(postfix::eval(&e), Some(3));
    let e = [num(-7), num(2), op(postfix::Operator::Div)];
    assert_eq!(postfix::eval(&e), Some(-3));
    let e = [num(7), num(-2), op(postfix::Operator::Div)];
    assert_eq!(postfix::eval(&e), Some(-3));
    let e = [num(-7), num(-2), op(postfix::Operator::Div)];
    assert_eq!(postfix::eval(&e), Some(3));
}

#[test]
fn eval_rejects_bad_counts() {
    assert_eq!(postfix::eval(&[]), None);
    assert_eq!(postfix::eval(&[num(1), num(2)]), None);
    assert_eq!(postfix::eval(&[op(postfix::Operator::Add)]), None);
    assert_eq!(postfix::eval(&[num(1), op(postfix::Operator::Add)]), None);
    assert_eq!(postfix::eval(&[num(1), num(2), op(postfix::Operator::Add), num(3)]), None);
}

#[test]
fn eval_rejects_operator_up_front() {
    // counts match, but a long expression must open with two operands
    let e = [num(1), op(postfix::Operator::Add), num(2), num(3), op(postfix::Operator::Mul)];
    assert_eq!(postfix::eval(&e), None);
}

#[test]
fn is_valid_accepts_plain_expressions() {
    let e = [inum(1), iop(infix::Operator::Add), inum(2)];
    assert!(infix::is_valid(&e));
    let e = [
        infix::InfixToken::LeftParen,
        inum(1),
        iop(infix::Operator::Add),
        inum(2),
        infix::InfixToken::RightParen,
        iop(infix::Operator::Mul),
        inum(3),
    ];
    assert!(infix::is_valid(&e));
}

#[test]
fn is_valid_rejects_malformed_expressions() {
    assert!(!infix::is_valid(&[iop(infix::Operator::Add)]));
    assert!(!infix::is_valid(&[inum(1), iop(infix::Operator::Add)]));
    assert!(!infix::is_valid(&[inum(1), inum(2)]));
    assert!(!infix::is_valid(&[infix::InfixToken::RightParen, inum(1)]));
    assert!(!infix::is_valid(&[infix::InfixToken::LeftParen, inum(1)]));
    let e = [
        infix::InfixToken::LeftParen,
        inum(1),
        infix::InfixToken::RightParen,
        infix::InfixToken::RightParen,
    ];
    assert!(!infix::is_valid(&e));
    let e = [inum(1), iop(infix::Operator::Add), iop(infix::Operator::Mul), inum(2)];
    assert!(!infix::is_valid(&e));
}

#[test]
fn is_higher_ranks_operators() {
    assert!(infix::is_higher(&iop(infix::Operator::Mul), iop(infix::Operator::Add)));
    assert!(infix::is_higher(&iop(infix::Operator::Div), iop(infix::Operator::Mul)));
    assert!(!infix::is_higher(&infix::InfixToken::LeftParen, iop(infix::Operator::Add)));
    assert!(infix::is_higher(&iop(infix::Operator::Add), iop(infix::Operator::Sub)));
    assert!(!infix::is_higher(&iop(infix::Operator::Add), iop(infix::Operator::Mul)));
}

#[test]
fn in_to_post_maps_operators() {
    assert_eq!(infix::in_to_post(iop(infix::Operator::Add)), pop(infix::Operator::Add));
    assert_eq!(infix::in_to_post(iop(infix::Operator::Div)), pop(infix::Operator::Div));
}

#[test]
fn infix_to_postfix_orders_by_precedence() {
    // 1 + 2 * 3  ->  1 2 3 * +
    let e = [inum(1), iop(infix::Operator::Add), inum(2), iop(infix::Operator::Mul), inum(3)];
    let r = infix::infix_to_postfix(&e).unwrap();
    assert_eq!(
        r,
        vec![pnum(1), pnum(2), pnum(3), pop(infix::Operator::Mul), pop(infix::Operator::Add)]
    );
}

#[test]
fn infix_to_postfix_respects_parentheses() {
    // (1 + 2) * 3  ->  1 2 + 3 *
    let e = [
        infix::InfixToken::LeftParen,
        inum(1),
        iop(infix::Operator::Add),
        inum(2),
        infix::InfixToken::RightParen,
        iop(infix::Operator::Mul),
        inum(3),
    ];
    let r = infix::infix_to_postfix(&e).unwrap();
    assert_eq!(
        r,
        vec![pnum(1), pnum(2), pop(infix::Operator::Add), pnum(3), pop(infix::Operator::Mul)]
    );
}

#[test]
fn infix_to_postfix_single_tokens() {
    assert_eq!(infix::infix_to_postfix(&[inum(9)]), Some(vec![pnum(9)]));
    assert_eq!(infix::infix_to_postfix(&[iop(infix::Operator::Add)]), None);
    assert_eq!(infix::infix_to_postfix(&[infix::InfixToken::LeftParen]), None);
    assert_eq!(infix::infix_to_postfix(&[]), None);
}

#[test]
fn infix_to_postfix_rejects_invalid() {
    let e = [inum(1), iop(infix::Operator::Add)];
    assert_eq!(infix::infix_to_postfix(&e), None);
    let e = [inum(1), inum(2), iop(infix::Operator::Add)];
    assert_eq!(infix::infix_to_postfix(&e), None);
}

#[test]
fn infix_to_postfix_left_associative_run() {
    // 1 - 2 + 3  ->  1 2 - 3 +
    let e = [inum(1), iop(infix::Operator::Sub), inum(2), iop(infix::Operator::Add), inum(3)];
    let r = infix::infix_to_postfix(&e).unwrap();
    assert_eq!(
        r,
        vec![pnum(1), pnum(2), pop(infix::Operator::Sub), pnum(3), pop(infix::Operator::Add)]
    );
}

#[test]
fn conversion_then_evaluation() {
    // (4 + 2) / 3 converts, then evaluates to 2
    let e = [
        infix::InfixToken::LeftParen,
        inum(4),
        iop(infix::Operator::Add),
        inum(2),
        infix::InfixToken::RightParen,
        iop(infix::Operator::Div),
        inum(3),
    ];
    let converted = infix::infix_to_postfix(&e).unwrap();
    let tokens: Vec<postfix::Token> = converted
        .iter()
        .map(|t| match t {
            infix::PostfixToken::Operand(a) => num(*a),
            infix::PostfixToken::Operator(infix::Operator::Add) => op(postfix::Operator::Add),
            infix::PostfixToken::Operator(infix::Operator::Sub) => op(postfix::Operator::Sub),
            infix::PostfixToken::Operator(infix::Operator::Mul) => op(postfix::Operator::Mul),
            infix::PostfixToken::Operator(infix::Operator::Div) => op(postfix::Operator::Div),
        })
        .collect();
    assert_eq!(postfix::eval(&tokens), Some(2));
}
