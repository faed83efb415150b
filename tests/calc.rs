use calc::{CalcError, Calculator, Expr, Operator, Token};

fn value(e: &Expr) -> f32 {
    match e {
        Expr::Num(n) => *n as f32,
        Expr::Bin(op, l, r) => {
            let (a, b) = (value(l), value(r));
            match op {
                Operator::Add => a + b,
                Operator::Sub => a - b,
                Operator::Mul => a * b,
                Operator::Div => a / b,
            }
        }
    }
}

fn run(text: &str) -> Result<Option<f32>, CalcError> {
    let tokens = Calculator::parse(text)?;
    let postfix = Calculator::expression(tokens);
    Ok(Calculator::syntax_tree(postfix).map(|t| value(&t)))
}

fn num(n: u32) -> Token {
    Token::Number(n)
}

fn op(o: Operator) -> Token {
    Token::Op(o)
}

fn leaf(n: u32) -> Box<Expr> {
    Box::new(Expr::Num(n))
}

#[test]
fn digits_make_one_number() {
    assert_eq!(Calculator::parse("0").unwrap(), vec![num(0)]);
    assert_eq!(Calculator::parse("12345").unwrap(), vec![num(12345)]);
    assert_eq!(Calculator::parse("4294967295").unwrap(), vec![num(u32::MAX)]);
}

#[test]
fn too_large_number_saturates() {
    assert_eq!(Calculator::parse("4294967296").unwrap(), vec![num(u32::MAX)]);
    assert_eq!(Calculator::parse("99999999999999").unwrap(), vec![num(u32::MAX)]);
}

#[test]
fn tokenize_sum() {
    assert_eq!(
        Calculator::parse("12+3").unwrap(),
        vec![num(12), op(Operator::Add), num(3)]
    );
}

#[test]
fn tokenize_all_kinds() {
    assert_eq!(
        Calculator::parse(" (7 -1)*2/ 3\n").unwrap(),
        vec![
            Token::Bracket('('),
            num(7),
            op(Operator::Sub),
            num(1),
            Token::Bracket(')'),
            op(Operator::Mul),
            num(2),
            op(Operator::Div),
            num(3),
        ]
    );
}

#[test]
fn spaces_split_numbers_into_tokens() {
    assert_eq!(Calculator::parse("1 2").unwrap(), vec![num(12)]);
    assert_eq!(Calculator::parse("").unwrap(), vec![]);
}

#[test]
fn unclosed_bracket_is_mismatched() {
    assert_eq!(Calculator::parse("(1+2"), Err(CalcError::MismatchedParens));
}

#[test]
fn unopened_bracket_is_mismatched() {
    assert_eq!(Calculator::parse("1+2)"), Err(CalcError::MismatchedParens));
    assert_eq!(Calculator::parse(")("), Err(CalcError::MismatchedParens));
}

#[test]
fn bad_character_is_reported() {
    assert_eq!(Calculator::parse("1@2"), Err(CalcError::BadToken('@')));
    assert_eq!(Calculator::parse("2\t"), Err(CalcError::BadToken('\t')));
    assert_eq!(Calculator::parse("(é"), Err(CalcError::BadToken('é')));
}

#[test]
fn first_error_wins() {
    assert_eq!(Calculator::parse(")@"), Err(CalcError::MismatchedParens));
    assert_eq!(Calculator::parse("@)"), Err(CalcError::BadToken('@')));
}

#[test]
fn product_binds_tighter() {
    let tokens = Calculator::parse("3+4*2").unwrap();
    assert_eq!(
        Calculator::expression(tokens),
        vec![num(3), num(4), num(2), op(Operator::Mul), op(Operator::Add)]
    );
}

#[test]
fn brackets_override_precedence() {
    let tokens = Calculator::parse("(3+4)*2").unwrap();
    assert_eq!(
        Calculator::expression(tokens),
        vec![num(3), num(4), op(Operator::Add), num(2), op(Operator::Mul)]
    );
}

#[test]
fn additive_chain_folds_left() {
    let tokens = Calculator::parse("10-4+3-2").unwrap();
    let postfix = Calculator::expression(tokens);
    assert_eq!(
        postfix,
        vec![
            num(10),
            num(4),
            op(Operator::Sub),
            num(3),
            op(Operator::Add),
            num(2),
            op(Operator::Sub),
        ]
    );
    let inner = Expr::Bin(Operator::Sub, leaf(10), leaf(4));
    let middle = Expr::Bin(Operator::Add, Box::new(inner), leaf(3));
    let whole = Expr::Bin(Operator::Sub, Box::new(middle), leaf(2));
    assert_eq!(Calculator::syntax_tree(postfix), Some(whole));
    assert_eq!(run("10-4+3-2"), Ok(Some(7.0)));
}

#[test]
fn multiplicative_chain_folds_left() {
    let tokens = Calculator::parse("8/2*4").unwrap();
    assert_eq!(
        Calculator::expression(tokens),
        vec![num(8), num(2), op(Operator::Div), num(4), op(Operator::Mul)]
    );
    assert_eq!(run("8/2*4"), Ok(Some(16.0)));
}

#[test]
fn evaluate_sum_and_quotient() {
    let sum = Calculator::expression(Calculator::parse("2+3").unwrap());
    let tree = Calculator::syntax_tree(sum).unwrap();
    assert_eq!(tree, Expr::Bin(Operator::Add, leaf(2), leaf(3)));
    assert_eq!(value(&tree), 5.0);
    let quotient = Calculator::expression(Calculator::parse("10/2").unwrap());
    let tree = Calculator::syntax_tree(quotient).unwrap();
    assert_eq!(tree, Expr::Bin(Operator::Div, leaf(10), leaf(2)));
    assert_eq!(value(&tree), 5.0);
}

#[test]
fn lower_operand_is_the_left_one() {
    let tree = Calculator::syntax_tree(vec![num(5), num(3), op(Operator::Sub)]).unwrap();
    assert_eq!(tree, Expr::Bin(Operator::Sub, leaf(5), leaf(3)));
    assert_eq!(value(&tree), 2.0);
}

#[test]
fn empty_postfix_has_no_tree() {
    assert_eq!(Calculator::syntax_tree(vec![]), None);
}

#[test]
fn missing_operand_has_no_tree() {
    assert_eq!(Calculator::syntax_tree(vec![op(Operator::Add)]), None);
    assert_eq!(Calculator::syntax_tree(vec![num(1), op(Operator::Mul)]), None);
    assert_eq!(
        Calculator::syntax_tree(vec![num(1), op(Operator::Add), num(2), num(3)]),
        None
    );
}

#[test]
fn leftover_operands_have_no_tree() {
    assert_eq!(Calculator::syntax_tree(vec![num(1), num(2)]), None);
}

#[test]
fn stray_brackets_are_skipped() {
    assert_eq!(
        Calculator::syntax_tree(vec![Token::Bracket('('), num(4), Token::Bracket(')')]),
        Some(Expr::Num(4))
    );
}

#[test]
fn end_to_end() {
    assert_eq!(run("1+2*3"), Ok(Some(7.0)));
    assert_eq!(run("(1+2)*3"), Ok(Some(9.0)));
    assert_eq!(run("10/(2+3)"), Ok(Some(2.0)));
    assert_eq!(run("("), Err(CalcError::MismatchedParens));
    assert_eq!(run("1+a"), Err(CalcError::BadToken('a')));
}

#[test]
fn end_to_end_invalid_expressions() {
    assert_eq!(run(""), Ok(None));
    assert_eq!(run("1+"), Ok(None));
    assert_eq!(run("()"), Ok(None));
}

#[test]
fn operator_tiers() {
    assert_eq!(Operator::Add.tier(), 0);
    assert_eq!(Operator::Sub.tier(), 0);
    assert_eq!(Operator::Mul.tier(), 1);
    assert_eq!(Operator::Div.tier(), 1);
}

#[test]
fn postfix_drops_brackets_and_keeps_the_rest() {
    let tokens = Calculator::parse("((1+2)*(3-4))/5").unwrap();
    let postfix = Calculator::expression(tokens);
    assert_eq!(
        postfix,
        vec![
            num(1),
            num(2),
            op(Operator::Add),
            num(3),
            num(4),
            op(Operator::Sub),
            op(Operator::Mul),
            num(5),
            op(Operator::Div),
        ]
    );
    assert!(postfix.iter().all(|t| !matches!(t, Token::Bracket(_))));
}

#[test]
fn unbalanced_tokens_keep_open_bracket() {
    let postfix = Calculator::expression(vec![Token::Bracket('('), num(1)]);
    assert_eq!(postfix, vec![num(1), Token::Bracket('(')]);
}
