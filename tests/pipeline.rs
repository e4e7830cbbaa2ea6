use calculator::env::Environment;
use calculator::lexer::tokenize;
use calculator::pipeline::parse_line;
use calculator::rpn::to_rpn;
use calculator::token::{precedence, CalcError, Token};
use calculator::tree::{to_tree, BinOp, Expr};

fn num(s: &str) -> Token {
    Token::Num(s.to_string())
}

fn value(e: &Expr) -> f64 {
    match e {
        Expr::Number(s) => s.parse().unwrap(),
        Expr::Binary(op, a, b) => {
            let (a, b) = (value(a), value(b));
            match op {
                BinOp::Add => a + b,
                BinOp::Sub => a - b,
                BinOp::Mul => a * b,
                BinOp::Div => a / b,
                BinOp::Pow => a.powf(b),
            }
        }
        Expr::Variable(_) | Expr::Assignment(_, _) => panic!("no variables on this path"),
    }
}

fn line_value(s: &str) -> f64 {
    value(&parse_line(s).unwrap())
}

#[test]
fn precedence_table() {
    assert_eq!(precedence('+'), 1);
    assert_eq!(precedence('-'), 1);
    assert_eq!(precedence('*'), 2);
    assert_eq!(precedence('/'), 2);
    assert_eq!(precedence('^'), 3);
}

#[test]
fn tokenize_splits_numbers_and_operators() {
    let t = tokenize("3 + 4 * 2").unwrap();
    assert_eq!(t, vec![num("3"), Token::Op('+'), num("4"), Token::Op('*'), num("2")]);
}

#[test]
fn tokenize_keeps_decimal_points() {
    let t = tokenize("1.5*.25").unwrap();
    assert_eq!(t, vec![num("1.5"), Token::Op('*'), num(".25")]);
}

#[test]
fn tokenize_skips_whitespace_inside_numerals() {
    let t = tokenize(" 1 2\t+3 ").unwrap();
    assert_eq!(t, vec![num("12"), Token::Op('+'), num("3")]);
}

#[test]
fn tokenize_empty_line() {
    assert_eq!(tokenize("").unwrap(), vec![]);
    assert_eq!(tokenize("   ").unwrap(), vec![]);
}

#[test]
fn tokenize_passes_unknown_characters_as_operators() {
    let t = tokenize("(1)").unwrap();
    assert_eq!(t, vec![Token::Op('('), num("1"), Token::Op(')')]);
}

#[test]
fn tokenize_rejects_two_decimal_points() {
    assert_eq!(tokenize("1 + 1.2.3"), Err(CalcError::MalformedNumber("1.2.3".to_string())));
}

#[test]
fn tokenize_rejects_a_lone_point() {
    assert_eq!(tokenize("2 * ."), Err(CalcError::MalformedNumber(".".to_string())));
}

#[test]
fn tokenize_reports_the_first_malformed_numeral() {
    assert_eq!(tokenize("1..2 + 3..4"), Err(CalcError::MalformedNumber("1..2".to_string())));
}

#[test]
fn postfix_of_mixed_precedence() {
    let rpn = to_rpn(tokenize("3 + 4 * 2").unwrap()).unwrap();
    assert_eq!(rpn, vec![num("3"), num("4"), num("2"), Token::Op('*'), Token::Op('+')]);
}

#[test]
fn postfix_groups_equal_precedence_to_the_left() {
    let rpn = to_rpn(tokenize("8 - 3 - 2").unwrap()).unwrap();
    assert_eq!(rpn, vec![num("8"), num("3"), Token::Op('-'), num("2"), Token::Op('-')]);
    let rpn = to_rpn(tokenize("2 ^ 3 ^ 2").unwrap()).unwrap();
    assert_eq!(rpn, vec![num("2"), num("3"), Token::Op('^'), num("2"), Token::Op('^')]);
}

#[test]
fn postfix_rejects_unsupported_operator() {
    assert_eq!(to_rpn(tokenize("3 ( 4").unwrap()), Err(CalcError::UnsupportedOperator('(')));
    assert_eq!(to_rpn(tokenize("x = 5").unwrap()), Err(CalcError::UnsupportedOperator('x')));
}

#[test]
fn tree_of_postfix() {
    let rpn = vec![num("3"), num("4"), num("2"), Token::Op('*'), Token::Op('+')];
    let e = to_tree(&rpn).unwrap();
    assert_eq!(
        format!("{:?}", e),
        format!(
            "{:?}",
            Expr::Binary(
                BinOp::Add,
                Box::new(Expr::Number("3".to_string())),
                Box::new(Expr::Binary(
                    BinOp::Mul,
                    Box::new(Expr::Number("4".to_string())),
                    Box::new(Expr::Number("2".to_string()))
                ))
            )
        )
    );
}

#[test]
fn tree_missing_operand() {
    let rpn = vec![num("3"), Token::Op('+')];
    assert!(matches!(to_tree(&rpn), Err(CalcError::MissingOperand)));
}

#[test]
fn tree_leftover_values() {
    let rpn = vec![num("3"), num("4")];
    assert!(matches!(to_tree(&rpn), Err(CalcError::InvalidExpression)));
    assert!(matches!(to_tree(&vec![]), Err(CalcError::InvalidExpression)));
}

#[test]
fn tree_unsupported_operator() {
    let rpn = vec![num("3"), num("4"), Token::Op('%')];
    assert!(matches!(to_tree(&rpn), Err(CalcError::UnsupportedOperator('%'))));
}

#[test]
fn three_plus_four_times_two_is_eleven() {
    assert_eq!(line_value("3 + 4 * 2"), 11.0);
}

#[test]
fn power_groups_to_the_left() {
    assert_eq!(line_value("2 ^ 3 ^ 2"), 64.0);
    assert_ne!(line_value("2 ^ 3 ^ 2"), 512.0);
}

#[test]
fn division_by_zero_reads_as_a_division() {
    let e = parse_line("10 / 0").unwrap();
    assert_eq!(
        format!("{:?}", e),
        format!(
            "{:?}",
            Expr::Binary(
                BinOp::Div,
                Box::new(Expr::Number("10".to_string())),
                Box::new(Expr::Number("0".to_string()))
            )
        )
    );
}

#[test]
fn tokenize_skips_unicode_whitespace() {
    let t = tokenize("1\u{A0}2").unwrap();
    assert_eq!(t, vec![num("12")]);
    let t = tokenize("3\u{3000}+\u{2009}4\u{85}").unwrap();
    assert_eq!(t, vec![num("3"), Token::Op('+'), num("4")]);
    assert_eq!(tokenize("\u{2028}\u{1680}\u{202F}\u{205F}\u{2029}\x0B\x0C").unwrap(), vec![]);
}

#[test]
fn non_whitespace_symbol_is_an_operator() {
    let t = tokenize("1\u{200B}2").unwrap();
    assert_eq!(t, vec![num("1"), Token::Op('\u{200B}'), num("2")]);
}

#[test]
fn parse_line_rejects_variables() {
    assert!(matches!(parse_line("x + 2"), Err(CalcError::UnsupportedOperator('x'))));
    assert!(matches!(parse_line("5 = 5"), Err(CalcError::UnsupportedOperator('='))));
}

#[test]
fn precedence_matches_left_to_right_reading() {
    assert_eq!(line_value("1 + 2 * 3 - 4 / 2"), 1.0 + 2.0 * 3.0 - 4.0 / 2.0);
    assert_eq!(line_value("2 * 3 ^ 2 + 1"), 2.0 * 9.0 + 1.0);
    assert_eq!(line_value("100 / 10 / 5"), 2.0);
    assert_eq!(line_value("7"), 7.0);
}

#[test]
fn reading_twice_gives_the_same_result() {
    let a = parse_line("1.5 * 4 - 2 ^ 2").unwrap();
    let b = parse_line("1.5 * 4 - 2 ^ 2").unwrap();
    assert_eq!(format!("{:?}", a), format!("{:?}", b));
    assert_eq!(value(&a), value(&b));
}

#[test]
fn parse_line_failures() {
    assert!(matches!(parse_line(""), Err(CalcError::InvalidExpression)));
    assert!(matches!(parse_line("3 + + 4"), Err(CalcError::MissingOperand)));
    assert!(matches!(parse_line("3 ) 4"), Err(CalcError::UnsupportedOperator(')'))));
    assert!(matches!(parse_line("1.2.3 ) 4"), Err(CalcError::MalformedNumber(_))));
}

#[test]
fn binop_symbols() {
    assert_eq!(BinOp::from_char('^'), Some(BinOp::Pow));
    assert_eq!(BinOp::from_char('/'), Some(BinOp::Div));
    assert_eq!(BinOp::from_char('='), None);
    assert_eq!(BinOp::Sub.symbol(), '-');
    assert_eq!(BinOp::Mul.symbol(), '*');
}

#[test]
fn environment_assign_then_read() {
    let mut env: Environment<f64> = Environment::new();
    assert_eq!(env.get("x"), None);
    env.assign("x", 5.0);
    assert_eq!(env.get("x"), Some(5.0));
    assert_eq!(env.get("x").unwrap() + 2.0, 7.0);
}

#[test]
fn environment_undefined_name() {
    let mut env: Environment<f64> = Environment::new();
    env.assign("x", 1.0);
    assert_eq!(env.get("y"), None);
    assert_eq!(env.get("X"), None);
}

#[test]
fn environment_overwrites() {
    let mut env: Environment<f64> = Environment::new();
    env.assign("x", 1.0);
    env.assign("y", 2.0);
    env.assign("x", 3.0);
    assert_eq!(env.get("x"), Some(3.0));
    assert_eq!(env.get("y"), Some(2.0));
}
