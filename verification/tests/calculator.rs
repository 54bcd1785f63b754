use desk_calculator::compute::{compute_tree, ComputeError};
use desk_calculator::decimal::Dec;
use desk_calculator::parser::{parse, ParseTree, ParsingError};
use desk_calculator::tokenizer::{tokenize, Token};
use rust_decimal::Decimal;
use rust_decimal::MathematicalOps;

fn dec(m: i128, s: u32) -> Dec {
    Dec { mantissa: m, scale: s }
}

fn to_decimal(d: Dec) -> Decimal {
    Decimal::from_i128_with_scale(d.mantissa, d.scale)
}

fn eval(src: &str, ans: Option<Dec>) -> Result<Dec, ComputeError> {
    let toks = tokenize(String::from(src)).expect("tokenize failed");
    let tree = parse(toks).expect("parse failed");
    compute_tree(tree, ans)
}

fn eval_ok(src: &str, ans: Option<Dec>) -> Decimal {
    to_decimal(eval(src, ans).expect("evaluation failed"))
}

fn parse_err(src: &str) -> ParsingError {
    let toks = tokenize(String::from(src)).expect("tokenize failed");
    parse(toks).expect_err("parse unexpectedly succeeded")
}

#[test]
fn adds_exactly() {
    assert_eq!(eval_ok("2+3", None), Decimal::from(5u32));
}

#[test]
fn subtracts_below_zero() {
    assert_eq!(eval_ok("7-9", None), "-2".parse::<Decimal>().unwrap());
}

#[test]
fn multiplies_fractions_exactly() {
    assert_eq!(eval_ok("2.5*4", None), Decimal::from(10u32));
}

#[test]
fn divides_exactly() {
    assert_eq!(eval_ok("7/2", None), "3.5".parse::<Decimal>().unwrap());
}

#[test]
fn colon_divides_too() {
    assert_eq!(eval_ok("6:2", None), Decimal::from(3u32));
}

#[test]
fn ans_without_previous_fails() {
    assert_eq!(eval("ans", None), Err(ComputeError::NoAns));
}

#[test]
fn ans_returns_previous_exactly() {
    let prev = dec(425, 1); // 42.5
    assert_eq!(eval("ans", Some(prev)), Ok(prev));
    assert_eq!(eval_ok("ans+1", Some(dec(41, 0))), Decimal::from(42u32));
}

#[test]
fn division_by_zero_is_div_by_zero() {
    assert_eq!(eval("5/0", None), Err(ComputeError::DivByZero));
}

#[test]
fn division_by_zero_inside_group() {
    assert_eq!(eval("5/(2-2)", None), Err(ComputeError::DivByZero));
}

#[test]
fn unclosed_paren_is_invalid() {
    assert_eq!(parse_err("(2+3"), ParsingError::InvalidParenthesis);
}

#[test]
fn extra_close_paren_is_invalid() {
    assert_eq!(parse_err("(2+3))"), ParsingError::InvalidParenthesis);
}

#[test]
fn bare_close_paren_is_invalid() {
    assert_eq!(parse_err(")"), ParsingError::InvalidParenthesis);
}

#[test]
fn implicit_multiplication_tokens() {
    let implicit = tokenize(String::from("2(3+4)")).unwrap();
    let explicit = tokenize(String::from("2*(3+4)")).unwrap();
    assert_eq!(
        implicit,
        vec![
            Token::Literal(dec(2, 0)),
            Token::ImplMul,
            Token::OpenParenthesis,
            Token::Literal(dec(3, 0)),
            Token::Add,
            Token::Literal(dec(4, 0)),
            Token::CloseParenthesis,
        ]
    );
    assert_eq!(implicit.len(), explicit.len());
    assert_eq!(explicit[1], Token::Mul);
    for (i, t) in implicit.iter().enumerate() {
        if i != 1 {
            assert_eq!(*t, explicit[i]);
        }
    }
}

#[test]
fn implicit_multiplication_evaluates() {
    assert_eq!(eval_ok("2(3+4)", None), Decimal::from(14u32));
    assert_eq!(eval_ok("2*(3+4)", None), Decimal::from(14u32));
}

#[test]
fn implicit_multiplication_before_identifier() {
    let two_pi = Decimal::from(2u32).checked_mul(Decimal::PI).unwrap();
    assert_eq!(eval_ok("2pi", None), two_pi);
}

#[test]
fn implicit_multiplication_before_root() {
    assert_eq!(eval_ok("2√9", None), Decimal::from(6u32));
}

#[test]
fn precedence_mul_before_add() {
    assert_eq!(eval_ok("2+3*4", None), Decimal::from(14u32));
}

#[test]
fn parens_override_precedence() {
    assert_eq!(eval_ok("(2+3)*4", None), Decimal::from(20u32));
}

#[test]
fn power_binds_tighter_than_mul() {
    assert_eq!(eval_ok("2*3^2", None), Decimal::from(18u32));
}

#[test]
fn power_associates_left() {
    assert_eq!(eval_ok("2^3^2", None), Decimal::from(64u32));
}

#[test]
fn factorial_of_group() {
    assert_eq!(eval_ok("(2+3)!", None), Decimal::from(120u32));
}

#[test]
fn factorial_group_token_order() {
    let toks = tokenize(String::from("(2+3)!")).unwrap();
    assert_eq!(
        toks,
        vec![
            Token::Factorial,
            Token::OpenParenthesis,
            Token::Literal(dec(2, 0)),
            Token::Add,
            Token::Literal(dec(3, 0)),
            Token::CloseParenthesis,
        ]
    );
}

#[test]
fn factorial_of_value() {
    assert_eq!(eval_ok("5!", None), Decimal::from(120u32));
    assert_eq!(eval_ok("0!", None), Decimal::from(1u32));
    assert_eq!(eval_ok("3!", None), Decimal::from(6u32));
}

#[test]
fn factorial_in_larger_expression() {
    assert_eq!(eval_ok("2*3!", None), Decimal::from(12u32));
}

#[test]
fn factorial_of_fraction_is_not_real() {
    assert_eq!(eval("5.5!", None), Err(ComputeError::NotReal));
}

#[test]
fn factorial_of_negative_is_not_real() {
    assert_eq!(eval("(0-3)!", None), Err(ComputeError::NotReal));
}

#[test]
fn factorial_overflows_past_the_width() {
    assert_eq!(eval("28!", None), Err(ComputeError::Overflow));
}

#[test]
fn factorial_of_twentyseven_is_exact() {
    let mut expected: u128 = 1;
    for i in 2..=27u128 {
        expected *= i;
    }
    let got = eval("27!", None).unwrap();
    assert_eq!(got, dec(expected as i128, 0));
}

#[test]
fn unknown_identifier_fails_tokenize() {
    assert!(tokenize(String::from("foo(1)")).is_none());
}

#[test]
fn unknown_character_fails_tokenize() {
    assert!(tokenize(String::from("2#3")).is_none());
}

#[test]
fn second_decimal_point_fails_tokenize() {
    assert!(tokenize(String::from("1.2.3")).is_none());
}

#[test]
fn oversized_literal_fails_tokenize() {
    // one more than the largest representable mantissa
    assert!(tokenize(String::from("79228162514264337593543950336")).is_none());
}

#[test]
fn largest_literal_is_exact() {
    let max = "79228162514264337593543950335";
    assert_eq!(eval_ok(max, None), max.parse::<Decimal>().unwrap());
}

#[test]
fn long_fraction_rounds_like_the_decimal_type() {
    let s = "0.00000000000000000000000000005";
    let got = eval_ok(s, None);
    assert_eq!(got, s.parse::<Decimal>().unwrap());
}

#[test]
fn trailing_point_reads_as_integer() {
    assert_eq!(eval_ok("5.", None), Decimal::from(5u32));
}

#[test]
fn repeated_runs_agree() {
    for src in ["2+3*4", "(2+3)!", "sin(1)+cos(2)", "5/0"] {
        let first = eval(src, Some(dec(7, 0)));
        let second = eval(src, Some(dec(7, 0)));
        assert_eq!(first, second);
    }
}

#[test]
fn valid_inputs_never_hit_the_backstop() {
    for src in [
        "1", "pi", "e", "ans", "2+3", "-4", "sin(0)", "(2+3)!", "2(3)", "√16", "log(10)", "2^8",
    ] {
        let toks = tokenize(String::from(src)).unwrap();
        match parse(toks) {
            Ok(tree) => {
                assert_ne!(compute_tree(tree, Some(dec(1, 0))), Err(ComputeError::Unknown));
            }
            Err(e) => {
                assert_ne!(e, ParsingError::Unknown);
            }
        }
    }
}

#[test]
fn pi_and_e_are_the_decimal_constants() {
    assert_eq!(eval_ok("pi", None), Decimal::PI);
    assert_eq!(eval_ok("π", None), Decimal::PI);
    assert_eq!(eval_ok("e", None), Decimal::E);
}

#[test]
fn keywords_ignore_ascii_case() {
    assert_eq!(eval_ok("PI", None), Decimal::PI);
    assert_eq!(eval_ok("Sin(0)", None), Decimal::ZERO);
    assert_eq!(eval_ok("SQRT(4)", None), Decimal::from(2u32));
}

#[test]
fn whitespace_is_skipped() {
    assert_eq!(eval_ok(" 2 +  3 ", None), Decimal::from(5u32));
}

#[test]
fn unary_minus_subtracts_from_zero() {
    assert_eq!(eval_ok("-5", None), "-5".parse::<Decimal>().unwrap());
    assert_eq!(eval_ok("-2+3", None), Decimal::from(1u32));
    assert_eq!(eval_ok("2*(-3)", None), "-6".parse::<Decimal>().unwrap());
}

#[test]
fn operator_without_operand_is_expected_expression() {
    assert_eq!(parse_err("2+"), ParsingError::ExpectedExpression);
    assert_eq!(parse_err("2*-3"), ParsingError::ExpectedExpression);
    assert_eq!(parse_err("sin+2"), ParsingError::ExpectedExpression);
}

#[test]
fn adjacent_values_are_expected_operation() {
    assert_eq!(parse_err("2 3"), ParsingError::ExpectedOperation);
}

#[test]
fn empty_input_is_expected_operation() {
    assert_eq!(parse_err(""), ParsingError::ExpectedOperation);
    assert_eq!(parse_err("()"), ParsingError::ExpectedOperation);
}

#[test]
fn stray_comma_is_the_reserved_unknown() {
    assert_eq!(parse_err(","), ParsingError::Unknown);
}

#[test]
fn sine_matches_the_decimal_type() {
    let expected = Decimal::ONE.checked_sin().unwrap();
    assert_eq!(eval_ok("sin(1)", None), expected);
}

#[test]
fn cosine_of_zero_is_one() {
    let expected = Decimal::ZERO.checked_cos().unwrap();
    assert_eq!(eval_ok("cos(0)", None), expected);
    assert_eq!(eval_ok("2cos(0)", None), expected.checked_mul(Decimal::TWO).unwrap());
}

#[test]
fn tangent_matches_the_decimal_type() {
    let expected = Decimal::ONE.checked_tan().unwrap();
    assert_eq!(eval_ok("tan(1)", None), expected);
}

#[test]
fn natural_log_matches_the_decimal_type() {
    let expected = Decimal::E.checked_ln().unwrap();
    assert_eq!(eval_ok("ln(e)", None), expected);
}

#[test]
fn exp_matches_the_decimal_type() {
    let expected = Decimal::TWO.checked_exp().unwrap();
    assert_eq!(eval_ok("exp(2)", None), expected);
}

#[test]
fn log_of_hundred_matches_the_decimal_type() {
    let expected = Decimal::from(100u32).checked_log10().unwrap();
    assert_eq!(eval_ok("log(100)", None), expected);
}

#[test]
fn log_of_zero_is_overflow() {
    assert_eq!(eval("log(0)", None), Err(ComputeError::Overflow));
}

#[test]
fn square_root_is_exactish() {
    let expected = Decimal::from(4u32).sqrt().unwrap();
    assert_eq!(eval_ok("sqrt(4)", None), expected);
    assert_eq!(eval_ok("√4", None), expected);
}

#[test]
fn square_root_of_negative_is_not_real() {
    assert_eq!(eval("sqrt(0-1)", None), Err(ComputeError::NotReal));
}

#[test]
fn power_matches_the_decimal_type() {
    let expected = Decimal::TWO
        .checked_powd("0.5".parse::<Decimal>().unwrap())
        .unwrap();
    assert_eq!(eval_ok("2^0.5", None), expected);
}

#[test]
fn addition_overflow_is_reported() {
    assert_eq!(
        eval("79228162514264337593543950335*2", None),
        Err(ComputeError::Overflow)
    );
}

fn leaf(t: Token) -> ParseTree {
    ParseTree { token: t, left: None, right: None }
}

#[test]
fn two_argument_log_divides_the_logarithms() {
    // a hand-built tree: log with base two on the left, value eight on the right
    let tree = ParseTree {
        token: Token::Log,
        left: Some(Box::new(leaf(Token::Literal(dec(2, 0))))),
        right: Some(Box::new(leaf(Token::Literal(dec(8, 0))))),
    };
    let expected = Decimal::from(8u32)
        .checked_log10()
        .unwrap()
        .checked_div(Decimal::TWO.checked_log10().unwrap())
        .unwrap();
    assert_eq!(to_decimal(compute_tree(tree, None).unwrap()), expected);
}

#[test]
fn two_argument_log_with_zero_base() {
    let tree = ParseTree {
        token: Token::Log,
        left: Some(Box::new(leaf(Token::Literal(dec(0, 0))))),
        right: Some(Box::new(leaf(Token::Literal(dec(8, 0))))),
    };
    assert_eq!(compute_tree(tree, None), Err(ComputeError::LogBaseZero));
}

#[test]
fn structural_token_in_tree_is_unknown() {
    let tree = leaf(Token::Comma);
    assert_eq!(compute_tree(tree, None), Err(ComputeError::Unknown));
}

#[test]
fn token_value_classification() {
    assert!(Token::Literal(dec(1, 0)).is_value());
    assert!(Token::PI.is_value());
    assert!(Token::E.is_value());
    assert!(Token::Ans.is_value());
    assert!(!Token::Add.is_value());
    assert!(!Token::OpenParenthesis.is_value());
    assert!(!Token::Sin.is_value());
}

#[test]
fn function_operand_must_be_value_or_group() {
    assert_eq!(parse_err("sin sin 2"), ParsingError::ExpectedExpression);
}

#[test]
fn nested_groups_evaluate() {
    assert_eq!(eval_ok("((2+3)*(4-1))", None), Decimal::from(15u32));
}

#[test]
fn deeply_nested_factorial() {
    assert_eq!(eval_ok("((2+1)!)!", None), Decimal::from(720u32));
}
