//! End-to-end tests of the calculator: the library reduces an input to a
//! tree of binary operations over literals; these tests fold that tree with
//! 32-bit float arithmetic to check the numeric answers, and inspect the
//! typed errors and their spans.

use math_solver::evaluate;
use math_solver::evaluator::{EvaluateError, Operator, Value};
use math_solver::parser::ParseError;
use math_solver::MathError;

fn fold(v: &Value) -> f32 {
    match v {
        Value::Literal(chars) => chars.iter().collect::<String>().parse::<f32>().unwrap(),
        Value::Binary(op, l, r) => {
            let a = fold(l);
            let b = fold(r);
            match op {
                Operator::Add => a + b,
                Operator::Minus => a - b,
                Operator::Multiply => a * b,
                Operator::Divide => a / b,
            }
        }
    }
}

fn eval_num(s: &str) -> f32 {
    fold(&evaluate(s).unwrap())
}

#[test]
fn literal_integer() {
    assert_eq!(eval_num("42"), 42.0);
}

#[test]
fn literal_fraction() {
    assert_eq!(eval_num("3.5"), 3.5);
}

#[test]
fn literal_trailing_dot() {
    assert_eq!(eval_num("2."), 2.0);
}

#[test]
fn literal_leading_zeros() {
    assert_eq!(eval_num("007"), 7.0);
}

#[test]
fn empty_input_is_unexpected_end() {
    let err = evaluate("").unwrap_err();
    assert!(matches!(
        err,
        MathError::ParseError(ParseError::UnexpectedEnd)
    ));
    assert!(err.get_span().is_none());
}

#[test]
fn whitespace_only_is_unexpected_end() {
    assert!(matches!(
        evaluate("   ").unwrap_err(),
        MathError::ParseError(ParseError::UnexpectedEnd)
    ));
}

#[test]
fn simple_addition() {
    assert_eq!(eval_num("2 + 3"), 5.0);
}

#[test]
fn multiply_collapses_before_add() {
    assert_eq!(eval_num("2 + 3 * 4"), 14.0);
}

#[test]
fn multiply_pass_runs_before_divide_pass() {
    // all multiplications collapse first: 8 / (2 * 4), not (8 / 2) * 4
    let v = eval_num("8 / 2 * 4");
    assert_eq!(v, 1.0);
    assert_ne!(v, 16.0);
}

#[test]
fn add_pass_runs_before_minus_pass() {
    // the addition collapses first: 1 - (2 + 3), not (1 - 2) + 3
    assert_eq!(eval_num("1 - 2 + 3"), -4.0);
}

#[test]
fn chained_minus_is_left_to_right() {
    assert_eq!(eval_num("10 - 2 - 3"), 5.0);
}

#[test]
fn bracket_group_evaluates_first() {
    assert_eq!(eval_num("(1 + 2) * 3"), 9.0);
}

#[test]
fn all_bracket_kinds_group() {
    assert_eq!(eval_num("[1 + 2] * {3}"), 9.0);
}

#[test]
fn missing_end_bracket_spans_to_end() {
    let err = evaluate("(1 + 2").unwrap_err();
    match err {
        MathError::ParseError(ParseError::MissingEndBracket { start_bracket, span }) => {
            assert_eq!(start_bracket, '(');
            assert_eq!(span.from, 0);
            // the cursor rests one past the end of input after looking for `)`
            assert_eq!(span.to, 7);
        }
        other => panic!("expected MissingEndBracket, got {:?}", other),
    }
}

#[test]
fn mismatched_bracket_is_missing_end_bracket() {
    let err = evaluate("(1]").unwrap_err();
    match err {
        MathError::ParseError(ParseError::MissingEndBracket { start_bracket, span }) => {
            assert_eq!(start_bracket, '(');
            assert_eq!(span.from, 0);
            assert_eq!(span.to, 3);
        }
        other => panic!("expected MissingEndBracket, got {:?}", other),
    }
}

#[test]
fn stray_closing_bracket_is_trailing_tokens() {
    let err = evaluate("1 + )").unwrap_err();
    match err {
        MathError::ParseError(ParseError::TrailingTokens { span }) => {
            assert_eq!(span.from, 4);
            assert_eq!(span.to, 5);
        }
        other => panic!("expected TrailingTokens, got {:?}", other),
    }
}

#[test]
fn invalid_token_at_its_offset() {
    let err = evaluate("1 $ 2").unwrap_err();
    match err {
        MathError::ParseError(ParseError::InvalidToken { token, span }) => {
            assert_eq!(token, '$');
            assert_eq!(span.from, 2);
            assert_eq!(span.to, 3);
        }
        other => panic!("expected InvalidToken, got {:?}", other),
    }
}

#[test]
fn two_decimal_points_fail_to_parse() {
    let err = evaluate("1.2.3").unwrap_err();
    match err {
        MathError::ParseError(ParseError::ParseFloatError { span }) => {
            assert_eq!(span.from, 0);
            assert_eq!(span.to, 5);
        }
        other => panic!("expected ParseFloatError, got {:?}", other),
    }
}

#[test]
fn unicode_numeral_fails_to_parse() {
    // U+00BD starts a literal (it is numeric) but is no float digit
    assert!(matches!(
        evaluate("½").unwrap_err(),
        MathError::ParseError(ParseError::ParseFloatError { .. })
    ));
}

#[test]
fn underscore_separator_is_consumed() {
    assert_eq!(eval_num("1_000"), 1000.0);
}

#[test]
fn surrounding_whitespace_is_skipped() {
    assert_eq!(eval_num(" \t2\u{a}"), 2.0);
}

#[test]
fn empty_block_is_an_error() {
    let err = evaluate("()").unwrap_err();
    match err {
        MathError::EvaluateError(EvaluateError::EmptyBlock { span }) => {
            assert_eq!(span.from, 0);
            assert_eq!(span.to, 2);
        }
        other => panic!("expected EmptyBlock, got {:?}", other),
    }
}

#[test]
fn bare_operator_is_unexpected_token() {
    assert!(matches!(
        evaluate("+").unwrap_err(),
        MathError::EvaluateError(EvaluateError::UnexpectedToken(_))
    ));
}

#[test]
fn missing_operator_leaves_invalid_expression() {
    let err = evaluate("1 2").unwrap_err();
    match err {
        MathError::EvaluateError(EvaluateError::InvalidExpression { span }) => {
            // the span covers the leftover tail past the first element
            assert_eq!(span.from, 2);
            assert_eq!(span.to, 3);
        }
        other => panic!("expected InvalidExpression, got {:?}", other),
    }
}

#[test]
fn doubly_nested_group_alone_is_invalid() {
    // a lone nested block is never evaluated to a constant
    let err = evaluate("((5))").unwrap_err();
    match err {
        MathError::EvaluateError(EvaluateError::InvalidExpression { span }) => {
            assert_eq!(span.from, 1);
            assert_eq!(span.to, 4);
        }
        other => panic!("expected InvalidExpression, got {:?}", other),
    }
}

#[test]
fn leading_minus_is_an_operator_not_a_sign() {
    assert!(matches!(
        evaluate("-5").unwrap_err(),
        MathError::EvaluateError(EvaluateError::InvalidExpression { .. })
    ));
}

#[test]
fn reduced_output_reevaluates_to_itself() {
    let first = eval_num("2 + 3 * 4");
    let rendered = format!("{}", first);
    assert_eq!(eval_num(&rendered), first);
    let second = eval_num("8 / 2 * 4");
    let rendered = format!("{}", second);
    assert_eq!(eval_num(&rendered), second);
}

#[test]
fn error_span_stays_inside_input() {
    for input in ["1 $ 2", "1 + )", "1.2.3", "()", "1 2", "((5))", "-5"] {
        let err = evaluate(input).unwrap_err();
        let span = err.get_span().unwrap();
        assert!(span.from <= span.to);
        assert!(span.to <= input.chars().count());
    }
}

#[test]
fn nested_groups_combine_with_outer_passes() {
    assert_eq!(eval_num("(2 + 1) * (10 - (2 + 2))"), 18.0);
}

#[test]
fn division_by_zero_is_infinite() {
    assert_eq!(eval_num("1 / 0"), f32::INFINITY);
}

#[test]
fn expression_equality_ignores_spans() {
    let a = math_solver::parser::Expression::parse("1 + 2").unwrap();
    let b = math_solver::parser::Expression::parse(" 1+2 ").unwrap();
    let c = math_solver::parser::Expression::parse("1 + 3").unwrap();
    assert!(a == b);
    assert!(a != c);
}

#[test]
fn parse_gives_token_spans() {
    let e = math_solver::parser::Expression::parse("(1 + 2) * 3").unwrap();
    assert_eq!(e.span.from, 0);
    assert_eq!(e.span.to, 11);
    match e.expression {
        math_solver::parser::ExpressionEnum::Block(parts) => {
            assert_eq!(parts.len(), 3);
            assert_eq!(parts[0].span.from, 0);
            assert_eq!(parts[0].span.to, 7);
            assert_eq!(parts[1].span.from, 8);
            assert_eq!(parts[1].span.to, 9);
            assert_eq!(parts[2].span.from, 10);
            assert_eq!(parts[2].span.to, 11);
        }
        other => panic!("expected a block, got {:?}", other),
    }
}

#[test]
fn reader_cursor_walks_the_characters() {
    let mut reader = math_solver::parser::Reader::from("ab");
    assert!(!reader.is_at_eof());
    assert_eq!(reader.peek(), Some('a'));
    assert_eq!(reader.take(), Some('a'));
    assert_eq!(reader.take(), Some('b'));
    assert!(reader.is_at_eof());
    assert_eq!(reader.take(), None);
}

#[test]
fn span_merge_covers_both() {
    let a = math_solver::Span { from: 3, to: 5 };
    let b = math_solver::Span { from: 1, to: 4 };
    let m = a.merge(b);
    assert_eq!(m.from, 1);
    assert_eq!(m.to, 5);
}

#[test]
fn parse_error_get_span() {
    let err = math_solver::parser::Expression::parse("1 § 2").unwrap_err();
    match err {
        math_solver::parser::ParseError::InvalidToken { token, span } => {
            assert_eq!(token, '§');
            assert_eq!(span.from, 2);
            assert_eq!(span.to, 3);
            assert_eq!(err.get_span().unwrap().from, 2);
        }
        other => panic!("expected InvalidToken, got {:?}", other),
    }
}
