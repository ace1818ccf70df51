//! The language front end: lexing, parsing, evaluation.

use lispcad::eval::EvalError;
use lispcad::eval::EvaluatedValue;
use lispcad::eval::Fatal;
use lispcad::eval::NativeValue;
use lispcad::eval::values_eq;
use lispcad::interp::evaluate;
use lispcad::interp::evaluate_with_output;
use lispcad::lex::InputToken;
use lispcad::lex::lex;
use lispcad::num::MICRO;
use lispcad::num::Num;
use lispcad::parse::ParseError;
use lispcad::parse::SExpression;
use lispcad::parse::Value;
use lispcad::parse::parse;
use lispcad::parse::value_eq;

fn run(src: &str) -> Vec<EvaluatedValue> {
    evaluate(parse(lex(src)).expect("parse")).expect("evaluate")
}

fn num(whole: i64) -> EvaluatedValue {
    EvaluatedValue::Number(Num { raw: whole * MICRO })
}

fn assert_number(v: &EvaluatedValue, raw: i64) {
    match v {
        EvaluatedValue::Number(n) => assert_eq!(n.raw, raw),
        other => panic!("expected a number, got {:?}", other),
    }
}

#[test]
fn lex_simple_form() {
    let toks = lex("(+ 1 2)");
    assert_eq!(toks.len(), 5);
    assert!(matches!(toks[0], InputToken::StartParen));
    match &toks[1] {
        InputToken::Identifier(s) => assert_eq!(s, "+"),
        other => panic!("expected identifier, got {:?}", other),
    }
    match &toks[2] {
        InputToken::Number(n) => assert_eq!(n.raw, MICRO),
        other => panic!("expected number, got {:?}", other),
    }
    match &toks[3] {
        InputToken::Number(n) => assert_eq!(n.raw, 2 * MICRO),
        other => panic!("expected number, got {:?}", other),
    }
    assert!(matches!(toks[4], InputToken::EndParen));
}

#[test]
fn lex_comment_swallows_line() {
    let toks = lex("; 1 two (\n3");
    for t in &toks {
        match t {
            InputToken::Number(n) => assert_eq!(n.raw, 3 * MICRO),
            InputToken::Identifier(s) => panic!("comment leaked an identifier {:?}", s),
            InputToken::StartParen | InputToken::EndParen => {
                panic!("comment leaked a marker")
            }
            InputToken::Comment(_) => {}
        }
    }
    assert!(toks.iter().any(|t| matches!(t, InputToken::Comment(_))));
}

#[test]
fn lex_whitespace_only_is_empty() {
    assert!(lex("  \t\n  ").is_empty());
}

#[test]
fn lex_decimals_and_signs() {
    let toks = lex("1.5 -2 +0.25 .5 5.");
    let raws: Vec<i64> = toks
        .iter()
        .map(|t| match t {
            InputToken::Number(n) => n.raw,
            other => panic!("expected number, got {:?}", other),
        })
        .collect();
    assert_eq!(raws, vec![1_500_000, -2_000_000, 250_000, 500_000, 5_000_000]);
}

#[test]
fn lex_non_numbers_are_identifiers() {
    let toks = lex("1.2.3 abc - 1e5");
    assert!(toks.iter().all(|t| matches!(t, InputToken::Identifier(_))));
}

#[test]
fn parse_two_identifiers() {
    let values = parse(lex("(a b)")).expect("parse");
    assert_eq!(values.len(), 1);
    match &values[0] {
        Value::SExpression(se) => {
            assert_eq!(se.body.len(), 2);
            match (&se.body[0], &se.body[1]) {
                (Value::Identifier(a), Value::Identifier(b)) => {
                    assert_eq!(a, "a");
                    assert_eq!(b, "b");
                }
                other => panic!("expected identifiers, got {:?}", other),
            }
        }
        other => panic!("expected a group, got {:?}", other),
    }
}

#[test]
fn parse_unbalanced_open_is_eof() {
    match parse(lex("(")) {
        Err(ParseError::EOF(_)) => {}
        other => panic!("expected EOF, got {:?}", other),
    }
}

#[test]
fn parse_stray_close_is_unexpected() {
    match parse(lex(")")) {
        Err(ParseError::UnexpectedToken(InputToken::EndParen, 0)) => {}
        other => panic!("expected the stray close marker, got {:?}", other),
    }
}

#[test]
fn eval_set_then_reference() {
    let out = run("(set x 5) x");
    assert!(matches!(out[0], EvaluatedValue::Nil));
    assert_number(&out[1], 5 * MICRO);
}

#[test]
fn eval_arithmetic() {
    let out = run("(+ 1 2 3) (- 5) (- 10 4 1)");
    assert_number(&out[0], 6 * MICRO);
    assert_number(&out[1], -5 * MICRO);
    assert_number(&out[2], 5 * MICRO);
}

#[test]
fn eval_arithmetic_casts() {
    let out = run("(+ t nil 1)");
    assert_number(&out[0], 2 * MICRO);
}

#[test]
fn eval_conditional() {
    let out = run("(? 0 1 2) (? 1 1 2) (? nil 1) (? t 1)");
    assert_number(&out[0], 2 * MICRO);
    assert_number(&out[1], MICRO);
    assert!(matches!(out[2], EvaluatedValue::Nil));
    assert_number(&out[3], MICRO);
}

#[test]
fn eval_equality_cross_type() {
    let out = run("(== 0 nil) (== 1 t) (== 1 2) (== (1 2) (1 2))");
    assert_number(&out[0], MICRO);
    assert_number(&out[1], MICRO);
    assert!(matches!(out[2], EvaluatedValue::Nil));
    assert_number(&out[3], MICRO);
}

#[test]
fn eval_nth() {
    let out = run("(nth 1 (10 11 12)) (nth 5 (10 11 12))");
    assert_number(&out[0], 11 * MICRO);
    assert!(matches!(out[1], EvaluatedValue::Nil));
}

#[test]
fn eval_vector_literal() {
    let out = run("(1 2)");
    match &out[0] {
        EvaluatedValue::Vector(items) => {
            assert_eq!(items.len(), 2);
            assert!(values_eq(&items[0], &num(1)));
            assert!(values_eq(&items[1], &num(2)));
        }
        other => panic!("expected a vector, got {:?}", other),
    }
}

#[test]
fn eval_empty_group_is_empty_vector() {
    let out = run("()");
    match &out[0] {
        EvaluatedValue::Vector(items) => assert!(items.is_empty()),
        other => panic!("expected a vector, got {:?}", other),
    }
}

#[test]
fn eval_closure_with_default() {
    let out = run("(fn f (a (b 10)) (+ a b)) (f 5) (f 5 1)");
    assert!(matches!(out[0], EvaluatedValue::Nil));
    assert_number(&out[1], 15 * MICRO);
    assert_number(&out[2], 6 * MICRO);
}

#[test]
fn eval_missing_argument_degrades_to_nil() {
    let (result, output) = evaluate_with_output(parse(lex("(fn f (a) a) (f)")).expect("parse"));
    let out = result.expect("evaluate");
    assert!(matches!(out[1], EvaluatedValue::Nil));
    assert_eq!(output.len(), 1);
    assert_eq!(output[0], "missing argument with no default value");
}

#[test]
fn eval_function_sees_globals_not_caller_locals() {
    let out = run("(set g 7) (fn f () g) (f)");
    assert_number(&out[2], 7 * MICRO);
}

#[test]
fn eval_unresolved_identifier_is_fatal() {
    match evaluate(parse(lex("nope")).expect("parse")) {
        Err(EvalError::Fatal(Fatal::UnresolvedIdentifier)) => {}
        other => panic!("expected the unresolved-identifier failure, got {:?}", other),
    }
}

#[test]
fn eval_set_non_identifier_is_unexpected_expression() {
    match evaluate(parse(lex("(set 1 2)")).expect("parse")) {
        Err(EvalError::UnexpectedExpression(Value::Number(n))) => assert_eq!(n.raw, MICRO),
        other => panic!("expected the unexpected-expression failure, got {:?}", other),
    }
}

#[test]
fn eval_wrong_arity_is_fatal() {
    match evaluate(parse(lex("(== 1)")).expect("parse")) {
        Err(EvalError::Fatal(Fatal::Arity)) => {}
        other => panic!("expected the arity failure, got {:?}", other),
    }
    match evaluate(parse(lex("(set x)")).expect("parse")) {
        Err(EvalError::Fatal(Fatal::Arity)) => {}
        other => panic!("expected the arity failure, got {:?}", other),
    }
}

#[test]
fn eval_extrude_of_extrude_is_unsupported() {
    let src = "(extrude 1 (extrude 1 (polygon ((0 0) (0 1) (1 1) (1 0)))))";
    match evaluate(parse(lex(src)).expect("parse")) {
        Err(EvalError::Fatal(Fatal::UnsupportedNative)) => {}
        other => panic!("expected the unsupported-native failure, got {:?}", other),
    }
}

#[test]
fn eval_nth_type_errors_are_fatal() {
    match evaluate(parse(lex("(nth t (1 2))")).expect("parse")) {
        Err(EvalError::Fatal(Fatal::Type)) => {}
        other => panic!("expected the type failure, got {:?}", other),
    }
    match evaluate(parse(lex("(nth 1 5)")).expect("parse")) {
        Err(EvalError::Fatal(Fatal::Type)) => {}
        other => panic!("expected the type failure, got {:?}", other),
    }
}

#[test]
fn eval_polygon_captures_current_position() {
    let src = "(set CURRENT_POSITION (1 2 3)) (polygon ((0 0) (0 1) (1 1) (1 0)))";
    let out = run(src);
    match &out[1] {
        EvaluatedValue::Native(NativeValue::Polygon(p)) => {
            assert_eq!(p.0.len(), 4);
            assert_eq!((p.2.0.raw, p.2.1.raw, p.2.2.raw), (MICRO, 2 * MICRO, 3 * MICRO));
            assert!(p.1.is_none());
        }
        other => panic!("expected a polygon, got {:?}", other),
    }
}

#[test]
fn eval_polygon_needs_three_points() {
    match evaluate(parse(lex("(polygon ((0 0) (0 1)))")).expect("parse")) {
        Err(EvalError::Fatal(Fatal::Arity)) => {}
        other => panic!("expected the arity failure, got {:?}", other),
    }
}

#[test]
fn eval_print_logs_debug_line() {
    let (result, output) =
        evaluate_with_output(parse(lex("(print 5 nil)")).expect("parse"));
    let out = result.expect("evaluate");
    assert!(matches!(out[0], EvaluatedValue::Nil));
    assert_eq!(output, vec!["Number(5) None".to_string()]);
}

#[test]
fn eval_function_may_call_itself() {
    // A self-call guarded by a conditional terminates normally.
    let out = run("(fn f ((n 0)) (? n (f) 42)) (f)");
    assert_number(&out[1], 42 * MICRO);
}

#[test]
fn sexpression_accessors() {
    let se = SExpression::new(vec![
        Value::Identifier("set".to_string()),
        Value::Number(Num { raw: MICRO }),
    ]);
    assert!(se.first().is_some());
    assert_eq!(se.is_first(&Value::Identifier("set".to_string())), Some(true));
    assert_eq!(se.is_first(&Value::Identifier("fn".to_string())), Some(false));
    assert_eq!(se.body().len(), 2);
    assert!(value_eq(&se.body()[1], &Value::Number(Num { raw: MICRO })));
    let empty = SExpression::new(Vec::new());
    assert!(empty.first().is_none());
    assert_eq!(empty.is_first(&Value::Identifier("set".to_string())), None);
}
