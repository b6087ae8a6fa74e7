use mr_lisp::parser::{parse, Object, ParseErrKind};

#[test]
fn test_add() {
    let list = parse("(+ 1 2)").unwrap();
    assert_eq!(
        list,
        Object::List(vec![
            Object::BinaryOp("+".to_string()),
            Object::Integer(1),
            Object::Integer(2),
        ])
    );
}

#[test]
fn parser_test_area_of_a_circle() {
    let program = "(
                         (define r 10)
                         (define pi 314)
                         (* pi (* r r))
                       )";
    let list = parse(program).unwrap();
    assert_eq!(
        list,
        Object::List(vec![
            Object::List(vec![
                Object::Keyword("define".to_string()),
                Object::Symbol("r".to_string()),
                Object::Integer(10),
            ]),
            Object::List(vec![
                Object::Keyword("define".to_string()),
                Object::Symbol("pi".to_string()),
                Object::Integer(314),
            ]),
            Object::List(vec![
                Object::BinaryOp("*".to_string()),
                Object::Symbol("pi".to_string()),
                Object::List(vec![
                    Object::BinaryOp("*".to_string()),
                    Object::Symbol("r".to_string()),
                    Object::Symbol("r".to_string()),
                ]),
            ]),
        ])
    );
}

#[test]
fn parse_missing_close_paren_fails() {
    let err = parse("(+ 1 2").unwrap_err();
    assert_eq!(err.kind(), ParseErrKind::ExpectedClose);
}

#[test]
fn parse_missing_open_paren_fails() {
    let err = parse("+ 1 2)").unwrap_err();
    assert_eq!(err.kind(), ParseErrKind::ExpectedOpen);
}

#[test]
fn parse_empty_input_fails() {
    let err = parse("").unwrap_err();
    assert_eq!(err.kind(), ParseErrKind::ExpectedOpen);
}

#[test]
fn parse_reports_lexical_errors() {
    let err = parse("(1.2.3)").unwrap_err();
    assert!(matches!(err.kind(), ParseErrKind::Lex(_)));
}

#[test]
fn parse_float_atom_carries_the_bit_pattern() {
    let list = parse("(3.0)").unwrap();
    assert_eq!(list, Object::List(vec![Object::Float((3.0f64).to_bits())]));
}

#[test]
fn render_integers_and_lists() {
    assert_eq!(Object::Integer(42).to_text(), "42");
    assert_eq!(Object::Integer(-7).to_text(), "-7");
    assert_eq!(Object::Void.to_text(), "Void");
    assert_eq!(Object::Bool(true).to_text(), "true");
    assert_eq!(parse("(+ 1 2)").unwrap().to_text(), "(+ 1 2)");
}

#[test]
fn render_lambda_shows_parameters_then_body() {
    let lam = Object::Lambda(
        vec!["x".to_string(), "y".to_string()],
        vec![
            Object::BinaryOp("+".to_string()),
            Object::Symbol("x".to_string()),
            Object::Symbol("y".to_string()),
        ],
    );
    assert_eq!(lam.to_text(), "Lambda(x y) + x y");
}

#[test]
fn render_distinct_floats_distinctly() {
    let a = Object::Float((2.5f64).to_bits()).to_text();
    let b = Object::Float((3.5f64).to_bits()).to_text();
    assert_ne!(a, b);
}
