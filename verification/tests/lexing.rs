use mr_lisp::lexer::{tokenize, LexError, Token};

#[test]
fn test_tokenize() {
    let input = "(define sqr (* x x))";
    let tokens = vec![
        Token::LParen,
        Token::Keyword("define".to_string()),
        Token::Symbol("sqr".to_string()),
        Token::LParen,
        Token::BinaryOp("*".to_string()),
        Token::Symbol("x".to_string()),
        Token::Symbol("x".to_string()),
        Token::RParen,
        Token::RParen,
    ];
    assert_eq!(tokenize(input).unwrap(), tokens);
}

#[test]
fn lexer_test_area_of_a_circle() {
    let program = "
            (
                (define r 10)
                (define pi 314)
                (* pi (* r r))
            )
        ";
    let tokens = tokenize(program).unwrap();
    assert_eq!(
        tokens,
        vec![
            Token::LParen,
            Token::LParen,
            Token::Keyword("define".to_string()),
            Token::Symbol("r".to_string()),
            Token::Integer(10),
            Token::RParen,
            Token::LParen,
            Token::Keyword("define".to_string()),
            Token::Symbol("pi".to_string()),
            Token::Integer(314),
            Token::RParen,
            Token::LParen,
            Token::BinaryOp("*".to_string()),
            Token::Symbol("pi".to_string()),
            Token::LParen,
            Token::BinaryOp("*".to_string()),
            Token::Symbol("r".to_string()),
            Token::Symbol("r".to_string()),
            Token::RParen,
            Token::RParen,
            Token::RParen
        ]
    );
}

#[test]
fn tokenize_float_literal_is_its_bit_pattern() {
    let tokens = tokenize("3.5").unwrap();
    assert_eq!(tokens, vec![Token::Float((3.5f64).to_bits())]);
}

#[test]
fn tokenize_number_with_two_dots_is_a_hard_error() {
    assert_eq!(tokenize("1.2.3"), Err(LexError::TooManyDots));
}

#[test]
fn tokenize_trailing_dot_float_parses() {
    assert_eq!(
        tokenize("12.").unwrap(),
        vec![Token::Float((12.0f64).to_bits())]
    );
}

#[test]
fn tokenize_leading_dot_is_not_a_number() {
    // A number starts at a digit; a bare '.' silently ends tokenization.
    assert_eq!(tokenize(".5").unwrap(), vec![]);
}

#[test]
fn tokenize_integer_out_of_range_is_a_hard_error() {
    assert_eq!(
        tokenize("99999999999999999999"),
        Err(LexError::IntegerOverflow)
    );
    // The greatest representable integer still tokenizes.
    assert_eq!(
        tokenize("9223372036854775807").unwrap(),
        vec![Token::Integer(i64::MAX)]
    );
}

#[test]
fn tokenize_string_literal_copies_verbatim() {
    assert_eq!(
        tokenize("(\"hi there\")").unwrap(),
        vec![
            Token::LParen,
            Token::String("hi there".to_string()),
            Token::RParen
        ]
    );
}

#[test]
fn tokenize_unterminated_string_ends_silently() {
    assert_eq!(
        tokenize("\"abc").unwrap(),
        vec![Token::String("abc".to_string())]
    );
}

#[test]
fn tokenize_unknown_character_ends_silently() {
    assert_eq!(
        tokenize("(a #whatever").unwrap(),
        vec![Token::LParen, Token::Symbol("a".to_string())]
    );
}

#[test]
fn tokenize_operators_one_character_each() {
    assert_eq!(
        tokenize("+-<").unwrap(),
        vec![
            Token::BinaryOp("+".to_string()),
            Token::BinaryOp("-".to_string()),
            Token::BinaryOp("<".to_string()),
        ]
    );
}

#[test]
fn tokenize_keyword_set_is_exact() {
    assert_eq!(
        tokenize("null? nullx").unwrap(),
        vec![
            Token::Keyword("null?".to_string()),
            Token::Symbol("nullx".to_string()),
        ]
    );
}
