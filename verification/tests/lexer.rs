use engine::bench::function_to_benchmark;
use engine::lexer::tokenize;
use engine::lexer::Lexer;
use engine::token::LexError;
use engine::token::Token;

fn kw(text: &str) -> Token {
    Token::Keyword(text.to_string())
}

fn ident(text: &str) -> Token {
    Token::Identifier(text.to_string())
}

#[test]
fn scenario_let_statement() {
    let tokens = tokenize("let x = 42 + 3;").unwrap();
    assert_eq!(
        tokens,
        vec![
            kw("let"),
            Token::Whitespace,
            ident("x"),
            Token::Whitespace,
            Token::Operator('='),
            Token::Whitespace,
            Token::Number(42),
            Token::Whitespace,
            Token::Operator('+'),
            Token::Whitespace,
            Token::Number(3),
            Token::Punctuation(';'),
        ]
    );
}

#[test]
fn scenario_fn_keyword() {
    assert_eq!(tokenize("fn").unwrap(), vec![kw("fn")]);
}

#[test]
fn scenario_lets_is_identifier() {
    assert_eq!(tokenize("lets").unwrap(), vec![ident("lets")]);
}

#[test]
fn scenario_alphanumeric_underscore_run() {
    assert_eq!(tokenize("a1_b2").unwrap(), vec![ident("a1_b2")]);
}

#[test]
fn scenario_unknown_characters() {
    assert_eq!(
        tokenize("@#").unwrap(),
        vec![Token::Unknown('@'), Token::Unknown('#')]
    );
}

#[test]
fn scenario_empty_input() {
    assert_eq!(tokenize("").unwrap(), vec![]);
}

#[test]
fn keyword_requires_full_match() {
    assert_eq!(tokenize("Let").unwrap(), vec![ident("Let")]);
    assert_eq!(tokenize("let").unwrap(), vec![kw("let")]);
    assert_eq!(
        tokenize("let fn").unwrap(),
        vec![kw("let"), Token::Whitespace, kw("fn")]
    );
}

#[test]
fn whitespace_one_token_per_character() {
    let tokens = tokenize("a  b\n\t c").unwrap();
    let whitespace = tokens
        .iter()
        .filter(|t| matches!(t, Token::Whitespace))
        .count();
    assert_eq!(whitespace, 5);
    assert_eq!(
        tokens,
        vec![
            ident("a"),
            Token::Whitespace,
            Token::Whitespace,
            ident("b"),
            Token::Whitespace,
            Token::Whitespace,
            Token::Whitespace,
            ident("c"),
        ]
    );
}

#[test]
fn number_value_ignores_leading_zeros() {
    assert_eq!(tokenize("007").unwrap(), vec![Token::Number(7)]);
}

#[test]
fn number_runs_are_maximal() {
    assert_eq!(
        tokenize("12x34").unwrap(),
        vec![Token::Number(12), ident("x34")]
    );
    assert_eq!(tokenize("1x").unwrap(), vec![Token::Number(1), ident("x")]);
}

#[test]
fn operators_and_punctuation_single_characters() {
    assert_eq!(
        tokenize("+-*/=").unwrap(),
        vec![
            Token::Operator('+'),
            Token::Operator('-'),
            Token::Operator('*'),
            Token::Operator('/'),
            Token::Operator('='),
        ]
    );
    assert_eq!(
        tokenize("(){},;").unwrap(),
        vec![
            Token::Punctuation('('),
            Token::Punctuation(')'),
            Token::Punctuation('{'),
            Token::Punctuation('}'),
            Token::Punctuation(','),
            Token::Punctuation(';'),
        ]
    );
}

#[test]
fn tokenizing_twice_gives_identical_sequences() {
    let input = "fn add(a, b) { a + b }";
    let first = tokenize(input).unwrap();
    let second = tokenize(input).unwrap();
    assert_eq!(first, second);
}

#[test]
fn largest_number_fits() {
    assert_eq!(
        tokenize("9223372036854775807").unwrap(),
        vec![Token::Number(i64::MAX)]
    );
}

#[test]
fn number_overflow_is_reported() {
    let err = tokenize("9223372036854775808").unwrap_err();
    assert_eq!(
        err,
        LexError::NumberOverflow {
            text: "9223372036854775808".to_string(),
            position: 0,
        }
    );
}

#[test]
fn number_overflow_carries_run_and_position() {
    let err = tokenize("x 99999999999999999999;").unwrap_err();
    assert_eq!(
        err,
        LexError::NumberOverflow {
            text: "99999999999999999999".to_string(),
            position: 2,
        }
    );
}

#[test]
fn unicode_alphanumerics_continue_identifiers() {
    assert_eq!(tokenize("a\u{e9}1").unwrap(), vec![ident("a\u{e9}1")]);
}

#[test]
fn unicode_symbols_are_unknown() {
    assert_eq!(
        tokenize("a\u{2192}b").unwrap(),
        vec![ident("a"), Token::Unknown('\u{2192}'), ident("b")]
    );
}

#[test]
fn spans_reconstruct_the_input() {
    let input = "let total = x1 + 25;";
    let tokens = tokenize(input).unwrap();
    let mut rebuilt = String::new();
    for token in &tokens {
        match token {
            Token::Keyword(text) => rebuilt.push_str(text),
            Token::Identifier(text) => rebuilt.push_str(text),
            Token::Number(value) => rebuilt.push_str(&format!("{}", value)),
            Token::Operator(symbol) => rebuilt.push(*symbol),
            Token::Punctuation(symbol) => rebuilt.push(*symbol),
            Token::Whitespace => rebuilt.push(' '),
            Token::Unknown(c) => rebuilt.push(*c),
        }
    }
    assert_eq!(rebuilt, input);
}

#[test]
fn lexer_methods_match_free_function() {
    let mut lexer = Lexer::new("let x");
    let tokens = lexer.tokenize().unwrap();
    assert_eq!(tokens, tokenize("let x").unwrap());
    let again = lexer.tokenize().unwrap();
    assert_eq!(again, vec![]);
}

#[test]
fn is_keyword_distinguishes_variants() {
    assert!(kw("let").is_keyword());
    assert!(!ident("let_binding").is_keyword());
    assert!(!Token::Whitespace.is_keyword());
}

#[test]
fn benchmark_counts_the_full_range() {
    assert_eq!(function_to_benchmark(), u16::MAX);
}
