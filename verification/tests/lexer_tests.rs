use raxio::error::LexError;
use raxio::lexer::{Lexer, Token};

#[test]
fn lex_definition() {
    let input_string = "def pair as f(x, y) => f(y, x)";
    let mut lexer = Lexer::new();
    lexer.lex(input_string);

    let iter = lexer.tokens.iter();
    let test = vec![
        Token::Define,
        Token::Identifier("pair".to_string()),
        Token::As,
        Token::Identifier("f".to_string()),
        Token::OpenParen,
        Token::Identifier("x".to_string()),
        Token::Comma,
        Token::Identifier("y".to_string()),
        Token::CloseParen,
        Token::Derive,
        Token::Identifier("f".to_string()),
        Token::OpenParen,
        Token::Identifier("y".to_string()),
        Token::Comma,
        Token::Identifier("x".to_string()),
        Token::CloseParen,
    ];
    assert!(iter.eq(test.iter()));
}

#[test]
fn lex_keyword_combinations() {
    let input_string = "defas enddef as";
    let mut lexer = Lexer::new();
    lexer.lex(input_string);

    let iter = lexer.tokens.iter();
    let test = vec![
        Token::Identifier("defas".to_string()),
        Token::Identifier("enddef".to_string()),
        Token::As,
    ];
    assert!(iter.eq(test.iter()));
}

#[test]
fn trigger_equal_sign_and_numeric_error() {
    let input_string = " a = a + a";
    let mut lexer = Lexer::new();
    lexer.lex(input_string);

    assert!(lexer.errors.len() == 1);
    let e = lexer.errors.swap_remove(0);
    assert_eq!(
        e,
        LexError::ExpectCharAfter {
            pos: 4,
            expected: '>',
            after: '=',
            got: ' ',
        }
    );
}

#[test]
fn trigger_unterminated_string_literal_error() {
    let input_string = "abc \"path ";
    let mut lexer = Lexer::new();
    lexer.lex(input_string);

    assert!(lexer.errors.len() == 1);
    let e = lexer.errors.swap_remove(0);
    assert_eq!(e, LexError::UnterminatedStringLiteralAtEnd);
}

#[test]
fn lex_infix_math_ops() {
    let input_string = "(5 + 6) * 3-1";
    let mut lexer = Lexer::new();
    lexer.lex(input_string);

    let iter = lexer.tokens.iter();
    let test = vec![
        Token::OpenParen,
        Token::Number(5),
        Token::Add,
        Token::Number(6),
        Token::CloseParen,
        Token::Mul,
        Token::Number(3),
        Token::Sub,
        Token::Number(1),
    ];
    assert!(iter.eq(test.iter()));
}

#[test]
fn lex_empty_input_yields_nothing() {
    let mut lexer = Lexer::new();
    lexer.lex("");
    assert!(lexer.tokens.is_empty());
    assert!(lexer.errors.is_empty());
}

#[test]
fn lex_unknown_character() {
    let mut lexer = Lexer::new();
    lexer.lex("f(?)");
    assert_eq!(lexer.errors.len(), 1);
    assert_eq!(lexer.errors[0], LexError::UnknownChar { pos: 2, got: '?' });
    let test = vec![
        Token::Identifier("f".to_string()),
        Token::OpenParen,
        Token::CloseParen,
    ];
    assert!(lexer.tokens.iter().eq(test.iter()));
}

#[test]
fn lex_number_too_large() {
    let mut lexer = Lexer::new();
    lexer.lex("99999999999999999999999999999999999999999999");
    assert_eq!(lexer.errors.len(), 1);
    assert_eq!(lexer.errors[0], LexError::NumberTooLarge { pos: 0 });
    assert!(lexer.tokens.is_empty());
}

#[test]
fn lex_path_with_punctuation() {
    let mut lexer = Lexer::new();
    lexer.lex("end \"out.txt\"");
    assert!(lexer.errors.is_empty());
    let test = vec![Token::End, Token::Path("out.txt".to_string())];
    assert!(lexer.tokens.iter().eq(test.iter()));
}

#[test]
fn lex_keyword_needs_boundary() {
    let mut lexer = Lexer::new();
    lexer.lex("ask def(x)");
    let test = vec![
        Token::Identifier("ask".to_string()),
        Token::Identifier("def".to_string()),
        Token::OpenParen,
        Token::Identifier("x".to_string()),
        Token::CloseParen,
    ];
    assert!(lexer.tokens.iter().eq(test.iter()));
}

#[test]
fn lexer_cursor_walks_tokens() {
    let mut lexer = Lexer::new();
    lexer.lex("a , b");
    assert!(!lexer.is_at_end());
    assert_eq!(lexer.peek(1), Some(&Token::Comma));
    assert_eq!(lexer.next(), Some(&Token::Identifier("a".to_string())));
    assert_eq!(lexer.next(), Some(&Token::Comma));
    assert_eq!(lexer.next(), Some(&Token::Identifier("b".to_string())));
    assert!(lexer.is_at_end());
    assert_eq!(lexer.next(), None);
    lexer.reset_iter();
    assert_eq!(lexer.peek(0), Some(&Token::Identifier("a".to_string())));
}

#[test]
fn token_descriptions() {
    assert_eq!(Token::Number(5).to_string(), "number literal '5'");
    assert_eq!(
        Token::Identifier("foo".to_string()).to_string(),
        "identifier literal 'foo'"
    );
    assert_eq!(Token::Derive.to_string(), "derive symbol ('=>')");
    assert_eq!(Token::Add.to_string(), "add");
}
