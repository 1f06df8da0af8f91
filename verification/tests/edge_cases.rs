use minilex::lexer::{LexError, LexErrorKind, Lexer, Token, TokenKind};
use minilex::util::{Annotation, Loc};

fn at(kind: TokenKind, start: usize, end: usize) -> Token {
    Token::new(kind, Loc(start, end))
}

fn name(text: &str, start: usize, end: usize) -> Token {
    at(TokenKind::Identifier(text.to_string()), start, end)
}

#[test]
fn empty_input_has_no_tokens() {
    let mut lexer = Lexer::new("");
    assert_eq!(lexer.lex(), Ok(&vec![]));
    assert!(lexer.tokens.is_empty());
}

#[test]
fn whitespace_alone_has_no_tokens() {
    let mut lexer = Lexer::new(" \n\t  \n");
    assert_eq!(lexer.lex(), Ok(&vec![]));
}

#[test]
fn a_run_ends_at_the_end_of_input() {
    let mut lexer = Lexer::new("abc");
    assert_eq!(lexer.lex(), Ok(&vec![name("abc", 0, 3)]));
    let mut lexer = Lexer::new("42");
    assert_eq!(lexer.lex(), Ok(&vec![at(TokenKind::Number(42), 0, 2)]));
    let mut lexer = Lexer::new("x  ");
    assert_eq!(lexer.lex(), Ok(&vec![name("x", 0, 1)]));
}

#[test]
fn underscore_begins_an_identifier() {
    let mut lexer = Lexer::new("_ _a __9");
    assert_eq!(lexer.lex(), Ok(&vec![name("_", 0, 1), name("_a", 2, 4), name("__9", 5, 8)]));
}

#[test]
fn every_letter_and_digit_continues_an_identifier() {
    let text = "abcdefghijklmnopqrstuvwxyzABCDEFGHIJKLMNOPQRSTUVWXYZ_0123456789";
    let mut lexer = Lexer::new(text);
    assert_eq!(lexer.lex(), Ok(&vec![name(text, 0, 63)]));
}

#[test]
fn bytes_next_to_the_letters_and_digits_are_invalid() {
    for c in ['@', '[', '`', '{', ':', '.', ',', '\'', '"', '\u{0}', '\u{7f}', '\r', '!', '<'] {
        let text = format!("a{}", c);
        let mut lexer = Lexer::new(&text);
        assert_eq!(lexer.lex(), Err(LexError::invalid_char(c, Loc(1, 2))));
    }
}

#[test]
fn number_values_are_decimal() {
    let mut lexer = Lexer::new("0 7 10 007 1234567890");
    assert_eq!(
        lexer.lex(),
        Ok(&vec![
            at(TokenKind::Number(0), 0, 1),
            at(TokenKind::Number(7), 2, 3),
            at(TokenKind::Number(10), 4, 6),
            at(TokenKind::Number(7), 7, 10),
            at(TokenKind::Number(1234567890), 11, 21),
        ]),
    );
}

#[test]
fn the_largest_number_is_exact() {
    let text = format!("{}", usize::MAX);
    let mut lexer = Lexer::new(&text);
    assert_eq!(lexer.lex(), Ok(&vec![at(TokenKind::Number(usize::MAX), 0, text.len())]));
    let below = format!("{}", usize::MAX - 1);
    let mut lexer = Lexer::new(&below);
    assert_eq!(lexer.lex(), Ok(&vec![at(TokenKind::Number(usize::MAX - 1), 0, below.len())]));
}

#[test]
fn a_number_too_large_is_held_at_the_maximum() {
    let text = format!("{}0", usize::MAX);
    let mut lexer = Lexer::new(&text);
    assert_eq!(lexer.lex(), Ok(&vec![at(TokenKind::Number(usize::MAX), 0, text.len())]));

    let mut lexer = Lexer::new("x=99999999999999999999999999999999999999999;");
    assert_eq!(
        lexer.lex(),
        Ok(&vec![
            name("x", 0, 1),
            at(TokenKind::Assignment, 1, 2),
            at(TokenKind::Number(usize::MAX), 2, 43),
            at(TokenKind::Semicolon, 43, 44),
        ]),
    );

    // One more than the maximum, digit by digit.
    let digits = format!("{}", usize::MAX);
    let mut bumped: Vec<u8> = digits.clone().into_bytes();
    let mut i = bumped.len();
    while i > 0 {
        i -= 1;
        if bumped[i] == b'9' {
            bumped[i] = b'0';
        } else {
            bumped[i] += 1;
            break;
        }
    }
    let bumped = String::from_utf8(bumped).unwrap();
    assert!(bumped.parse::<usize>().is_err());
    let mut lexer = Lexer::new(&bumped);
    assert_eq!(lexer.lex(), Ok(&vec![at(TokenKind::Number(usize::MAX), 0, bumped.len())]));
}

#[test]
fn tokens_before_an_error_are_discarded() {
    let mut lexer = Lexer::new("1 $ 2");
    let result = lexer.lex();
    assert!(result.is_err());
    assert_eq!(result, Err(LexError::invalid_char('$', Loc(2, 3))));
    assert!(lexer.tokens.is_empty());

    let mut lexer = Lexer::new("a + b ? c");
    assert_eq!(lexer.lex(), Err(LexError::invalid_char('?', Loc(6, 7))));
    assert!(lexer.tokens.is_empty());
}

#[test]
fn scanning_again_after_an_error_gives_the_same_error() {
    let mut lexer = Lexer::new("1 $ 2");
    assert_eq!(lexer.lex(), Err(LexError::invalid_char('$', Loc(2, 3))));
    assert_eq!(lexer.lex(), Err(LexError::invalid_char('$', Loc(2, 3))));
    assert!(lexer.tokens.is_empty());
}

#[test]
fn tokens_already_held_survive_an_error() {
    let mut lexer = Lexer::new("b c $");
    lexer.tokens.push(name("a", 0, 1));
    assert_eq!(lexer.lex(), Err(LexError::invalid_char('$', Loc(4, 5))));
    assert_eq!(lexer.tokens, vec![name("a", 0, 1)]);
}

#[test]
fn scanning_again_at_the_end_adds_nothing() {
    let mut lexer = Lexer::new("a;");
    let expected = vec![name("a", 0, 1), at(TokenKind::Semicolon, 1, 2)];
    assert_eq!(lexer.lex(), Ok(&expected));
    assert_eq!(lexer.lex(), Ok(&expected));
    assert_eq!(lexer.tokens.len(), 2);
}

#[test]
fn tokens_already_held_stay_in_front() {
    let mut lexer = Lexer::new("b");
    lexer.tokens.push(name("a", 0, 1));
    assert_eq!(lexer.lex(), Ok(&vec![name("a", 0, 1), name("b", 0, 1)]));
}

#[test]
fn a_new_lexer_holds_no_tokens() {
    let lexer = Lexer::new("a b c");
    assert!(lexer.tokens.is_empty());
}

#[test]
fn token_constructors_give_kind_and_place() {
    let loc = Loc(3, 4);
    assert_eq!(Token::plus(loc), at(TokenKind::Plus, 3, 4));
    assert_eq!(Token::minus(loc), at(TokenKind::Minus, 3, 4));
    assert_eq!(Token::asterisk(loc), at(TokenKind::Asterisk, 3, 4));
    assert_eq!(Token::slash(loc), at(TokenKind::Slash, 3, 4));
    assert_eq!(Token::lparen(loc), at(TokenKind::LParen, 3, 4));
    assert_eq!(Token::rparen(loc), at(TokenKind::RParen, 3, 4));
    assert_eq!(
        Token::identifier("abc".to_string(), Loc(0, 3)),
        at(TokenKind::Identifier("abc".to_string()), 0, 3),
    );
    assert_eq!(Token::number(17, Loc(5, 7)), at(TokenKind::Number(17), 5, 7));
    assert_ne!(Token::plus(loc), Token::minus(loc));
    assert_ne!(Token::plus(Loc(3, 4)), Token::plus(Loc(4, 5)));
}

#[test]
fn error_constructors_give_kind_and_place() {
    let invalid = LexError::invalid_char('$', Loc(2, 3));
    assert_eq!(invalid.value, LexErrorKind::InvalidChar('$'));
    assert_eq!(invalid.loc, Loc(2, 3));
    let eof = LexError::eof(Loc(9, 9));
    assert_eq!(eof.value, LexErrorKind::Eof);
    assert_eq!(eof.loc, Loc(9, 9));
    assert_ne!(invalid, eof);
}

#[test]
fn annotation_holds_value_and_place() {
    let a = Annotation::new(5u8, Loc(1, 2));
    assert_eq!(a.value, 5);
    assert_eq!(a.loc, Loc(1, 2));
    assert_eq!(a.loc.0, 1);
    assert_eq!(a.loc.1, 2);
}

#[test]
fn token_kinds_can_be_cloned() {
    let kinds = vec![
        TokenKind::Number(3),
        TokenKind::Identifier("abc".to_string()),
        TokenKind::Int,
        TokenKind::Plus,
        TokenKind::Minus,
        TokenKind::Asterisk,
        TokenKind::Slash,
        TokenKind::LParen,
        TokenKind::RParen,
        TokenKind::Assignment,
        TokenKind::Semicolon,
        TokenKind::Return,
    ];
    for kind in &kinds {
        assert_eq!(&kind.clone(), kind);
    }
}

#[test]
fn identifier_text_is_a_copy_of_the_input() {
    let tokens = {
        let text = String::from("first second");
        let mut lexer = Lexer::new(&text);
        lexer.lex().unwrap().clone()
    };
    assert_eq!(tokens, vec![name("first", 0, 5), name("second", 6, 12)]);
}
