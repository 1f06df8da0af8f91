use minilex::lexer::{LexError, Lexer, Token, TokenKind};
use minilex::util::Loc;

fn token(kind: TokenKind, start: usize, end: usize) -> Token {
    Token::new(kind, Loc(start, end))
}

#[test]
fn test_lexer() {
    let mut lexer = Lexer::new("+/*(-)");
    let tokens = lexer.lex();
    assert_eq!(
        tokens,
        Ok(&vec![
            token(TokenKind::Plus, 0, 1),
            token(TokenKind::Slash, 1, 2),
            token(TokenKind::Asterisk, 2, 3),
            token(TokenKind::LParen, 3, 4),
            token(TokenKind::Minus, 4, 5),
            token(TokenKind::RParen, 5, 6),
        ]),
    );

    let mut lexer = Lexer::new("a = 3; b = 2; c = a * b; return c;");
    let tokens = lexer.lex();
    assert_eq!(
        tokens,
        Ok(&vec![
            token(TokenKind::Identifier("a".to_string()), 0, 1),
            token(TokenKind::Assignment, 2, 3),
            token(TokenKind::Number(3), 4, 5),
            token(TokenKind::Semicolon, 5, 6),
            token(TokenKind::Identifier("b".to_string()), 7, 8),
            token(TokenKind::Assignment, 9, 10),
            token(TokenKind::Number(2), 11, 12),
            token(TokenKind::Semicolon, 12, 13),
            token(TokenKind::Identifier("c".to_string()), 14, 15),
            token(TokenKind::Assignment, 16, 17),
            token(TokenKind::Identifier("a".to_string()), 18, 19),
            token(TokenKind::Asterisk, 20, 21),
            token(TokenKind::Identifier("b".to_string()), 22, 23),
            token(TokenKind::Semicolon, 23, 24),
            token(TokenKind::Return, 25, 31),
            token(TokenKind::Identifier("c".to_string()), 32, 33),
            token(TokenKind::Semicolon, 33, 34),
        ]),
    );
}

#[test]
fn test_lexer_error() {
    let mut lexer = Lexer::new("1 $ 2 * 3 - -10");
    let tokens = lexer.lex();
    assert_eq!(tokens, Err(LexError::invalid_char('$', Loc(2, 3))),);
}
