use llhd::liberty::{Lexer, Token};

fn lex_all(input: &str) -> Vec<Token> {
    let mut lexer = Lexer::new(input.as_bytes());
    let mut tokens = vec![];
    while let Some(t) = lexer.next() {
        tokens.push(t);
    }
    tokens
}

fn ident(s: &str) -> Token {
    Token::Ident(s.to_string())
}

#[test]
fn liberty_tokens() {
    let input = "library (foo) {\n  /* a cell */\n  cell (\"AND2\") { area : 1.5 ; } // done\n}\n";
    assert_eq!(
        lex_all(input),
        vec![
            ident("library"),
            Token::LParen,
            ident("foo"),
            Token::RParen,
            Token::LBrace,
            ident("cell"),
            Token::LParen,
            Token::Literal("AND2".to_string()),
            Token::RParen,
            Token::LBrace,
            ident("area"),
            Token::Colon,
            ident("1.5"),
            Token::Semicolon,
            Token::RBrace,
            Token::RBrace,
        ]
    );
}

#[test]
fn liberty_edge_cases() {
    assert_eq!(lex_all(""), vec![]);
    assert_eq!(lex_all("  \t\n \\ "), vec![]);
    assert_eq!(lex_all("a,b"), vec![ident("a"), Token::Comma, ident("b")]);
    assert_eq!(lex_all("x-1+y_z.w"), vec![ident("x-1+y_z.w")]);
    // A backslash in a literal is kept; the byte after it is dropped.
    assert_eq!(lex_all("\"a\\\"b\""), vec![Token::Literal("a\\b".to_string())]);
    // An unterminated comment runs to the end of the input.
    assert_eq!(lex_all("a /* b"), vec![ident("a")]);
    assert_eq!(lex_all("a // b\nc"), vec![ident("a"), ident("c")]);
    // An unterminated literal runs to the end of the input.
    assert_eq!(lex_all("\"ab"), vec![Token::Literal("ab".to_string())]);
}

#[test]
fn liberty_errors() {
    let mut lexer = Lexer::new("a @".as_bytes());
    assert!(!lexer.error_ahead());
    assert_eq!(lexer.next_checked(), Some(Some(ident("a"))));
    assert!(lexer.error_ahead());
    assert_eq!(lexer.next_checked(), None);
    assert_eq!(lexer.next_checked(), None);
    let mut lexer = Lexer::new(b"\"\xff\"");
    assert_eq!(lexer.next_checked(), None);
    let mut lexer = Lexer::new(b"x;");
    assert_eq!(lexer.next_checked(), Some(Some(ident("x"))));
    assert_eq!(lexer.next_checked(), Some(Some(Token::Semicolon)));
    assert_eq!(lexer.next_checked(), Some(None));
}
