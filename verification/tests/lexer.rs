use monky::lexer::{Lexer, LexerError};
use monky::token::Token;

#[test]
fn test_next_token() {
    let input = r###"
            let five = 5;
            let ten = 10;

            let add = fn(x, y) {
                x + y;
            };

            let result = add(five, ten);
            !-/*5;
            5 < 10 > 5;

            if (5 < 10) {
                return true;
            } else {
                return false;
            }

            10 == 10;
            10 != 9;
            "###
        .to_string();

    let expected = vec![
        Token::LET,
        Token::IDENT("five".to_string()),
        Token::ASSIGN,
        Token::INT(5),
        Token::SEMICOLON,
        Token::LET,
        Token::IDENT("ten".to_string()),
        Token::ASSIGN,
        Token::INT(10),
        Token::SEMICOLON,
        Token::LET,
        Token::IDENT("add".to_string()),
        Token::ASSIGN,
        Token::FUNCTION,
        Token::LPAREN,
        Token::IDENT("x".to_string()),
        Token::COMMA,
        Token::IDENT("y".to_string()),
        Token::RPAREN,
        Token::LBRACE,
        Token::IDENT("x".to_string()),
        Token::PLUS,
        Token::IDENT("y".to_string()),
        Token::SEMICOLON,
        Token::RBRACE,
        Token::SEMICOLON,
        Token::LET,
        Token::IDENT("result".to_string()),
        Token::ASSIGN,
        Token::IDENT("add".to_string()),
        Token::LPAREN,
        Token::IDENT("five".to_string()),
        Token::COMMA,
        Token::IDENT("ten".to_string()),
        Token::RPAREN,
        Token::SEMICOLON,
        Token::BANG,
        Token::MINUS,
        Token::SLASH,
        Token::ASTERISK,
        Token::INT(5),
        Token::SEMICOLON,
        Token::INT(5),
        Token::LT,
        Token::INT(10),
        Token::GT,
        Token::INT(5),
        Token::SEMICOLON,
        Token::IF,
        Token::LPAREN,
        Token::INT(5),
        Token::LT,
        Token::INT(10),
        Token::RPAREN,
        Token::LBRACE,
        Token::RETURN,
        Token::TRUE,
        Token::SEMICOLON,
        Token::RBRACE,
        Token::ELSE,
        Token::LBRACE,
        Token::RETURN,
        Token::FALSE,
        Token::SEMICOLON,
        Token::RBRACE,
        Token::INT(10),
        Token::EQ,
        Token::INT(10),
        Token::SEMICOLON,
        Token::INT(10),
        Token::NOTEQ,
        Token::INT(9),
        Token::SEMICOLON,
        Token::EOF,
    ];

    let mut l = Lexer::new(input).unwrap();

    for expected_token in expected {
        let tok = l.next_token();

        assert_eq!(tok, expected_token);
    }
}

fn tokens_of(input: &str) -> Vec<Token> {
    let mut l = Lexer::new(input.to_string()).unwrap();
    let mut out = Vec::new();
    loop {
        let tok = l.next_token();
        let done = tok == Token::EOF;
        out.push(tok);
        if done {
            return out;
        }
    }
}

#[test]
fn lexer_refuses_text_outside_ascii() {
    assert_eq!(Lexer::new("let ü = 1;".to_string()).err(), Some(LexerError::NotAscii));
    assert!(Lexer::new("let u = 1;".to_string()).is_ok());
    assert!(Lexer::new(String::new()).is_ok());
}

#[test]
fn lexer_gives_eof_again_and_again_at_the_end() {
    let mut l = Lexer::new("x".to_string()).unwrap();
    assert_eq!(l.next_token(), Token::IDENT("x".to_string()));
    assert_eq!(l.next_token(), Token::EOF);
    assert_eq!(l.next_token(), Token::EOF);
    assert_eq!(l.next_token(), Token::EOF);
}

#[test]
fn lexer_on_empty_and_blank_text() {
    assert_eq!(tokens_of(""), vec![Token::EOF]);
    assert_eq!(tokens_of(" \t\r\n "), vec![Token::EOF]);
}

#[test]
fn lexer_takes_the_text_from_the_string_it_was_given() {
    // A lexer that dropped or reordered characters would not give these.
    assert_eq!(
        tokens_of("ab_Cd 907"),
        vec![Token::IDENT("ab_Cd".to_string()), Token::INT(907), Token::EOF]
    );
    assert_eq!(
        tokens_of("_a1"),
        vec![Token::IDENT("_a".to_string()), Token::INT(1), Token::EOF]
    );
}

#[test]
fn lexer_keywords_need_the_whole_word() {
    assert_eq!(
        tokens_of("fn fnx let lets true truex false if iff else return returns"),
        vec![
            Token::FUNCTION,
            Token::IDENT("fnx".to_string()),
            Token::LET,
            Token::IDENT("lets".to_string()),
            Token::TRUE,
            Token::IDENT("truex".to_string()),
            Token::FALSE,
            Token::IF,
            Token::IDENT("iff".to_string()),
            Token::ELSE,
            Token::RETURN,
            Token::IDENT("returns".to_string()),
            Token::EOF,
        ]
    );
}

#[test]
fn lexer_two_character_operators() {
    assert_eq!(
        tokens_of("= == ! != === !=="),
        vec![
            Token::ASSIGN,
            Token::EQ,
            Token::BANG,
            Token::NOTEQ,
            Token::EQ,
            Token::ASSIGN,
            Token::NOTEQ,
            Token::ASSIGN,
            Token::EOF,
        ]
    );
    assert_eq!(tokens_of("="), vec![Token::ASSIGN, Token::EOF]);
    assert_eq!(tokens_of("!"), vec![Token::BANG, Token::EOF]);
}

#[test]
fn lexer_integer_limits() {
    assert_eq!(tokens_of("0"), vec![Token::INT(0), Token::EOF]);
    assert_eq!(tokens_of("007"), vec![Token::INT(7), Token::EOF]);
    assert_eq!(
        tokens_of("9223372036854775807"),
        vec![Token::INT(9223372036854775807), Token::EOF]
    );
    assert_eq!(tokens_of("9223372036854775808"), vec![Token::ILLEGAL, Token::EOF]);
    assert_eq!(
        tokens_of("99999999999999999999999999 1"),
        vec![Token::ILLEGAL, Token::INT(1), Token::EOF]
    );
}

#[test]
fn lexer_gives_eof_for_a_character_that_starts_no_token_and_goes_on() {
    let mut l = Lexer::new("1 @ 2".to_string()).unwrap();
    assert_eq!(l.next_token(), Token::INT(1));
    assert_eq!(l.next_token(), Token::EOF);
    assert_eq!(l.next_token(), Token::INT(2));
    assert_eq!(l.next_token(), Token::EOF);
}

#[test]
fn token_text_and_debug_text() {
    assert_eq!(Token::IDENT("foo".to_string()).to_text(), "foo");
    assert_eq!(Token::INT(-12).to_text(), "-12");
    assert_eq!(Token::LT.to_text(), "<");
    assert_eq!(Token::GT.to_text(), ">");
    assert_eq!(Token::NOTEQ.to_text(), "!=");
    assert_eq!(Token::LBRACE.to_text(), "{");
    assert_eq!(Token::FUNCTION.to_text(), "fn");
    assert_eq!(Token::EOF.to_text(), "EOF");
    assert_eq!(Token::IDENT("foo".to_string()).debug_text(), "IDENT(\"foo\")");
    assert_eq!(Token::IDENT("a\"b".to_string()).debug_text(), "IDENT(\"a\\\"b\")");
    assert_eq!(Token::INT(5).debug_text(), "INT(5)");
    assert_eq!(Token::INT(i64::MIN).debug_text(), "INT(-9223372036854775808)");
    assert_eq!(Token::SEMICOLON.debug_text(), "SEMICOLON");
    assert_eq!(
        Token::IDENT("x".to_string()).debug_text(),
        format!("{:?}", Token::IDENT("x".to_string()))
    );
}

#[test]
fn token_same_as_and_clone() {
    let a = Token::IDENT("x".to_string());
    assert!(a.same_as(&Token::IDENT("x".to_string())));
    assert!(!a.same_as(&Token::IDENT("y".to_string())));
    assert!(!a.same_as(&Token::INT(1)));
    assert!(Token::INT(3).same_as(&Token::INT(3)));
    assert!(!Token::INT(3).same_as(&Token::INT(4)));
    assert!(Token::EOF.same_as(&Token::EOF));
    assert!(!Token::EOF.same_as(&Token::ILLEGAL));
    assert_eq!(a.clone(), a);
}
