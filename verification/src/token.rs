//! The tokens that the lexer hands to the parser.

use vstd::prelude::*;
use vstd::string::*;
use crate::text::{debug_quoted, int_decimal, int_text, push_int, quoted};

verus! {

/// One lexical unit of the language.
#[derive(PartialEq, Debug)]
pub enum Token {
    ILLEGAL,
    EOF,
    IDENT(String),
    INT(i64),
    ASSIGN,
    PLUS,
    MINUS,
    BANG,
    ASTERISK,
    SLASH,
    LT,
    GT,
    EQ,
    NOTEQ,
    COMMA,
    SEMICOLON,
    LPAREN,
    RPAREN,
    LBRACE,
    RBRACE,
    FUNCTION,
    LET,
    TRUE,
    FALSE,
    IF,
    ELSE,
    RETURN,
}

/// A token with the name of an identifier as a sequence of characters.
pub enum TokenView {
    ILLEGAL,
    EOF,
    IDENT(Seq<char>),
    INT(i64),
    ASSIGN,
    PLUS,
    MINUS,
    BANG,
    ASTERISK,
    SLASH,
    LT,
    GT,
    EQ,
    NOTEQ,
    COMMA,
    SEMICOLON,
    LPAREN,
    RPAREN,
    LBRACE,
    RBRACE,
    FUNCTION,
    LET,
    TRUE,
    FALSE,
    IF,
    ELSE,
    RETURN,
}

impl View for Token {
    type V = TokenView;

    open spec fn view(&self) -> TokenView {
        match self {
            Token::ILLEGAL => TokenView::ILLEGAL,
            Token::EOF => TokenView::EOF,
            Token::IDENT(name) => TokenView::IDENT(name@),
            Token::INT(value) => TokenView::INT(*value),
            Token::ASSIGN => TokenView::ASSIGN,
            Token::PLUS => TokenView::PLUS,
            Token::MINUS => TokenView::MINUS,
            Token::BANG => TokenView::BANG,
            Token::ASTERISK => TokenView::ASTERISK,
            Token::SLASH => TokenView::SLASH,
            Token::LT => TokenView::LT,
            Token::GT => TokenView::GT,
            Token::EQ => TokenView::EQ,
            Token::NOTEQ => TokenView::NOTEQ,
            Token::COMMA => TokenView::COMMA,
            Token::SEMICOLON => TokenView::SEMICOLON,
            Token::LPAREN => TokenView::LPAREN,
            Token::RPAREN => TokenView::RPAREN,
            Token::LBRACE => TokenView::LBRACE,
            Token::RBRACE => TokenView::RBRACE,
            Token::FUNCTION => TokenView::FUNCTION,
            Token::LET => TokenView::LET,
            Token::TRUE => TokenView::TRUE,
            Token::FALSE => TokenView::FALSE,
            Token::IF => TokenView::IF,
            Token::ELSE => TokenView::ELSE,
            Token::RETURN => TokenView::RETURN,
        }
    }
}

impl TokenView {
    /// The token as it is written in source text.
    pub open spec fn text(self) -> Seq<char> {
        match self {
            TokenView::ILLEGAL => "ILLEGAL"@,
            TokenView::EOF => "EOF"@,
            TokenView::IDENT(name) => name,
            TokenView::INT(value) => int_decimal(value as int),
            TokenView::ASSIGN => "="@,
            TokenView::PLUS => "+"@,
            TokenView::MINUS => "-"@,
            TokenView::BANG => "!"@,
            TokenView::ASTERISK => "*"@,
            TokenView::SLASH => "/"@,
            TokenView::LT => "<"@,
            TokenView::GT => ">"@,
            TokenView::EQ => "=="@,
            TokenView::NOTEQ => "!="@,
            TokenView::COMMA => ","@,
            TokenView::SEMICOLON => ";"@,
            TokenView::LPAREN => "("@,
            TokenView::RPAREN => ")"@,
            TokenView::LBRACE => "{"@,
            TokenView::RBRACE => "}"@,
            TokenView::FUNCTION => "fn"@,
            TokenView::LET => "let"@,
            TokenView::TRUE => "true"@,
            TokenView::FALSE => "false"@,
            TokenView::IF => "if"@,
            TokenView::ELSE => "else"@,
            TokenView::RETURN => "return"@,
        }
    }

    /// The token as diagnostics name it: the name of its kind, followed for
    /// an identifier by its quoted name and for an integer by its numeral,
    /// in parentheses.
    pub open spec fn debug_text(self) -> Seq<char> {
        match self {
            TokenView::ILLEGAL => "ILLEGAL"@,
            TokenView::EOF => "EOF"@,
            TokenView::IDENT(name) => "IDENT("@ + debug_quoted(name) + ")"@,
            TokenView::INT(value) => "INT("@ + int_decimal(value as int) + ")"@,
            TokenView::ASSIGN => "ASSIGN"@,
            TokenView::PLUS => "PLUS"@,
            TokenView::MINUS => "MINUS"@,
            TokenView::BANG => "BANG"@,
            TokenView::ASTERISK => "ASTERISK"@,
            TokenView::SLASH => "SLASH"@,
            TokenView::LT => "LT"@,
            TokenView::GT => "GT"@,
            TokenView::EQ => "EQ"@,
            TokenView::NOTEQ => "NOTEQ"@,
            TokenView::COMMA => "COMMA"@,
            TokenView::SEMICOLON => "SEMICOLON"@,
            TokenView::LPAREN => "LPAREN"@,
            TokenView::RPAREN => "RPAREN"@,
            TokenView::LBRACE => "LBRACE"@,
            TokenView::RBRACE => "RBRACE"@,
            TokenView::FUNCTION => "FUNCTION"@,
            TokenView::LET => "LET"@,
            TokenView::TRUE => "TRUE"@,
            TokenView::FALSE => "FALSE"@,
            TokenView::IF => "IF"@,
            TokenView::ELSE => "ELSE"@,
            TokenView::RETURN => "RETURN"@,
        }
    }
}

/// How diagnostics name an identifier, given its name in quotes: the
/// quoted name between `IDENT(` and `)`.
pub fn identifier_debug_text(quoted_name: &str) -> (r: String)
    ensures
        r@ == "IDENT("@ + quoted_name@ + ")"@,
{
    let mut out = String::from_str("IDENT(");
    out.append(quoted_name);
    out.append(")");
    out
}

impl Clone for Token {
    fn clone(&self) -> (r: Token)
        ensures
            r@ == self@,
    {
        match self {
            Token::ILLEGAL => Token::ILLEGAL,
            Token::EOF => Token::EOF,
            Token::IDENT(name) => Token::IDENT(name.clone()),
            Token::INT(value) => Token::INT(*value),
            Token::ASSIGN => Token::ASSIGN,
            Token::PLUS => Token::PLUS,
            Token::MINUS => Token::MINUS,
            Token::BANG => Token::BANG,
            Token::ASTERISK => Token::ASTERISK,
            Token::SLASH => Token::SLASH,
            Token::LT => Token::LT,
            Token::GT => Token::GT,
            Token::EQ => Token::EQ,
            Token::NOTEQ => Token::NOTEQ,
            Token::COMMA => Token::COMMA,
            Token::SEMICOLON => Token::SEMICOLON,
            Token::LPAREN => Token::LPAREN,
            Token::RPAREN => Token::RPAREN,
            Token::LBRACE => Token::LBRACE,
            Token::RBRACE => Token::RBRACE,
            Token::FUNCTION => Token::FUNCTION,
            Token::LET => Token::LET,
            Token::TRUE => Token::TRUE,
            Token::FALSE => Token::FALSE,
            Token::IF => Token::IF,
            Token::ELSE => Token::ELSE,
            Token::RETURN => Token::RETURN,
        }
    }
}

impl Token {
    /// Whether two tokens are the same: the same kind, and for identifiers
    /// and integers the same name or value.
    pub fn same_as(&self, other: &Token) -> (r: bool)
        ensures
            r == (self@ == other@),
    {
        match (self, other) {
            (Token::IDENT(a), Token::IDENT(b)) => *a == *b,
            (Token::INT(a), Token::INT(b)) => *a == *b,
            (Token::ILLEGAL, Token::ILLEGAL) => true,
            (Token::EOF, Token::EOF) => true,
            (Token::ASSIGN, Token::ASSIGN) => true,
            (Token::PLUS, Token::PLUS) => true,
            (Token::MINUS, Token::MINUS) => true,
            (Token::BANG, Token::BANG) => true,
            (Token::ASTERISK, Token::ASTERISK) => true,
            (Token::SLASH, Token::SLASH) => true,
            (Token::LT, Token::LT) => true,
            (Token::GT, Token::GT) => true,
            (Token::EQ, Token::EQ) => true,
            (Token::NOTEQ, Token::NOTEQ) => true,
            (Token::COMMA, Token::COMMA) => true,
            (Token::SEMICOLON, Token::SEMICOLON) => true,
            (Token::LPAREN, Token::LPAREN) => true,
            (Token::RPAREN, Token::RPAREN) => true,
            (Token::LBRACE, Token::LBRACE) => true,
            (Token::RBRACE, Token::RBRACE) => true,
            (Token::FUNCTION, Token::FUNCTION) => true,
            (Token::LET, Token::LET) => true,
            (Token::TRUE, Token::TRUE) => true,
            (Token::FALSE, Token::FALSE) => true,
            (Token::IF, Token::IF) => true,
            (Token::ELSE, Token::ELSE) => true,
            (Token::RETURN, Token::RETURN) => true,
            _ => false,
        }
    }

    /// The token as it is written in source text.
    pub fn to_text(&self) -> (r: String)
        ensures
            r@ == self@.text(),
    {
        match self {
            Token::IDENT(name) => name.clone(),
            Token::INT(value) => int_text(*value),
            Token::ILLEGAL => String::from_str("ILLEGAL"),
            Token::EOF => String::from_str("EOF"),
            Token::ASSIGN => String::from_str("="),
            Token::PLUS => String::from_str("+"),
            Token::MINUS => String::from_str("-"),
            Token::BANG => String::from_str("!"),
            Token::ASTERISK => String::from_str("*"),
            Token::SLASH => String::from_str("/"),
            Token::LT => String::from_str("<"),
            Token::GT => String::from_str(">"),
            Token::EQ => String::from_str("=="),
            Token::NOTEQ => String::from_str("!="),
            Token::COMMA => String::from_str(","),
            Token::SEMICOLON => String::from_str(";"),
            Token::LPAREN => String::from_str("("),
            Token::RPAREN => String::from_str(")"),
            Token::LBRACE => String::from_str("{"),
            Token::RBRACE => String::from_str("}"),
            Token::FUNCTION => String::from_str("fn"),
            Token::LET => String::from_str("let"),
            Token::TRUE => String::from_str("true"),
            Token::FALSE => String::from_str("false"),
            Token::IF => String::from_str("if"),
            Token::ELSE => String::from_str("else"),
            Token::RETURN => String::from_str("return"),
        }
    }

    /// The token as diagnostics name it.
    pub fn debug_text(&self) -> (r: String)
        ensures
            r@ == self@.debug_text(),
    {
        match self {
            Token::IDENT(name) => {
                let inner = quoted(name.as_str());
                identifier_debug_text(inner.as_str())
            },
            Token::INT(value) => {
                let mut out = String::from_str("INT(");
                push_int(&mut out, *value);
                out.append(")");
                out
            },
            Token::ILLEGAL => String::from_str("ILLEGAL"),
            Token::EOF => String::from_str("EOF"),
            Token::ASSIGN => String::from_str("ASSIGN"),
            Token::PLUS => String::from_str("PLUS"),
            Token::MINUS => String::from_str("MINUS"),
            Token::BANG => String::from_str("BANG"),
            Token::ASTERISK => String::from_str("ASTERISK"),
            Token::SLASH => String::from_str("SLASH"),
            Token::LT => String::from_str("LT"),
            Token::GT => String::from_str("GT"),
            Token::EQ => String::from_str("EQ"),
            Token::NOTEQ => String::from_str("NOTEQ"),
            Token::COMMA => String::from_str("COMMA"),
            Token::SEMICOLON => String::from_str("SEMICOLON"),
            Token::LPAREN => String::from_str("LPAREN"),
            Token::RPAREN => String::from_str("RPAREN"),
            Token::LBRACE => String::from_str("LBRACE"),
            Token::RBRACE => String::from_str("RBRACE"),
            Token::FUNCTION => String::from_str("FUNCTION"),
            Token::LET => String::from_str("LET"),
            Token::TRUE => String::from_str("TRUE"),
            Token::FALSE => String::from_str("FALSE"),
            Token::IF => String::from_str("IF"),
            Token::ELSE => String::from_str("ELSE"),
            Token::RETURN => String::from_str("RETURN"),
        }
    }
}

} // verus!
