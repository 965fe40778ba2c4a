//! The parser: recursive descent over statements, and operator-precedence
//! climbing over expressions, on the tokens that a lexer hands out.

use vstd::prelude::*;
use vstd::string::*;
use crate::ast::{
    Expr, ExprView, Ident, Infix, Literal, Prefix, Program, Stmt, StmtView, stmts_view,
    exprs_view, idents_view,
};
use crate::grammar::{
    ParseState, parse_program, token_at, binding_power, unexpected_token, expected_identifier,
    unknown_token, expect_peek, parse_expression, parse_operand, parse_prefix_expr,
    parse_grouped_expr, parse_if_expr, parse_function_literal, parse_parameters,
    parse_more_parameters, lemma_parameters_move_on, parse_infix_loop, parse_infix_expr,
    parse_call_expr, parse_call_arguments, parse_more_arguments, parse_block, parse_block_loop,
    parse_program_loop, parse_statement, parse_let_statement, parse_return_statement,
    parse_expression_statement, LOWEST, EQUALS, LESSGREATER, SUM, PRODUCT, PREFIX, CALL,
};
use vstd::utf8::is_ascii_chars;
use crate::lexer::{Lexer, LexerError, chars_to_codes, first_or_eof, tokens_from, without_first};
use crate::text::string_views;
use crate::token::{Token, TokenView};

verus! {

/// The view of an expression that may be missing.
pub open spec fn opt_expr_view(e: Option<Expr>) -> Option<ExprView> {
    match e {
        Some(expr) => Some(expr@),
        None => None,
    }
}

/// The view of a statement that may be missing.
pub open spec fn opt_stmt_view(s: Option<Stmt>) -> Option<StmtView> {
    match s {
        Some(stmt) => Some(stmt@),
        None => None,
    }
}

/// The tokens of a sequence from index `i` on.
pub open spec fn tail_from(tokens: Seq<TokenView>, i: int) -> Seq<TokenView> {
    if 0 <= i <= tokens.len() {
        tokens.subrange(i, tokens.len() as int)
    } else {
        Seq::empty()
    }
}

proof fn lemma_tail_step(tokens: Seq<TokenView>, i: int)
    requires
        0 <= i,
    ensures
        first_or_eof(tail_from(tokens, i)) == token_at(tokens, i),
        without_first(tail_from(tokens, i)) == tail_from(tokens, i + 1),
{
    assert(without_first(tail_from(tokens, i)) =~= tail_from(tokens, i + 1));
}

/// A parser over the tokens of a lexer, with the messages for what it found
/// malformed.
pub struct Parser<'a> {
    lex: &'a mut Lexer,
    pub errors: Vec<String>,
    cur_token: Token,
    peek_token: Token,
    stream: Ghost<Seq<TokenView>>,
    index: Ghost<nat>,
}

impl<'a> View for Parser<'a> {
    type V = ParseState;

    closed spec fn view(&self) -> ParseState {
        ParseState { tokens: self.stream@, pos: self.index@, errors: string_views(self.errors@) }
    }
}

fn unexpected_token_text(expected: &Token, got: &Token) -> (r: String)
    ensures
        r@ == unexpected_token(expected@, got@),
{
    let mut out = String::from_str("expected next token to be ");
    let expected_name = expected.debug_text();
    out.append(expected_name.as_str());
    out.append(", got ");
    let got_name = got.debug_text();
    out.append(got_name.as_str());
    out.append(" instead");
    out
}

fn expected_identifier_text(got: &Token) -> (r: String)
    ensures
        r@ == expected_identifier(got@),
{
    let mut out = String::from_str("expected next token to be IDENT, got ");
    let got_name = got.debug_text();
    out.append(got_name.as_str());
    out.append(" instead");
    out
}

fn unknown_token_text(got: &Token) -> (r: String)
    ensures
        r@ == unknown_token(got@),
{
    let mut out = String::from_str("unknown token in expression. got ");
    let got_name = got.debug_text();
    out.append(got_name.as_str());
    out
}

impl<'a> Parser<'a> {
    /// The two tokens held are those at and behind the current position, and
    /// the lexer stands behind them.
    pub closed spec fn wf(&self) -> bool {
        &&& self.lex.wf()
        &&& self.cur_token@ == token_at(self.stream@, self.index@ as int)
        &&& self.peek_token@ == token_at(self.stream@, self.index@ as int + 1)
        &&& self.lex@.upcoming() == tail_from(self.stream@, self.index@ as int + 2)
    }

    /// A parser at the start of the tokens that `lex` still has to give.
    pub fn new(lex: &'a mut Lexer) -> (p: Parser<'a>)
        requires
            old(lex).wf(),
        ensures
            p.wf(),
            p@ == ParseState::start(old(lex)@.upcoming()),
    {
        let ghost stream = lex@.upcoming();
        proof {
            lemma_tail_step(stream, 0);
            lemma_tail_step(stream, 1);
            assert(tail_from(stream, 0) =~= stream);
        }
        let cur_token = lex.next_token();
        let peek_token = lex.next_token();
        let p = Parser {
            lex,
            errors: Vec::new(),
            cur_token,
            peek_token,
            stream: Ghost(stream),
            index: Ghost(0),
        };
        assert(p@.errors =~= Seq::<Seq<char>>::empty());
        p
    }

    /// The messages recorded so far. Contracts speak of them as the `errors`
    /// of the view; this is how verified code reads them.
    pub fn errors(&self) -> (r: &Vec<String>)
        ensures
            string_views(r@) == self@.errors,
    {
        &self.errors
    }

    /// The messages recorded so far, the parser given up.
    pub fn into_errors(self) -> (r: Vec<String>)
        ensures
            string_views(r@) == self@.errors,
    {
        self.errors
    }

    fn next_token(&mut self)
        requires
            old(self).wf(),
        ensures
            final(self).wf(),
            final(self)@ == old(self)@.advance(),
    {
        proof {
            lemma_tail_step(self.stream@, self.index@ as int + 2);
        }
        self.cur_token = self.peek_token.clone();
        self.peek_token = self.lex.next_token();
        self.index = Ghost((self.index@ + 1) as nat);
    }

    fn record(&mut self, message: String)
        requires
            old(self).wf(),
        ensures
            final(self).wf(),
            final(self)@ == old(self)@.with_error(message@),
    {
        self.errors.push(message);
        assert(string_views(self.errors@) =~= string_views(old(self).errors@).push(message@));
    }

    fn cur_token_is(&self, tok: &Token) -> (r: bool)
        requires
            self.wf(),
        ensures
            r == (self@.cur() == tok@),
    {
        self.cur_token.same_as(tok)
    }

    fn peek_token_is(&self, tok: &Token) -> (r: bool)
        requires
            self.wf(),
        ensures
            r == (self@.peek() == tok@),
    {
        self.peek_token.same_as(tok)
    }

    fn expect_peek(&mut self, tok: &Token) -> (r: bool)
        requires
            old(self).wf(),
        ensures
            final(self).wf(),
            final(self)@ == expect_peek(old(self)@, tok@).state,
            r == (expect_peek(old(self)@, tok@).value is Some),
            r == (old(self)@.peek() == tok@),
    {
        if self.peek_token_is(tok) {
            self.next_token();
            true
        } else {
            self.peek_error(tok);
            false
        }
    }

    fn peek_error(&mut self, tok: &Token)
        requires
            old(self).wf(),
        ensures
            final(self).wf(),
            final(self)@ == old(self)@.with_error(unexpected_token(tok@, old(self)@.peek())),
    {
        let message = unexpected_token_text(tok, &self.peek_token);
        self.record(message);
    }

    fn get_priority(tok: &Token) -> (r: u8)
        ensures
            r == binding_power(tok@),
    {
        match tok {
            Token::EQ => EQUALS,
            Token::NOTEQ => EQUALS,
            Token::LT => LESSGREATER,
            Token::GT => LESSGREATER,
            Token::PLUS => SUM,
            Token::MINUS => SUM,
            Token::SLASH => PRODUCT,
            Token::ASTERISK => PRODUCT,
            Token::LPAREN => CALL,
            _ => LOWEST,
        }
    }

    fn peek_priority(&self) -> (r: u8)
        requires
            self.wf(),
        ensures
            r == binding_power(self@.peek()),
    {
        Parser::get_priority(&self.peek_token)
    }

    fn cur_priority(&self) -> (r: u8)
        requires
            self.wf(),
        ensures
            r == binding_power(self@.cur()),
    {
        Parser::get_priority(&self.cur_token)
    }

    /// The program that the tokens write. What is malformed in it is left
    /// out and has a message in `errors`.
    pub fn parse_program(&mut self) -> (program: Program)
        requires
            old(self).wf(),
        ensures
            final(self).wf(),
            program@ == parse_program_loop(old(self)@, Seq::empty()).stmts,
            final(self)@ == parse_program_loop(old(self)@, Seq::empty()).state,
    {
        let mut program = Program::new();
        while !self.cur_token_is(&Token::EOF)
            invariant
                self.wf(),
                old(self)@.reaches(self@),
                parse_program_loop(self@, program@) == parse_program_loop(
                    old(self)@,
                    Seq::empty(),
                ),
            decreases self@.remaining(),
        {
            let ghost before = program@;
            match self.parse_statement() {
                Some(statement) => {
                    program.statements.push(statement);
                    assert(program@ =~= before.push(statement@));
                },
                None => {},
            }
            self.next_token();
        }
        program
    }

    /// Parses one statement at the current token: `let`, `return`, or an
    /// expression. A malformed statement gives `None` and a message in
    /// `errors`. The parser stops on the last token it took.
    pub fn parse_statement(&mut self) -> (r: Option<Stmt>)
        requires
            old(self).wf(),
        ensures
            final(self).wf(),
            final(self)@ == parse_statement(old(self)@).state,
            opt_stmt_view(r) == parse_statement(old(self)@).value,
            old(self)@.reaches(final(self)@),
        decreases old(self)@.remaining(), 11nat,
    {
        if self.cur_token_is(&Token::LET) {
            self.parse_let_statement()
        } else if self.cur_token_is(&Token::RETURN) {
            self.parse_return_statement()
        } else {
            self.parse_expression_statement()
        }
    }

    fn expect_peek_identifier(&mut self) -> (r: Option<Ident>)
        requires
            old(self).wf(),
        ensures
            final(self).wf(),
            match old(self)@.peek() {
                TokenView::IDENT(name) => r is Some && r->0@ == name && final(self)@ == old(
                    self,
                )@.advance(),
                other => r is None && final(self)@ == old(self)@.with_error(
                    expected_identifier(other),
                ),
            },
    {
        let found = match &self.peek_token {
            Token::IDENT(name) => Some(Ident(name.clone())),
            _ => None,
        };
        match found {
            Some(name) => {
                self.next_token();
                Some(name)
            },
            None => {
                let message = expected_identifier_text(&self.peek_token);
                self.record(message);
                None
            },
        }
    }

    fn skip_semicolon(&mut self)
        requires
            old(self).wf(),
        ensures
            final(self).wf(),
            final(self)@ == old(self)@.skip_semicolon(),
    {
        if self.peek_token_is(&Token::SEMICOLON) {
            self.next_token();
        }
    }

    fn parse_let_statement(&mut self) -> (r: Option<Stmt>)
        requires
            old(self).wf(),
        ensures
            final(self).wf(),
            final(self)@ == parse_let_statement(old(self)@).state,
            opt_stmt_view(r) == parse_let_statement(old(self)@).value,
            old(self)@.reaches(final(self)@),
        decreases old(self)@.remaining(), 10nat,
    {
        let name = match self.expect_peek_identifier() {
            Some(name) => name,
            None => {
                return None;
            },
        };
        if !self.expect_peek(&Token::ASSIGN) {
            return None;
        }
        self.next_token();
        let value = match self.parse_expression(LOWEST) {
            Some(value) => value,
            None => {
                return None;
            },
        };
        self.skip_semicolon();
        Some(Stmt::Let(name, value))
    }

    fn parse_return_statement(&mut self) -> (r: Option<Stmt>)
        requires
            old(self).wf(),
        ensures
            final(self).wf(),
            final(self)@ == parse_return_statement(old(self)@).state,
            opt_stmt_view(r) == parse_return_statement(old(self)@).value,
            old(self)@.reaches(final(self)@),
        decreases old(self)@.remaining(), 10nat,
    {
        self.next_token();
        let value = match self.parse_expression(LOWEST) {
            Some(value) => value,
            None => {
                return None;
            },
        };
        self.skip_semicolon();
        Some(Stmt::Return(value))
    }

    fn parse_expression_statement(&mut self) -> (r: Option<Stmt>)
        requires
            old(self).wf(),
        ensures
            final(self).wf(),
            final(self)@ == parse_expression_statement(old(self)@).state,
            opt_stmt_view(r) == parse_expression_statement(old(self)@).value,
            old(self)@.reaches(final(self)@),
        decreases old(self)@.remaining(), 10nat,
    {
        let value = match self.parse_expression(LOWEST) {
            Some(value) => value,
            None => {
                return None;
            },
        };
        self.skip_semicolon();
        Some(Stmt::Expr(value))
    }

    /// Parses at the current token an expression that binds more strongly
    /// than `priority`: one operand, and then every operator and call that
    /// binds more strongly than `priority`, folded to the left. A malformed
    /// expression gives `None` and a message in `errors`.
    pub fn parse_expression(&mut self, priority: u8) -> (r: Option<Expr>)
        requires
            old(self).wf(),
        ensures
            final(self).wf(),
            final(self)@ == parse_expression(old(self)@, priority).state,
            opt_expr_view(r) == parse_expression(old(self)@, priority).value,
            old(self)@.reaches(final(self)@),
        decreases old(self)@.remaining(), 9nat,
    {
        let mut left = match self.parse_operand() {
            Some(left) => left,
            None => {
                return None;
            },
        };
        while !self.peek_token_is(&Token::SEMICOLON) && priority < self.peek_priority()
            invariant
                self.wf(),
                old(self)@.reaches(self@),
                parse_infix_loop(self@, priority, left@) == parse_expression(old(self)@, priority),
            decreases self@.remaining(),
        {
            left = match &self.peek_token {
                Token::PLUS
                | Token::MINUS
                | Token::SLASH
                | Token::ASTERISK
                | Token::EQ
                | Token::NOTEQ
                | Token::LT
                | Token::GT => {
                    self.next_token();
                    match self.parse_infix_expr(left) {
                        Some(combined) => combined,
                        None => {
                            return None;
                        },
                    }
                },
                Token::LPAREN => {
                    self.next_token();
                    match self.parse_call_expr(left) {
                        Some(call) => call,
                        None => {
                            return None;
                        },
                    }
                },
                _ => {
                    return Some(left);
                },
            };
        }
        Some(left)
    }

    fn parse_operand(&mut self) -> (r: Option<Expr>)
        requires
            old(self).wf(),
        ensures
            final(self).wf(),
            final(self)@ == parse_operand(old(self)@).state,
            opt_expr_view(r) == parse_operand(old(self)@).value,
            old(self)@.reaches(final(self)@),
        decreases old(self)@.remaining(), 8nat,
    {
        match &self.cur_token {
            Token::IDENT(_) => self.parse_identifier(),
            Token::INT(_) => self.parse_integer_literal(),
            Token::TRUE | Token::FALSE => self.parse_bool_literal(),
            Token::PLUS | Token::MINUS | Token::BANG => self.parse_prefix_expr(),
            Token::LPAREN => self.parse_grouped_expr(),
            Token::IF => self.parse_if_expr(),
            Token::FUNCTION => self.parse_function_literal(),
            _ => {
                let message = unknown_token_text(&self.cur_token);
                self.record(message);
                None
            },
        }
    }

    fn parse_identifier(&self) -> (r: Option<Expr>)
        requires
            self.wf(),
        ensures
            match self@.cur() {
                TokenView::IDENT(name) => opt_expr_view(r) == Some(ExprView::Ident(name)),
                _ => r is None,
            },
    {
        match &self.cur_token {
            Token::IDENT(name) => Some(Expr::Ident(Ident(name.clone()))),
            _ => None,
        }
    }

    fn parse_integer_literal(&self) -> (r: Option<Expr>)
        requires
            self.wf(),
        ensures
            match self@.cur() {
                TokenView::INT(value) => opt_expr_view(r) == Some(
                    ExprView::Literal(Literal::Int(value)),
                ),
                _ => r is None,
            },
    {
        match &self.cur_token {
            Token::INT(value) => Some(Expr::Literal(Literal::Int(*value))),
            _ => None,
        }
    }

    fn parse_bool_literal(&self) -> (r: Option<Expr>)
        requires
            self.wf(),
        ensures
            match self@.cur() {
                TokenView::TRUE => opt_expr_view(r) == Some(ExprView::Literal(Literal::Bool(true))),
                TokenView::FALSE => opt_expr_view(r) == Some(
                    ExprView::Literal(Literal::Bool(false)),
                ),
                _ => r is None,
            },
    {
        match &self.cur_token {
            Token::TRUE => Some(Expr::Literal(Literal::Bool(true))),
            Token::FALSE => Some(Expr::Literal(Literal::Bool(false))),
            _ => None,
        }
    }

    fn parse_prefix_expr(&mut self) -> (r: Option<Expr>)
        requires
            old(self).wf(),
        ensures
            final(self).wf(),
            final(self)@ == parse_prefix_expr(old(self)@).state,
            opt_expr_view(r) == parse_prefix_expr(old(self)@).value,
            old(self)@.reaches(final(self)@),
        decreases old(self)@.remaining(), 7nat,
    {
        match Prefix::from_token(&self.cur_token) {
            Ok(prefix) => {
                self.next_token();
                match self.parse_expression(PREFIX) {
                    Some(operand) => Some(Expr::Prefix(prefix, Box::new(operand))),
                    None => None,
                }
            },
            Err(message) => {
                self.record(message);
                None
            },
        }
    }

    fn parse_infix_expr(&mut self, left: Expr) -> (r: Option<Expr>)
        requires
            old(self).wf(),
        ensures
            final(self).wf(),
            final(self)@ == parse_infix_expr(old(self)@, left@).state,
            opt_expr_view(r) == parse_infix_expr(old(self)@, left@).value,
            old(self)@.reaches(final(self)@),
            r is Some ==> old(self)@.passes(final(self)@),
        decreases old(self)@.remaining(), 6nat,
    {
        match Infix::from_token(&self.cur_token) {
            Ok(infix) => {
                let priority = self.cur_priority();
                self.next_token();
                match self.parse_expression(priority) {
                    Some(right) => Some(Expr::Infix(Box::new(left), infix, Box::new(right))),
                    None => None,
                }
            },
            Err(message) => {
                self.record(message);
                None
            },
        }
    }

    fn parse_grouped_expr(&mut self) -> (r: Option<Expr>)
        requires
            old(self).wf(),
            old(self)@.cur() == TokenView::LPAREN,
        ensures
            final(self).wf(),
            final(self)@ == parse_grouped_expr(old(self)@).state,
            opt_expr_view(r) == parse_grouped_expr(old(self)@).value,
            old(self)@.reaches(final(self)@),
        decreases old(self)@.remaining(), 7nat,
    {
        self.next_token();
        let inner = self.parse_expression(LOWEST);
        if !self.expect_peek(&Token::RPAREN) {
            None
        } else {
            inner
        }
    }

    fn parse_if_expr(&mut self) -> (r: Option<Expr>)
        requires
            old(self).wf(),
        ensures
            final(self).wf(),
            final(self)@ == parse_if_expr(old(self)@).state,
            opt_expr_view(r) == parse_if_expr(old(self)@).value,
            old(self)@.reaches(final(self)@),
        decreases old(self)@.remaining(), 7nat,
    {
        if !self.expect_peek(&Token::LPAREN) {
            return None;
        }
        self.next_token();
        let cond = match self.parse_expression(LOWEST) {
            Some(cond) => cond,
            None => {
                return None;
            },
        };
        if !self.expect_peek(&Token::RPAREN) {
            return None;
        }
        if !self.expect_peek(&Token::LBRACE) {
            return None;
        }
        let cons = self.parse_block_stmt();
        let mut alter: Option<Box<Stmt>> = None;
        if self.peek_token_is(&Token::ELSE) {
            self.next_token();
            if !self.expect_peek(&Token::LBRACE) {
                return None;
            }
            alter = Some(Box::new(self.parse_block_stmt()));
        }
        Some(Expr::If(Box::new(cond), Box::new(cons), alter))
    }

    fn parse_function_literal(&mut self) -> (r: Option<Expr>)
        requires
            old(self).wf(),
        ensures
            final(self).wf(),
            final(self)@ == parse_function_literal(old(self)@).state,
            opt_expr_view(r) == parse_function_literal(old(self)@).value,
            old(self)@.reaches(final(self)@),
        decreases old(self)@.remaining(), 7nat,
    {
        if !self.expect_peek(&Token::LPAREN) {
            return None;
        }
        proof {
            lemma_parameters_move_on(self@);
        }
        let params = match self.parse_function_params() {
            Some(params) => params,
            None => {
                return None;
            },
        };
        if !self.expect_peek(&Token::LBRACE) {
            return None;
        }
        match self.parse_block_stmt() {
            Stmt::Block(body) => Some(Expr::Function(params, body)),
            _ => None,
        }
    }

    fn parse_function_params(&mut self) -> (r: Option<Vec<Ident>>)
        requires
            old(self).wf(),
        ensures
            final(self).wf(),
            final(self)@ == parse_parameters(old(self)@).state,
            match parse_parameters(old(self)@).value {
                Some(names) => r is Some && idents_view(r->0@) == names,
                None => r is None,
            },
    {
        let mut params: Vec<Ident> = Vec::new();
        if self.peek_token_is(&Token::RPAREN) {
            self.next_token();
            assert(idents_view(params@) =~= Seq::<Seq<char>>::empty());
            return Some(params);
        }
        assert(idents_view(params@) =~= Seq::<Seq<char>>::empty());
        loop
            invariant
                self.wf(),
                parse_more_parameters(self@, idents_view(params@)) == parse_parameters(old(self)@),
            decreases self@.remaining(),
        {
            let ghost names = idents_view(params@);
            let name = match self.expect_peek_identifier() {
                Some(name) => name,
                None => {
                    return None;
                },
            };
            params.push(name);
            assert(idents_view(params@) =~= names.push(name@));
            if self.peek_token_is(&Token::COMMA) {
                self.next_token();
            } else {
                if !self.expect_peek(&Token::RPAREN) {
                    return None;
                }
                return Some(params);
            }
        }
    }

    fn parse_call_expr(&mut self, function: Expr) -> (r: Option<Expr>)
        requires
            old(self).wf(),
            old(self)@.cur() == TokenView::LPAREN,
        ensures
            final(self).wf(),
            final(self)@ == parse_call_expr(old(self)@, function@).state,
            opt_expr_view(r) == parse_call_expr(old(self)@, function@).value,
            old(self)@.reaches(final(self)@),
            r is Some ==> old(self)@.passes(final(self)@),
        decreases old(self)@.remaining(), 11nat,
    {
        match self.parse_call_arguments() {
            Some(args) => Some(Expr::Call(Box::new(function), args)),
            None => None,
        }
    }

    fn parse_call_arguments(&mut self) -> (r: Option<Vec<Expr>>)
        requires
            old(self).wf(),
            old(self)@.cur() == TokenView::LPAREN,
        ensures
            final(self).wf(),
            final(self)@ == parse_call_arguments(old(self)@).state,
            match parse_call_arguments(old(self)@).value {
                Some(list) => r is Some && exprs_view(r->0@) == list,
                None => r is None,
            },
            old(self)@.reaches(final(self)@),
            r is Some ==> old(self)@.passes(final(self)@),
        decreases old(self)@.remaining(), 10nat,
    {
        let mut args: Vec<Expr> = Vec::new();
        if self.peek_token_is(&Token::RPAREN) {
            self.next_token();
            assert(exprs_view(args@) =~= Seq::<ExprView>::empty());
            return Some(args);
        }
        self.next_token();
        match self.parse_expression(LOWEST) {
            Some(first) => {
                args.push(first);
                assert(exprs_view(args@) =~= seq![first@]);
            },
            None => {
                return None;
            },
        }
        while self.peek_token_is(&Token::COMMA)
            invariant
                self.wf(),
                old(self)@.passes(self@),
                parse_more_arguments(self@, exprs_view(args@)) == parse_call_arguments(old(self)@),
            decreases self@.remaining(),
        {
            let ghost before = exprs_view(args@);
            self.next_token();
            self.next_token();
            match self.parse_expression(LOWEST) {
                Some(next) => {
                    args.push(next);
                    assert(exprs_view(args@) =~= before.push(next@));
                },
                None => {
                    return None;
                },
            }
        }
        if !self.expect_peek(&Token::RPAREN) {
            return None;
        }
        Some(args)
    }

    fn parse_block_stmt(&mut self) -> (r: Stmt)
        requires
            old(self).wf(),
        ensures
            final(self).wf(),
            final(self)@ == parse_block(old(self)@).state,
            r@ == StmtView::Block(parse_block(old(self)@).stmts),
            r is Block,
            old(self)@.reaches(final(self)@),
        decreases old(self)@.remaining(), 13nat,
    {
        self.next_token();
        let mut stmts: Vec<Stmt> = Vec::new();
        assert(stmts_view(stmts@) =~= Seq::<StmtView>::empty());
        while !self.cur_token_is(&Token::RBRACE) && !self.cur_token_is(&Token::EOF)
            invariant
                self.wf(),
                old(self)@.reaches(self@),
                parse_block_loop(self@, stmts_view(stmts@)) == parse_block(old(self)@),
            decreases self@.remaining(),
        {
            let ghost before = stmts_view(stmts@);
            match self.parse_statement() {
                Some(stmt) => {
                    stmts.push(stmt);
                    assert(stmts_view(stmts@) =~= before.push(stmt@));
                },
                None => {},
            }
            self.next_token();
        }
        Stmt::Block(stmts)
    }
}

/// Scans and parses a source text. The result is the program and the
/// messages for what was malformed in it, or `NotAscii` when the text holds
/// a character outside ASCII.
pub fn parse(input: String) -> (r: Result<(Program, Vec<String>), LexerError>)
    ensures
        r is Ok <==> is_ascii_chars(input@),
        r matches Ok((program, errors)) ==> {
            let parsed = parse_program(tokens_from(chars_to_codes(input@), 0));
            program@ == parsed.stmts && string_views(errors@) == parsed.state.errors
        },
        r matches Err(e) ==> e == LexerError::NotAscii,
{
    match Lexer::new(input) {
        Ok(lex) => {
            let mut lex = lex;
            let mut p = Parser::new(&mut lex);
            let program = p.parse_program();
            let errors = p.into_errors();
            Ok((program, errors))
        },
        Err(e) => Err(e),
    }
}

} // verus!
