//! The grammar as a mathematical function from a token sequence to a syntax
//! tree and a list of messages. The parser is verified against it.
//!
//! A position in the token sequence stands for the parser's current token;
//! the token behind it is the one it can look ahead to. Behind the last
//! token every position holds `EOF`.
//!
//! Where a definition goes on after a part has been parsed, it first asks
//! whether the state behind the part `reaches` or `passes` the state before
//! it. The question makes it plain that the definitions end; the lemmas at
//! the end of this file show that the answer is always yes.

use vstd::prelude::*;
use crate::ast::{ExprView, Infix, Literal, Prefix, StmtView, not_an_operator};
use crate::token::TokenView;

verus! {

/// The token at index `i`, or `EOF` where the sequence has no such index.
pub open spec fn token_at(tokens: Seq<TokenView>, i: int) -> TokenView {
    if 0 <= i < tokens.len() {
        tokens[i]
    } else {
        TokenView::EOF
    }
}

/// The lowest binding power: that of a token that is no operator.
pub const LOWEST: u8 = 0;

/// The binding power of `==` and `!=`.
pub const EQUALS: u8 = 1;

/// The binding power of `<` and `>`.
pub const LESSGREATER: u8 = 2;

/// The binding power of `+` and `-` between two operands.
pub const SUM: u8 = 3;

/// The binding power of `*` and `/`.
pub const PRODUCT: u8 = 4;

/// The binding power of a unary operator.
pub const PREFIX: u8 = 5;

/// The binding power of the parenthesis that opens a call's arguments.
pub const CALL: u8 = 6;

/// How strongly a token binds the expression on its left.
pub open spec fn binding_power(tok: TokenView) -> u8 {
    match tok {
        TokenView::EQ => EQUALS,
        TokenView::NOTEQ => EQUALS,
        TokenView::LT => LESSGREATER,
        TokenView::GT => LESSGREATER,
        TokenView::PLUS => SUM,
        TokenView::MINUS => SUM,
        TokenView::SLASH => PRODUCT,
        TokenView::ASTERISK => PRODUCT,
        TokenView::LPAREN => CALL,
        _ => LOWEST,
    }
}

/// The message for a look-ahead token that is not the expected one.
pub open spec fn unexpected_token(expected: TokenView, got: TokenView) -> Seq<char> {
    "expected next token to be "@ + expected.debug_text() + ", got "@ + got.debug_text()
        + " instead"@
}

/// The message for a look-ahead token that is not an identifier.
pub open spec fn expected_identifier(got: TokenView) -> Seq<char> {
    "expected next token to be IDENT, got "@ + got.debug_text() + " instead"@
}

/// The message for a token that cannot start an expression.
pub open spec fn unknown_token(got: TokenView) -> Seq<char> {
    "unknown token in expression. got "@ + got.debug_text()
}

/// Where the parser stands: the whole token sequence, the index of the
/// current token and the messages recorded so far.
pub struct ParseState {
    pub tokens: Seq<TokenView>,
    pub pos: nat,
    pub errors: Seq<Seq<char>>,
}

impl ParseState {
    /// The state before anything of `tokens` is parsed.
    pub open spec fn start(tokens: Seq<TokenView>) -> ParseState {
        ParseState { tokens, pos: 0, errors: Seq::empty() }
    }

    /// The current token.
    pub open spec fn cur(self) -> TokenView {
        token_at(self.tokens, self.pos as int)
    }

    /// The token behind the current one.
    pub open spec fn peek(self) -> TokenView {
        token_at(self.tokens, self.pos as int + 1)
    }

    /// The state one token further on.
    pub open spec fn advance(self) -> ParseState {
        ParseState { pos: self.pos + 1, ..self }
    }

    /// The state with one more message.
    pub open spec fn with_error(self, message: Seq<char>) -> ParseState {
        ParseState { errors: self.errors.push(message), ..self }
    }

    /// The number of tokens from the current one to the end.
    pub open spec fn remaining(self) -> nat {
        if self.pos < self.tokens.len() {
            (self.tokens.len() - self.pos) as nat
        } else {
            0
        }
    }

    /// `later` is a state of the same token sequence, at or behind this one.
    pub open spec fn reaches(self, later: ParseState) -> bool {
        later.tokens == self.tokens && later.pos >= self.pos
    }

    /// `later` is a state of the same token sequence, behind this one.
    pub open spec fn passes(self, later: ParseState) -> bool {
        later.tokens == self.tokens && later.pos > self.pos
    }

    /// The state behind a semicolon, if one follows.
    pub open spec fn skip_semicolon(self) -> ParseState {
        if self.peek() == TokenView::SEMICOLON {
            self.advance()
        } else {
            self
        }
    }
}

/// The outcome of parsing one construct: the state behind it and the tree,
/// or no tree where the construct was malformed.
pub struct Parsed<T> {
    pub state: ParseState,
    pub value: Option<T>,
}

/// The outcome of parsing a run of statements.
pub struct ParsedBlock {
    pub state: ParseState,
    pub stmts: Seq<StmtView>,
}

/// A construct parsed.
pub open spec fn parsed<T>(state: ParseState, value: T) -> Parsed<T> {
    Parsed { state, value: Some(value) }
}

/// A construct given up.
pub open spec fn failed<T>(state: ParseState) -> Parsed<T> {
    Parsed { state, value: None }
}

/// Moves on to the look-ahead token where it is `expected`; records a message
/// and gives up where it is not.
pub open spec fn expect_peek(s: ParseState, expected: TokenView) -> Parsed<()> {
    if s.peek() == expected {
        parsed(s.advance(), ())
    } else {
        failed(s.with_error(unexpected_token(expected, s.peek())))
    }
}

/// An expression that binds more strongly than `floor`: one operand, and
/// then every operator and call that binds more strongly than `floor`, each
/// with what follows it, folded to the left.
pub open spec fn parse_expression(s: ParseState, floor: u8) -> Parsed<ExprView>
    decreases s.remaining(), 9nat,
{
    let head = parse_operand(s);
    match head.value {
        Some(left) => if s.reaches(head.state) {
            parse_infix_loop(head.state, floor, left)
        } else {
            head
        },
        None => head,
    }
}

/// One operand: a name, a literal, a unary operator with its operand, an
/// expression in parentheses, a conditional or a function literal.
pub open spec fn parse_operand(s: ParseState) -> Parsed<ExprView>
    decreases s.remaining(), 8nat,
{
    match s.cur() {
        TokenView::IDENT(name) => parsed(s, ExprView::Ident(name)),
        TokenView::INT(value) => parsed(s, ExprView::Literal(Literal::Int(value))),
        TokenView::TRUE => parsed(s, ExprView::Literal(Literal::Bool(true))),
        TokenView::FALSE => parsed(s, ExprView::Literal(Literal::Bool(false))),
        TokenView::PLUS | TokenView::MINUS | TokenView::BANG => parse_prefix_expr(s),
        TokenView::LPAREN => parse_grouped_expr(s),
        TokenView::IF => parse_if_expr(s),
        TokenView::FUNCTION => parse_function_literal(s),
        other => failed(s.with_error(unknown_token(other))),
    }
}

/// A unary operator, which is the current token, with its operand.
pub open spec fn parse_prefix_expr(s: ParseState) -> Parsed<ExprView>
    decreases s.remaining(), 7nat,
{
    match Prefix::of_token(s.cur()) {
        Some(op) => {
            let operand = parse_expression(s.advance(), PREFIX);
            match operand.value {
                Some(e) => parsed(operand.state, ExprView::Prefix(op, Box::new(e))),
                None => operand,
            }
        },
        None => failed(s.with_error(not_an_operator(s.cur()))),
    }
}

/// An expression between parentheses, the current token being the one that
/// opens them. A missing closing parenthesis is recorded also where the
/// expression itself was malformed.
pub open spec fn parse_grouped_expr(s: ParseState) -> Parsed<ExprView>
    decreases s.remaining(), 7nat,
{
    if s.cur() == TokenView::LPAREN {
        let inner = parse_expression(s.advance(), LOWEST);
        let close = expect_peek(inner.state, TokenView::RPAREN);
        if close.value is Some {
            Parsed { state: close.state, value: inner.value }
        } else {
            failed(close.state)
        }
    } else {
        failed(s)
    }
}

/// A conditional, the current token being `if`: a condition in parentheses,
/// a block, and after `else` another block.
pub open spec fn parse_if_expr(s: ParseState) -> Parsed<ExprView>
    decreases s.remaining(), 7nat,
{
    let open = expect_peek(s, TokenView::LPAREN);
    if open.value is None {
        failed(open.state)
    } else {
        let cond = parse_expression(open.state.advance(), LOWEST);
        if cond.value is None || !open.state.reaches(cond.state) {
            failed(cond.state)
        } else {
            let close = expect_peek(cond.state, TokenView::RPAREN);
            let brace = expect_peek(close.state, TokenView::LBRACE);
            if close.value is None {
                failed(close.state)
            } else if brace.value is None {
                failed(brace.state)
            } else {
                let cons = parse_block(brace.state);
                if cons.state.peek() == TokenView::ELSE && brace.state.reaches(cons.state) {
                    let alt_brace = expect_peek(cons.state.advance(), TokenView::LBRACE);
                    if alt_brace.value is None {
                        failed(alt_brace.state)
                    } else {
                        let alt = parse_block(alt_brace.state);
                        parsed(
                            alt.state,
                            ExprView::If(
                                Box::new(cond.value->0),
                                Box::new(StmtView::Block(cons.stmts)),
                                Some(Box::new(StmtView::Block(alt.stmts))),
                            ),
                        )
                    }
                } else {
                    parsed(
                        cons.state,
                        ExprView::If(
                            Box::new(cond.value->0),
                            Box::new(StmtView::Block(cons.stmts)),
                            None,
                        ),
                    )
                }
            }
        }
    }
}

/// A function literal, the current token being `fn`: parameter names in
/// parentheses and a block.
pub open spec fn parse_function_literal(s: ParseState) -> Parsed<ExprView>
    decreases s.remaining(), 7nat,
{
    let open = expect_peek(s, TokenView::LPAREN);
    if open.value is None {
        failed(open.state)
    } else {
        let params = parse_parameters(open.state);
        if params.value is None {
            failed(params.state)
        } else {
            let brace = expect_peek(params.state, TokenView::LBRACE);
            if brace.value is None {
                failed(brace.state)
            } else {
                proof {
                    lemma_parameters_move_on(open.state);
                }
                let body = parse_block(brace.state);
                parsed(body.state, ExprView::Function(params.value->0, body.stmts))
            }
        }
    }
}

/// The parameter names of a function literal, the current token being the
/// parenthesis that opens them; the state behind them stands on the one that
/// closes them.
pub open spec fn parse_parameters(s: ParseState) -> Parsed<Seq<Seq<char>>> {
    if s.peek() == TokenView::RPAREN {
        parsed(s.advance(), Seq::empty())
    } else {
        parse_more_parameters(s, Seq::empty())
    }
}

/// The parameter names that follow `names`: the look-ahead token has to be
/// a name, and after each name comes a comma and another name, or the
/// closing parenthesis.
pub open spec fn parse_more_parameters(s: ParseState, names: Seq<Seq<char>>) -> Parsed<
    Seq<Seq<char>>,
>
    decreases s.remaining(),
{
    match s.peek() {
        TokenView::IDENT(name) => {
            let at_name = s.advance();
            if at_name.peek() == TokenView::COMMA {
                parse_more_parameters(at_name.advance(), names.push(name))
            } else {
                let close = expect_peek(at_name, TokenView::RPAREN);
                if close.value is Some {
                    parsed(close.state, names.push(name))
                } else {
                    failed(close.state)
                }
            }
        },
        other => failed(s.with_error(expected_identifier(other))),
    }
}

/// Parsing parameter names never moves backwards.
pub proof fn lemma_parameters_move_on(s: ParseState)
    ensures
        parse_parameters(s).state.pos >= s.pos,
        parse_parameters(s).state.tokens == s.tokens,
{
    lemma_more_parameters_move_on(s, Seq::empty());
}

proof fn lemma_more_parameters_move_on(s: ParseState, names: Seq<Seq<char>>)
    ensures
        parse_more_parameters(s, names).state.pos >= s.pos,
        parse_more_parameters(s, names).state.tokens == s.tokens,
    decreases s.remaining(),
{
    match s.peek() {
        TokenView::IDENT(name) => {
            let at_name = s.advance();
            if at_name.peek() == TokenView::COMMA {
                lemma_more_parameters_move_on(at_name.advance(), names.push(name));
            }
        },
        _ => {},
    }
}

/// What follows an operand: while the look-ahead token is no semicolon and
/// binds more strongly than `floor`, a binary operator takes `left` and the
/// expression behind it, and an opening parenthesis makes `left` the callee
/// of a call.
pub open spec fn parse_infix_loop(s: ParseState, floor: u8, left: ExprView) -> Parsed<ExprView>
    decreases s.remaining(), 7nat,
{
    let next = s.peek();
    if next == TokenView::SEMICOLON || floor >= binding_power(next) {
        parsed(s, left)
    } else if Infix::of_token(next) is Some {
        let combined = parse_infix_expr(s.advance(), left);
        match combined.value {
            Some(e) => if s.passes(combined.state) {
                parse_infix_loop(combined.state, floor, e)
            } else {
                combined
            },
            None => combined,
        }
    } else if next == TokenView::LPAREN {
        let call = parse_call_expr(s.advance(), left);
        match call.value {
            Some(e) => if s.passes(call.state) {
                parse_infix_loop(call.state, floor, e)
            } else {
                call
            },
            None => call,
        }
    } else {
        parsed(s, left)
    }
}

/// A binary operator, which is the current token, between `left` and the
/// expression behind it, which binds more strongly than the operator.
pub open spec fn parse_infix_expr(s: ParseState, left: ExprView) -> Parsed<ExprView>
    decreases s.remaining(), 6nat,
{
    match Infix::of_token(s.cur()) {
        Some(op) => {
            let right = parse_expression(s.advance(), binding_power(s.cur()));
            match right.value {
                Some(e) => parsed(right.state, ExprView::Infix(Box::new(left), op, Box::new(e))),
                None => right,
            }
        },
        None => failed(s.with_error(not_an_operator(s.cur()))),
    }
}

/// A call of `callee`, the current token being the parenthesis that opens
/// the arguments.
pub open spec fn parse_call_expr(s: ParseState, callee: ExprView) -> Parsed<ExprView>
    decreases s.remaining(), 11nat,
{
    let args = parse_call_arguments(s);
    match args.value {
        Some(list) => parsed(args.state, ExprView::Call(Box::new(callee), list)),
        None => failed(args.state),
    }
}

/// The arguments of a call, the current token being the parenthesis that
/// opens them: expressions with commas between them, up to the closing
/// parenthesis.
pub open spec fn parse_call_arguments(s: ParseState) -> Parsed<Seq<ExprView>>
    decreases s.remaining(), 10nat,
{
    if s.peek() == TokenView::RPAREN {
        parsed(s.advance(), Seq::empty())
    } else if s.cur() == TokenView::LPAREN {
        let first = parse_expression(s.advance(), LOWEST);
        match first.value {
            Some(e) => if s.passes(first.state) {
                parse_more_arguments(first.state, seq![e])
            } else {
                failed(first.state)
            },
            None => failed(first.state),
        }
    } else {
        failed(s)
    }
}

/// The arguments that follow `args`: after each comma another expression,
/// then the closing parenthesis.
pub open spec fn parse_more_arguments(s: ParseState, args: Seq<ExprView>) -> Parsed<Seq<ExprView>>
    decreases s.remaining(), 10nat,
{
    if s.peek() == TokenView::COMMA {
        let next = parse_expression(s.advance().advance(), LOWEST);
        match next.value {
            Some(e) => if s.passes(next.state) {
                parse_more_arguments(next.state, args.push(e))
            } else {
                failed(next.state)
            },
            None => failed(next.state),
        }
    } else {
        let close = expect_peek(s, TokenView::RPAREN);
        if close.value is Some {
            parsed(close.state, args)
        } else {
            failed(close.state)
        }
    }
}

/// A block, the current token being the brace that opens it: statements up
/// to the closing brace or the end of the input.
pub open spec fn parse_block(s: ParseState) -> ParsedBlock
    decreases s.remaining(), 13nat,
{
    parse_block_loop(s.advance(), Seq::empty())
}

/// The statements of a block that follow `stmts`. A malformed statement is
/// left out.
pub open spec fn parse_block_loop(s: ParseState, stmts: Seq<StmtView>) -> ParsedBlock
    decreases s.remaining(), 12nat,
{
    if s.cur() == TokenView::RBRACE || s.cur() == TokenView::EOF {
        ParsedBlock { state: s, stmts }
    } else {
        let one = parse_statement(s);
        let extended = match one.value {
            Some(stmt) => stmts.push(stmt),
            None => stmts,
        };
        if s.reaches(one.state) {
            parse_block_loop(one.state.advance(), extended)
        } else {
            ParsedBlock { state: one.state, stmts: extended }
        }
    }
}

/// The statements of a program that follow `stmts`, up to the first `EOF`.
/// A malformed statement is left out.
pub open spec fn parse_program_loop(s: ParseState, stmts: Seq<StmtView>) -> ParsedBlock
    decreases s.remaining(), 12nat,
{
    if s.cur() == TokenView::EOF {
        ParsedBlock { state: s, stmts }
    } else {
        let one = parse_statement(s);
        let extended = match one.value {
            Some(stmt) => stmts.push(stmt),
            None => stmts,
        };
        if s.reaches(one.state) {
            parse_program_loop(one.state.advance(), extended)
        } else {
            ParsedBlock { state: one.state, stmts: extended }
        }
    }
}

/// One statement: `let`, `return`, or an expression.
pub open spec fn parse_statement(s: ParseState) -> Parsed<StmtView>
    decreases s.remaining(), 11nat,
{
    match s.cur() {
        TokenView::LET => parse_let_statement(s),
        TokenView::RETURN => parse_return_statement(s),
        _ => parse_expression_statement(s),
    }
}

/// `let`, a name, `=` and an expression; a semicolon behind it is taken.
pub open spec fn parse_let_statement(s: ParseState) -> Parsed<StmtView>
    decreases s.remaining(), 10nat,
{
    match s.peek() {
        TokenView::IDENT(name) => {
            let assign = expect_peek(s.advance(), TokenView::ASSIGN);
            if assign.value is None {
                failed(assign.state)
            } else {
                let value = parse_expression(assign.state.advance(), LOWEST);
                match value.value {
                    Some(e) => parsed(value.state.skip_semicolon(), StmtView::Let(name, e)),
                    None => failed(value.state),
                }
            }
        },
        other => failed(s.with_error(expected_identifier(other))),
    }
}

/// `return` and an expression; a semicolon behind it is taken.
pub open spec fn parse_return_statement(s: ParseState) -> Parsed<StmtView>
    decreases s.remaining(), 10nat,
{
    let value = parse_expression(s.advance(), LOWEST);
    match value.value {
        Some(e) => parsed(value.state.skip_semicolon(), StmtView::Return(e)),
        None => failed(value.state),
    }
}

/// An expression as a statement; a semicolon behind it is taken.
pub open spec fn parse_expression_statement(s: ParseState) -> Parsed<StmtView>
    decreases s.remaining(), 10nat,
{
    let value = parse_expression(s, LOWEST);
    match value.value {
        Some(e) => parsed(value.state.skip_semicolon(), StmtView::Expr(e)),
        None => failed(value.state),
    }
}

/// The program that a token sequence writes, with the messages for what was
/// malformed in it.
pub open spec fn parse_program(tokens: Seq<TokenView>) -> ParsedBlock {
    parse_program_loop(ParseState::start(tokens), Seq::empty())
}

/// Parsing an expression never moves backwards.
pub proof fn lemma_expression_moves_on(s: ParseState, floor: u8)
    ensures
        s.reaches(parse_expression(s, floor).state),
    decreases s.remaining(), 9nat,
{
    lemma_operand_moves_on(s);
    let head = parse_operand(s);
    if head.value is Some && s.reaches(head.state) {
        lemma_infix_loop_moves_on(head.state, floor, head.value->0);
    }
}

/// Parsing an operand never moves backwards.
pub proof fn lemma_operand_moves_on(s: ParseState)
    ensures
        s.reaches(parse_operand(s).state),
    decreases s.remaining(), 8nat,
{
    match s.cur() {
        TokenView::PLUS | TokenView::MINUS | TokenView::BANG => {
            lemma_expression_moves_on(s.advance(), PREFIX);
        },
        TokenView::LPAREN => {
            lemma_expression_moves_on(s.advance(), LOWEST);
        },
        TokenView::IF => {
            lemma_if_moves_on(s);
        },
        TokenView::FUNCTION => {
            lemma_function_literal_moves_on(s);
        },
        _ => {},
    }
}

proof fn lemma_if_moves_on(s: ParseState)
    ensures
        s.reaches(parse_if_expr(s).state),
    decreases s.remaining(), 7nat,
{
    let open = expect_peek(s, TokenView::LPAREN);
    if open.value is Some {
        lemma_expression_moves_on(open.state.advance(), LOWEST);
        let cond = parse_expression(open.state.advance(), LOWEST);
        if cond.value is Some && open.state.reaches(cond.state) {
            let close = expect_peek(cond.state, TokenView::RPAREN);
            let brace = expect_peek(close.state, TokenView::LBRACE);
            if close.value is Some && brace.value is Some {
                lemma_block_moves_on(brace.state);
                let cons = parse_block(brace.state);
                if cons.state.peek() == TokenView::ELSE && brace.state.reaches(cons.state) {
                    let alt_brace = expect_peek(cons.state.advance(), TokenView::LBRACE);
                    if alt_brace.value is Some {
                        lemma_block_moves_on(alt_brace.state);
                    }
                }
            }
        }
    }
}

proof fn lemma_function_literal_moves_on(s: ParseState)
    ensures
        s.reaches(parse_function_literal(s).state),
    decreases s.remaining(), 7nat,
{
    let open = expect_peek(s, TokenView::LPAREN);
    if open.value is Some {
        lemma_parameters_move_on(open.state);
        let params = parse_parameters(open.state);
        if params.value is Some {
            let brace = expect_peek(params.state, TokenView::LBRACE);
            if brace.value is Some {
                lemma_block_moves_on(brace.state);
            }
        }
    }
}

proof fn lemma_infix_loop_moves_on(s: ParseState, floor: u8, left: ExprView)
    ensures
        s.reaches(parse_infix_loop(s, floor, left).state),
    decreases s.remaining(), 7nat,
{
    let next = s.peek();
    if next == TokenView::SEMICOLON || floor >= binding_power(next) {
    } else if Infix::of_token(next) is Some {
        lemma_infix_moves_on(s.advance(), left);
        let combined = parse_infix_expr(s.advance(), left);
        if combined.value is Some && s.passes(combined.state) {
            lemma_infix_loop_moves_on(combined.state, floor, combined.value->0);
        }
    } else if next == TokenView::LPAREN {
        lemma_call_arguments_move_on(s.advance());
        let call = parse_call_expr(s.advance(), left);
        if call.value is Some && s.passes(call.state) {
            lemma_infix_loop_moves_on(call.state, floor, call.value->0);
        }
    }
}

proof fn lemma_infix_moves_on(s: ParseState, left: ExprView)
    ensures
        s.reaches(parse_infix_expr(s, left).state),
    decreases s.remaining(), 6nat,
{
    if Infix::of_token(s.cur()) is Some {
        lemma_expression_moves_on(s.advance(), binding_power(s.cur()));
    }
}

proof fn lemma_call_arguments_move_on(s: ParseState)
    ensures
        s.reaches(parse_call_arguments(s).state),
        forall|callee: ExprView| s.reaches(#[trigger] parse_call_expr(s, callee).state),
    decreases s.remaining(), 10nat,
{
    if s.peek() == TokenView::RPAREN {
    } else if s.cur() == TokenView::LPAREN {
        lemma_expression_moves_on(s.advance(), LOWEST);
        let first = parse_expression(s.advance(), LOWEST);
        if first.value is Some && s.passes(first.state) {
            lemma_more_arguments_move_on(first.state, seq![first.value->0]);
        }
    }
}

proof fn lemma_more_arguments_move_on(s: ParseState, args: Seq<ExprView>)
    ensures
        s.reaches(parse_more_arguments(s, args).state),
    decreases s.remaining(), 9nat,
{
    if s.peek() == TokenView::COMMA {
        lemma_expression_moves_on(s.advance().advance(), LOWEST);
        let next = parse_expression(s.advance().advance(), LOWEST);
        if next.value is Some && s.passes(next.state) {
            lemma_more_arguments_move_on(next.state, args.push(next.value->0));
        }
    }
}

/// Parsing a block never moves backwards.
pub proof fn lemma_block_moves_on(s: ParseState)
    ensures
        s.reaches(parse_block(s).state),
    decreases s.remaining(), 13nat,
{
    lemma_block_loop_moves_on(s.advance(), Seq::empty());
}

proof fn lemma_block_loop_moves_on(s: ParseState, stmts: Seq<StmtView>)
    ensures
        s.reaches(parse_block_loop(s, stmts).state),
    decreases s.remaining(), 12nat,
{
    if s.cur() == TokenView::RBRACE || s.cur() == TokenView::EOF {
    } else {
        lemma_statement_moves_on(s);
        let one = parse_statement(s);
        let extended = match one.value {
            Some(stmt) => stmts.push(stmt),
            None => stmts,
        };
        if s.reaches(one.state) {
            lemma_block_loop_moves_on(one.state.advance(), extended);
        }
    }
}

/// Parsing a program never moves backwards.
pub proof fn lemma_program_moves_on(s: ParseState, stmts: Seq<StmtView>)
    ensures
        s.reaches(parse_program_loop(s, stmts).state),
    decreases s.remaining(), 12nat,
{
    if s.cur() == TokenView::EOF {
    } else {
        lemma_statement_moves_on(s);
        let one = parse_statement(s);
        let extended = match one.value {
            Some(stmt) => stmts.push(stmt),
            None => stmts,
        };
        if s.reaches(one.state) {
            lemma_program_moves_on(one.state.advance(), extended);
        }
    }
}

/// Parsing a statement never moves backwards.
pub proof fn lemma_statement_moves_on(s: ParseState)
    ensures
        s.reaches(parse_statement(s).state),
    decreases s.remaining(), 11nat,
{
    match s.cur() {
        TokenView::LET => {
            match s.peek() {
                TokenView::IDENT(_) => {
                    let assign = expect_peek(s.advance(), TokenView::ASSIGN);
                    if assign.value is Some {
                        lemma_expression_moves_on(assign.state.advance(), LOWEST);
                    }
                },
                _ => {},
            }
        },
        TokenView::RETURN => {
            lemma_expression_moves_on(s.advance(), LOWEST);
        },
        _ => {
            lemma_expression_moves_on(s, LOWEST);
        },
    }
}

} // verus!
