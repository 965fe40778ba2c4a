//! Reading back what was written: the tokens that write an expression or a
//! statement are parsed into that expression or statement again, and
//! operators without parentheses are grouped by how strongly they bind.

use vstd::prelude::*;
use crate::ast::{ExprView, Infix, Literal, Prefix, StmtView};
use crate::grammar::{
    ParseState, ParsedBlock, binding_power, expect_peek, parse_block, parse_block_loop,
    parse_call_arguments, parse_call_expr, parse_expression, parse_expression_statement,
    parse_function_literal, parse_grouped_expr, parse_infix_expr, parse_infix_loop,
    parse_let_statement, parse_more_arguments, parse_more_parameters, parse_operand,
    parse_parameters, parse_prefix_expr, parse_program, parse_program_loop,
    parse_return_statement, parse_statement, parsed, token_at, CALL, LOWEST, PREFIX,
};
use crate::token::TokenView;

verus! {

/// The token that writes a unary operator.
pub open spec fn prefix_token(op: Prefix) -> TokenView {
    match op {
        Prefix::Plus => TokenView::PLUS,
        Prefix::Minus => TokenView::MINUS,
        Prefix::Not => TokenView::BANG,
    }
}

/// The token that writes a binary operator.
pub open spec fn infix_token(op: Infix) -> TokenView {
    match op {
        Infix::Plus => TokenView::PLUS,
        Infix::Minus => TokenView::MINUS,
        Infix::Divide => TokenView::SLASH,
        Infix::Multiply => TokenView::ASTERISK,
        Infix::Equal => TokenView::EQ,
        Infix::NotEqual => TokenView::NOTEQ,
        Infix::GreaterThan => TokenView::GT,
        Infix::LessThan => TokenView::LT,
    }
}

/// An expression made of names, literals, operators and calls.
pub open spec fn is_plain(e: ExprView) -> bool
    decreases e,
{
    match e {
        ExprView::Ident(_) => true,
        ExprView::Literal(_) => true,
        ExprView::Prefix(_, operand) => is_plain(*operand),
        ExprView::Infix(left, _, right) => is_plain(*left) && is_plain(*right),
        ExprView::Call(callee, args) => is_plain(*callee) && forall|i: int|
            0 <= i < args.len() ==> is_plain(#[trigger] args[i]),
        ExprView::Function(_, body) => is_plain_body(body),
        _ => false,
    }
}

/// A statement whose expression is plain, and which is no block.
pub open spec fn is_plain_stmt(s: StmtView) -> bool
    decreases s,
{
    match s {
        StmtView::Let(_, value) => is_plain(value),
        StmtView::Return(value) => is_plain(value),
        StmtView::Expr(value) => is_plain(value),
        StmtView::Block(_) => false,
    }
}

/// The body of a function literal whose statements are plain, and in which
/// no statement but the first starts with a parenthesis. Such a statement
/// would be read as the arguments of a call of the expression before it.
pub open spec fn is_plain_body(stmts: Seq<StmtView>) -> bool
    decreases stmts,
{
    forall|i: int|
        0 <= i < stmts.len() ==> is_plain_stmt(#[trigger] stmts[i]) && (i > 0 ==> !opens_group(
            stmts[i],
        ))
}

/// The expression is written with a parenthesis first: an operator with its
/// operands, or a call of such an expression.
pub open spec fn leads_with_group(e: ExprView) -> bool
    decreases e,
{
    match e {
        ExprView::Prefix(_, _) => true,
        ExprView::Infix(_, _, _) => true,
        ExprView::Call(callee, _) => leads_with_group(*callee),
        _ => false,
    }
}

/// The statement is written with a parenthesis first.
pub open spec fn opens_group(s: StmtView) -> bool {
    s matches StmtView::Expr(e) && leads_with_group(e)
}

/// The tokens that write a plain expression with every operator and its
/// operands in parentheses, as the rendering of expressions puts them.
pub open spec fn expr_tokens(e: ExprView) -> Seq<TokenView>
    decreases e,
{
    match e {
        ExprView::Ident(name) => seq![TokenView::IDENT(name)],
        ExprView::Literal(Literal::Int(value)) => seq![TokenView::INT(value)],
        ExprView::Literal(Literal::Bool(value)) => if value {
            seq![TokenView::TRUE]
        } else {
            seq![TokenView::FALSE]
        },
        ExprView::Prefix(op, operand) => seq![TokenView::LPAREN, prefix_token(op)] + expr_tokens(
            *operand,
        ) + seq![TokenView::RPAREN],
        ExprView::Infix(left, op, right) => seq![TokenView::LPAREN] + expr_tokens(*left)
            + seq![infix_token(op)] + expr_tokens(*right) + seq![TokenView::RPAREN],
        ExprView::Call(callee, args) => expr_tokens(*callee) + seq![TokenView::LPAREN]
            + args_tokens(args) + seq![TokenView::RPAREN],
        ExprView::Function(params, body) => seq![TokenView::FUNCTION, TokenView::LPAREN]
            + params_tokens(params) + seq![TokenView::RPAREN, TokenView::LBRACE] + body_tokens(
            body,
        ) + seq![TokenView::RBRACE],
        _ => Seq::empty(),
    }
}

/// The tokens that write a plain statement, without a semicolon.
pub open spec fn stmt_tokens(s: StmtView) -> Seq<TokenView>
    decreases s,
{
    match s {
        StmtView::Let(name, value) => seq![
            TokenView::LET,
            TokenView::IDENT(name),
            TokenView::ASSIGN,
        ] + expr_tokens(value),
        StmtView::Return(value) => seq![TokenView::RETURN] + expr_tokens(value),
        StmtView::Expr(value) => expr_tokens(value),
        StmtView::Block(_) => Seq::empty(),
    }
}

/// The tokens that write the statements of a body, one after another.
pub open spec fn body_tokens(stmts: Seq<StmtView>) -> Seq<TokenView>
    decreases stmts,
{
    if stmts.len() == 0 {
        Seq::empty()
    } else {
        stmt_tokens(stmts[0]) + body_tokens(stmts.drop_first())
    }
}

/// The tokens that write the parameter names of a function literal, with
/// commas between them.
pub open spec fn params_tokens(params: Seq<Seq<char>>) -> Seq<TokenView> {
    if params.len() == 0 {
        Seq::empty()
    } else {
        seq![TokenView::IDENT(params[0])] + more_params_tokens(params.drop_first())
    }
}

/// The tokens that write further parameter names, a comma before each.
pub open spec fn more_params_tokens(params: Seq<Seq<char>>) -> Seq<TokenView>
    decreases params.len(),
{
    if params.len() == 0 {
        Seq::empty()
    } else {
        seq![TokenView::COMMA, TokenView::IDENT(params[0])] + more_params_tokens(
            params.drop_first(),
        )
    }
}

/// The tokens that write the arguments of a call, with commas between them.
pub open spec fn args_tokens(args: Seq<ExprView>) -> Seq<TokenView>
    decreases args,
{
    if args.len() == 0 {
        Seq::empty()
    } else {
        expr_tokens(args[0]) + more_args_tokens(args.drop_first())
    }
}

/// The tokens that write further arguments of a call, a comma before each.
pub open spec fn more_args_tokens(args: Seq<ExprView>) -> Seq<TokenView>
    decreases args,
{
    if args.len() == 0 {
        Seq::empty()
    } else {
        seq![TokenView::COMMA] + expr_tokens(args[0]) + more_args_tokens(args.drop_first())
    }
}

/// The state at position `pos` of a token sequence.
pub open spec fn state_at(tokens: Seq<TokenView>, pos: int, errors: Seq<Seq<char>>) -> ParseState {
    ParseState { tokens, pos: pos as nat, errors }
}

/// A token at which an expression that binds more strongly than `floor`
/// ends.
pub open spec fn ends_expression(tok: TokenView, floor: u8) -> bool {
    tok == TokenView::SEMICOLON || binding_power(tok) <= floor
}

/// A token that the tokens of a plain expression can start with.
pub open spec fn starts_expression(tok: TokenView) -> bool {
    match tok {
        TokenView::IDENT(_) => true,
        TokenView::INT(_) => true,
        TokenView::TRUE => true,
        TokenView::FALSE => true,
        TokenView::LPAREN => true,
        TokenView::FUNCTION => true,
        _ => false,
    }
}

/// The token sequence of a plain expression is not empty, its first token
/// starts an operand, and it is a parenthesis exactly where the expression
/// is written with a parenthesis first.
pub proof fn lemma_expr_tokens_start(e: ExprView)
    requires
        is_plain(e),
    ensures
        expr_tokens(e).len() >= 1,
        starts_expression(expr_tokens(e)[0]),
        expr_tokens(e)[0] == TokenView::LPAREN <==> leads_with_group(e),
    decreases e,
{
    match e {
        ExprView::Call(callee, args) => {
            lemma_expr_tokens_start(*callee);
        },
        _ => {},
    }
}

/// The token sequence of a plain statement is not empty, its first token is
/// `let`, `return` or one that starts an expression, and it is a parenthesis
/// exactly where the statement is written with a parenthesis first.
pub proof fn lemma_stmt_tokens_start(stmt: StmtView)
    requires
        is_plain_stmt(stmt),
    ensures
        stmt_tokens(stmt).len() >= 1,
        stmt_tokens(stmt)[0] == TokenView::LET || stmt_tokens(stmt)[0] == TokenView::RETURN
            || starts_expression(stmt_tokens(stmt)[0]),
        stmt_tokens(stmt)[0] == TokenView::LPAREN <==> opens_group(stmt),
{
    match stmt {
        StmtView::Let(_, value) => {
            lemma_expr_tokens_start(value);
        },
        StmtView::Return(value) => {
            lemma_expr_tokens_start(value);
        },
        StmtView::Expr(value) => {
            lemma_expr_tokens_start(value);
        },
        StmtView::Block(_) => {},
    }
}

/// Parsing an expression at the start of the tokens of a plain expression
/// `e` reads all of them as `e` and goes on from its last token with `e` as
/// the operand on the left, whatever stands before and behind the tokens.
pub proof fn lemma_parse_expression_reads_tokens(
    pre: Seq<TokenView>,
    e: ExprView,
    post: Seq<TokenView>,
    floor: u8,
    errors: Seq<Seq<char>>,
)
    requires
        is_plain(e),
        floor < CALL,
    ensures
        expr_tokens(e).len() >= 1,
        parse_expression(state_at(pre + expr_tokens(e) + post, pre.len() as int, errors), floor)
            == parse_infix_loop(
            state_at(
                pre + expr_tokens(e) + post,
                (pre.len() + expr_tokens(e).len() - 1) as int,
                errors,
            ),
            floor,
            e,
        ),
    decreases e, 2nat,
{
    lemma_expr_tokens_start(e);
    match e {
        ExprView::Call(callee, args) => {
            lemma_parse_expression_reads_call(pre, e, post, floor, errors);
        },
        _ => {
            let tokens = pre + expr_tokens(e) + post;
            let s = state_at(tokens, pre.len() as int, errors);
            let s_end = state_at(tokens, (pre.len() + expr_tokens(e).len() - 1) as int, errors);
            lemma_parse_operand_reads_tokens(pre, e, post, errors);
            assert(parse_operand(s) == parsed(s_end, e));
            assert(s.reaches(s_end));
        },
    }
}

proof fn lemma_call_layout(
    pre: Seq<TokenView>,
    tf: Seq<TokenView>,
    ta: Seq<TokenView>,
    post: Seq<TokenView>,
)
    ensures
        ({
            let lp = seq![TokenView::LPAREN];
            let rp = seq![TokenView::RPAREN];
            let tokens = pre + (tf + lp + ta + rp) + post;
            let p = pre.len() as int;
            &&& tokens == pre + tf + (lp + ta + rp + post)
            &&& tokens == (pre + tf) + lp + ta + rp + post
            &&& (pre + tf).len() == p + tf.len()
            &&& (tf + lp + ta + rp).len() == tf.len() + ta.len() + 2
            &&& token_at(tokens, p + tf.len()) == TokenView::LPAREN
        }),
{
    let lp = seq![TokenView::LPAREN];
    let rp = seq![TokenView::RPAREN];
    let tokens = pre + (tf + lp + ta + rp) + post;
    assert(tokens =~= pre + tf + (lp + ta + rp + post));
    assert(tokens =~= (pre + tf) + lp + ta + rp + post);
}

#[verifier::rlimit(100)]
proof fn lemma_parse_expression_reads_call(
    pre: Seq<TokenView>,
    e: ExprView,
    post: Seq<TokenView>,
    floor: u8,
    errors: Seq<Seq<char>>,
)
    requires
        is_plain(e),
        e is Call,
        floor < CALL,
    ensures
        parse_expression(state_at(pre + expr_tokens(e) + post, pre.len() as int, errors), floor)
            == parse_infix_loop(
            state_at(
                pre + expr_tokens(e) + post,
                (pre.len() + expr_tokens(e).len() - 1) as int,
                errors,
            ),
            floor,
            e,
        ),
    decreases e, 1nat,
{
    let callee = *e->Call_0;
    let args = e->Call_1;
    let tf = expr_tokens(callee);
    let ta = args_tokens(args);
    let tokens = pre + expr_tokens(e) + post;
    let p = pre.len() as int;
    lemma_expr_tokens_start(callee);
    lemma_call_layout(pre, tf, ta, post);
    lemma_parse_expression_reads_tokens(
        pre,
        callee,
        seq![TokenView::LPAREN] + ta + seq![TokenView::RPAREN] + post,
        floor,
        errors,
    );
    lemma_parse_arguments_reads_tokens(pre + tf, args, post, errors);
    lemma_call_steps(tokens, errors, p, callee, args, tf.len() as int, ta.len() as int, floor);
}

/// A callee of `n` tokens that is read whole, and arguments of `m` tokens
/// in parentheses that are read whole, are read as a call.
proof fn lemma_call_steps(
    tokens: Seq<TokenView>,
    errors: Seq<Seq<char>>,
    p: int,
    callee: ExprView,
    args: Seq<ExprView>,
    n: int,
    m: int,
    floor: u8,
)
    requires
        0 <= p,
        1 <= n,
        0 <= m,
        floor < CALL,
        token_at(tokens, p + n) == TokenView::LPAREN,
        parse_expression(state_at(tokens, p, errors), floor) == parse_infix_loop(
            state_at(tokens, p + n - 1, errors),
            floor,
            callee,
        ),
        parse_call_arguments(state_at(tokens, p + n, errors)) == parsed(
            state_at(tokens, p + n + 1 + m, errors),
            args,
        ),
    ensures
        parse_expression(state_at(tokens, p, errors), floor) == parse_infix_loop(
            state_at(tokens, p + n + 1 + m, errors),
            floor,
            ExprView::Call(Box::new(callee), args),
        ),
{
    let e = ExprView::Call(Box::new(callee), args);
    let s_f = state_at(tokens, p + n - 1, errors);
    let s_lp = state_at(tokens, p + n, errors);
    let s_rp = state_at(tokens, p + n + 1 + m, errors);
    assert(s_f.advance() == s_lp);
    assert(s_f.peek() == TokenView::LPAREN);
    assert(parse_call_expr(s_lp, callee) == parsed(s_rp, e));
    assert(s_f.passes(s_rp));
    assert(parse_infix_loop(s_f, floor, callee) == parse_infix_loop(s_rp, floor, e));
}

/// Parsing an operand at the start of the tokens of a plain expression that
/// is no call reads all of them as that expression.
pub proof fn lemma_parse_operand_reads_tokens(
    pre: Seq<TokenView>,
    e: ExprView,
    post: Seq<TokenView>,
    errors: Seq<Seq<char>>,
)
    requires
        is_plain(e),
        !(e is Call),
    ensures
        expr_tokens(e).len() >= 1,
        parse_operand(state_at(pre + expr_tokens(e) + post, pre.len() as int, errors)) == parsed(
            state_at(
                pre + expr_tokens(e) + post,
                (pre.len() + expr_tokens(e).len() - 1) as int,
                errors,
            ),
            e,
        ),
    decreases e, 1nat,
{
    lemma_expr_tokens_start(e);
    match e {
        ExprView::Prefix(op, operand) => {
            lemma_parse_operand_reads_prefix(pre, e, post, errors);
        },
        ExprView::Infix(left, op, right) => {
            lemma_parse_operand_reads_infix(pre, e, post, errors);
        },
        ExprView::Function(params, body) => {
            lemma_parse_operand_reads_function(pre, e, post, errors);
        },
        _ => {
            let tokens = pre + expr_tokens(e) + post;
            let s = state_at(tokens, pre.len() as int, errors);
            lemma_token_in_middle(pre, expr_tokens(e), post, 0);
            assert(s.cur() == expr_tokens(e)[0]);
        },
    }
}

#[verifier::rlimit(100)]
proof fn lemma_parse_operand_reads_prefix(
    pre: Seq<TokenView>,
    e: ExprView,
    post: Seq<TokenView>,
    errors: Seq<Seq<char>>,
)
    requires
        is_plain(e),
        e is Prefix,
    ensures
        parse_operand(state_at(pre + expr_tokens(e) + post, pre.len() as int, errors)) == parsed(
            state_at(
                pre + expr_tokens(e) + post,
                (pre.len() + expr_tokens(e).len() - 1) as int,
                errors,
            ),
            e,
        ),
    decreases e, 0nat,
{
    let tokens = pre + expr_tokens(e) + post;
    let p = pre.len() as int;
    let op = e->Prefix_0;
    let operand = e->Prefix_1;
    let tx = expr_tokens(*operand);
    let head = seq![TokenView::LPAREN, prefix_token(op)];
    let tail = seq![TokenView::RPAREN];
    lemma_expr_tokens_start(*operand);
    assert(parse_expression(state_at(tokens, p + 2, errors), PREFIX) == parse_infix_loop(
        state_at(tokens, p + 1 + tx.len(), errors),
        PREFIX,
        *operand,
    )) by {
        lemma_regroup(pre, head, tx, tail, post);
        lemma_parse_expression_reads_tokens(
            pre + head,
            *operand,
            tail + post,
            PREFIX,
            errors,
        );
    }
    assert(token_at(tokens, p) == TokenView::LPAREN && token_at(tokens, p + 1)
        == prefix_token(op) && token_at(tokens, p + 2 + tx.len()) == TokenView::RPAREN) by {
        lemma_token_in_middle(pre, expr_tokens(e), post, 0);
        lemma_token_in_middle(pre, expr_tokens(e), post, 1);
        lemma_token_in_middle(pre, expr_tokens(e), post, 2 + tx.len() as int);
    }
    lemma_group_of_prefix(tokens, errors, p, op, *operand, tx.len() as int);
}

#[verifier::rlimit(100)]
proof fn lemma_parse_operand_reads_infix(
    pre: Seq<TokenView>,
    e: ExprView,
    post: Seq<TokenView>,
    errors: Seq<Seq<char>>,
)
    requires
        is_plain(e),
        e is Infix,
    ensures
        parse_operand(state_at(pre + expr_tokens(e) + post, pre.len() as int, errors)) == parsed(
            state_at(
                pre + expr_tokens(e) + post,
                (pre.len() + expr_tokens(e).len() - 1) as int,
                errors,
            ),
            e,
        ),
    decreases e, 0nat,
{
    let tokens = pre + expr_tokens(e) + post;
    let p = pre.len() as int;
    let left = *e->Infix_0;
    let op = e->Infix_1;
    let right = *e->Infix_2;
    let tl = expr_tokens(left);
    let tr = expr_tokens(right);
    let power = binding_power(infix_token(op));
    let pre_l = pre + seq![TokenView::LPAREN];
    let post_l = seq![infix_token(op)] + tr + seq![TokenView::RPAREN] + post;
    let pre_r = pre + seq![TokenView::LPAREN] + tl + seq![infix_token(op)];
    let post_r = seq![TokenView::RPAREN] + post;
    lemma_expr_tokens_start(left);
    lemma_expr_tokens_start(right);
    lemma_infix_layout(pre, tl, infix_token(op), tr, post);
    assert(parse_expression(state_at(tokens, p + 1, errors), LOWEST) == parse_infix_loop(
        state_at(tokens, p + tl.len(), errors),
        LOWEST,
        left,
    )) by {
        lemma_parse_expression_reads_tokens(pre_l, left, post_l, LOWEST, errors);
    }
    assert(parse_expression(state_at(tokens, p + 2 + tl.len(), errors), power)
        == parse_infix_loop(
        state_at(tokens, p + 1 + tl.len() + tr.len(), errors),
        power,
        right,
    )) by {
        lemma_parse_expression_reads_tokens(pre_r, right, post_r, power, errors);
    }
    lemma_group_of_infix(tokens, errors, p, left, op, right, tl.len() as int, tr.len() as int);
}

/// How the tokens of a binary operator between two operands, in
/// parentheses, lie between what stands before and behind them.
proof fn lemma_infix_layout(
    pre: Seq<TokenView>,
    tl: Seq<TokenView>,
    op: TokenView,
    tr: Seq<TokenView>,
    post: Seq<TokenView>,
)
    ensures
        ({
            let lp = seq![TokenView::LPAREN];
            let rp = seq![TokenView::RPAREN];
            let tokens = pre + (lp + tl + seq![op] + tr + rp) + post;
            let p = pre.len() as int;
            &&& tokens == (pre + lp) + tl + (seq![op] + tr + rp + post)
            &&& tokens == (pre + lp + tl + seq![op]) + tr + (rp + post)
            &&& (pre + lp).len() == p + 1
            &&& (pre + lp + tl + seq![op]).len() == p + 2 + tl.len()
            &&& (lp + tl + seq![op] + tr + rp).len() == 3 + tl.len() + tr.len()
            &&& token_at(tokens, p) == TokenView::LPAREN
            &&& token_at(tokens, p + 1 + tl.len()) == op
            &&& token_at(tokens, p + 2 + tl.len() + tr.len()) == TokenView::RPAREN
        }),
{
    let lp = seq![TokenView::LPAREN];
    let rp = seq![TokenView::RPAREN];
    let tokens = pre + (lp + tl + seq![op] + tr + rp) + post;
    assert(tokens =~= (pre + lp) + tl + (seq![op] + tr + rp + post));
    assert(tokens =~= (pre + lp + tl + seq![op]) + tr + (rp + post));
}

/// A token of the middle one of three sequences, found in their
/// concatenation.
proof fn lemma_token_in_middle(
    pre: Seq<TokenView>,
    mid: Seq<TokenView>,
    post: Seq<TokenView>,
    i: int,
)
    requires
        0 <= i < mid.len(),
    ensures
        token_at(pre + mid + post, pre.len() + i) == mid[i],
{
}

/// Five sequences written one after another, grouped in two ways.
proof fn lemma_regroup(
    pre: Seq<TokenView>,
    head: Seq<TokenView>,
    body: Seq<TokenView>,
    tail: Seq<TokenView>,
    post: Seq<TokenView>,
)
    ensures
        pre + (head + body + tail) + post == (pre + head) + body + (tail + post),
        (pre + head).len() == pre.len() + head.len(),
{
    assert(pre + (head + body + tail) + post =~= (pre + head) + body + (tail + post));
}

/// A parenthesis, a unary operator, an operand of `n` tokens that is read
/// whole, and a closing parenthesis are read as the operator on the operand.
proof fn lemma_group_of_prefix(
    tokens: Seq<TokenView>,
    errors: Seq<Seq<char>>,
    p: int,
    op: Prefix,
    operand: ExprView,
    n: int,
)
    requires
        0 <= p,
        1 <= n,
        token_at(tokens, p) == TokenView::LPAREN,
        token_at(tokens, p + 1) == prefix_token(op),
        token_at(tokens, p + 2 + n) == TokenView::RPAREN,
        parse_expression(state_at(tokens, p + 2, errors), PREFIX) == parse_infix_loop(
            state_at(tokens, p + 1 + n, errors),
            PREFIX,
            operand,
        ),
    ensures
        parse_operand(state_at(tokens, p, errors)) == parsed(
            state_at(tokens, p + 2 + n, errors),
            ExprView::Prefix(op, Box::new(operand)),
        ),
{
    let e = ExprView::Prefix(op, Box::new(operand));
    let s = state_at(tokens, p, errors);
    let s_op = state_at(tokens, p + 1, errors);
    let s_x = state_at(tokens, p + 2, errors);
    let s_x_end = state_at(tokens, p + 1 + n, errors);
    let s_end = state_at(tokens, p + 2 + n, errors);
    assert(s.advance() == s_op);
    assert(s_op.advance() == s_x);
    assert(s_x_end.advance() == s_end);
    assert(parse_infix_loop(s_x_end, PREFIX, operand) == parsed(s_x_end, operand));
    assert(parse_prefix_expr(s_op) == parsed(s_x_end, e));
    assert(parse_operand(s_op) == parsed(s_x_end, e));
    assert(s_op.reaches(s_x_end));
    assert(parse_infix_loop(s_x_end, LOWEST, e) == parsed(s_x_end, e));
    assert(parse_expression(s_op, LOWEST) == parsed(s_x_end, e));
    assert(expect_peek(s_x_end, TokenView::RPAREN) == parsed(s_end, ()));
    assert(parse_grouped_expr(s) == parsed(s_end, e));
}

/// A parenthesis, a left operand of `n` tokens that is read whole, a binary
/// operator, a right operand of `m` tokens that is read whole, and a closing
/// parenthesis are read as the operator between the operands.
proof fn lemma_group_of_infix(
    tokens: Seq<TokenView>,
    errors: Seq<Seq<char>>,
    p: int,
    left: ExprView,
    op: Infix,
    right: ExprView,
    n: int,
    m: int,
)
    requires
        0 <= p,
        1 <= n,
        1 <= m,
        token_at(tokens, p) == TokenView::LPAREN,
        token_at(tokens, p + 1 + n) == infix_token(op),
        token_at(tokens, p + 2 + n + m) == TokenView::RPAREN,
        parse_expression(state_at(tokens, p + 1, errors), LOWEST) == parse_infix_loop(
            state_at(tokens, p + n, errors),
            LOWEST,
            left,
        ),
        parse_expression(state_at(tokens, p + 2 + n, errors), binding_power(infix_token(op)))
            == parse_infix_loop(
            state_at(tokens, p + 1 + n + m, errors),
            binding_power(infix_token(op)),
            right,
        ),
    ensures
        parse_operand(state_at(tokens, p, errors)) == parsed(
            state_at(tokens, p + 2 + n + m, errors),
            ExprView::Infix(Box::new(left), op, Box::new(right)),
        ),
{
    let e = ExprView::Infix(Box::new(left), op, Box::new(right));
    let power = binding_power(infix_token(op));
    let s = state_at(tokens, p, errors);
    let s_l = state_at(tokens, p + 1, errors);
    let s_l_end = state_at(tokens, p + n, errors);
    let s_mid = state_at(tokens, p + 1 + n, errors);
    let s_r = state_at(tokens, p + 2 + n, errors);
    let s_r_end = state_at(tokens, p + 1 + n + m, errors);
    let s_end = state_at(tokens, p + 2 + n + m, errors);
    assert(s.advance() == s_l);
    assert(s_l_end.advance() == s_mid);
    assert(s_mid.advance() == s_r);
    assert(s_r_end.advance() == s_end);
    assert(parse_infix_loop(s_r_end, power, right) == parsed(s_r_end, right));
    assert(parse_infix_expr(s_mid, left) == parsed(s_r_end, e));
    assert(parse_infix_loop(s_r_end, LOWEST, e) == parsed(s_r_end, e));
    assert(s_l_end.passes(s_r_end));
    assert(parse_infix_loop(s_l_end, LOWEST, left) == parsed(s_r_end, e));
    assert(expect_peek(s_r_end, TokenView::RPAREN) == parsed(s_end, ()));
    assert(parse_grouped_expr(s) == parsed(s_end, e));
}

/// Parsing the arguments of a call at the parenthesis that opens them reads
/// the tokens of plain arguments up to the parenthesis that closes them.
pub proof fn lemma_parse_arguments_reads_tokens(
    pre: Seq<TokenView>,
    args: Seq<ExprView>,
    post: Seq<TokenView>,
    errors: Seq<Seq<char>>,
)
    requires
        forall|i: int| 0 <= i < args.len() ==> is_plain(#[trigger] args[i]),
    ensures
        parse_call_arguments(
            state_at(
                pre + seq![TokenView::LPAREN] + args_tokens(args) + seq![TokenView::RPAREN] + post,
                pre.len() as int,
                errors,
            ),
        ) == parsed(
            state_at(
                pre + seq![TokenView::LPAREN] + args_tokens(args) + seq![TokenView::RPAREN] + post,
                (pre.len() + 1 + args_tokens(args).len()) as int,
                errors,
            ),
            args,
        ),
    decreases args, 1nat,
{
    let lp = seq![TokenView::LPAREN];
    let rp = seq![TokenView::RPAREN];
    let ta = args_tokens(args);
    let tokens = pre + lp + ta + rp + post;
    let s = state_at(tokens, pre.len() as int, errors);
    let s_rp = state_at(tokens, (pre.len() + 1 + ta.len()) as int, errors);
    assert(s.cur() == TokenView::LPAREN);
    if args.len() == 0 {
        assert(s.peek() == TokenView::RPAREN);
        assert(s.advance() == s_rp);
        assert(args =~= Seq::<ExprView>::empty());
    } else {
        let first = args[0];
        let rest = args.drop_first();
        let t0 = expr_tokens(first);
        let tm = more_args_tokens(rest);
        lemma_expr_tokens_start(first);
        let pre_0 = pre + lp;
        let post_0 = tm + rp + post;
        assert(tokens =~= pre_0 + t0 + post_0);
        lemma_parse_expression_reads_tokens(pre_0, first, post_0, LOWEST, errors);
        let s_0 = state_at(tokens, (pre.len() + 1) as int, errors);
        let s_0_end = state_at(tokens, (pre.len() + 1 + t0.len() - 1) as int, errors);
        assert(s.peek() == t0[0]);
        assert(s.advance() == s_0);
        assert(parse_expression(s_0, LOWEST) == parse_infix_loop(s_0_end, LOWEST, first));
        assert(s_0_end.peek() == (tm + rp)[0]);
        assert(rest.len() > 0 ==> tm[0] == TokenView::COMMA);
        assert(parse_infix_loop(s_0_end, LOWEST, first) == parsed(s_0_end, first));
        assert(s.passes(s_0_end));
        let pre_m = pre + lp + t0;
        assert(tokens =~= pre_m + tm + rp + post);
        assert forall|i: int| 0 <= i < rest.len() implies is_plain(#[trigger] rest[i]) by {
            assert(rest[i] == args[i + 1]);
        }
        lemma_parse_more_arguments_reads_tokens(pre_m, seq![first], rest, post, errors);
        assert(seq![first] + rest =~= args);
        assert(parse_more_arguments(s_0_end, seq![first]) == parsed(s_rp, args));
    }
}

/// Parsing further arguments behind an argument reads the tokens of plain
/// arguments, a comma before each, up to the closing parenthesis.
#[verifier::rlimit(100)]
pub proof fn lemma_parse_more_arguments_reads_tokens(
    pre: Seq<TokenView>,
    done: Seq<ExprView>,
    rest: Seq<ExprView>,
    post: Seq<TokenView>,
    errors: Seq<Seq<char>>,
)
    requires
        pre.len() >= 1,
        forall|i: int| 0 <= i < rest.len() ==> is_plain(#[trigger] rest[i]),
    ensures
        parse_more_arguments(
            state_at(
                pre + more_args_tokens(rest) + seq![TokenView::RPAREN] + post,
                (pre.len() - 1) as int,
                errors,
            ),
            done,
        ) == parsed(
            state_at(
                pre + more_args_tokens(rest) + seq![TokenView::RPAREN] + post,
                (pre.len() + more_args_tokens(rest).len()) as int,
                errors,
            ),
            done + rest,
        ),
    decreases rest, 0nat,
{
    let rp = seq![TokenView::RPAREN];
    let comma = seq![TokenView::COMMA];
    let tm = more_args_tokens(rest);
    let tokens = pre + tm + rp + post;
    let s = state_at(tokens, (pre.len() - 1) as int, errors);
    let s_rp = state_at(tokens, (pre.len() + tm.len()) as int, errors);
    if rest.len() == 0 {
        assert(s.peek() == TokenView::RPAREN);
        assert(s.advance() == s_rp);
        assert(done + rest =~= done);
        assert(expect_peek(s, TokenView::RPAREN) == parsed(s_rp, ()));
    } else {
        let first = rest[0];
        let later = rest.drop_first();
        let t0 = expr_tokens(first);
        let tl = more_args_tokens(later);
        lemma_expr_tokens_start(first);
        let pre_0 = pre + comma;
        let post_0 = tl + rp + post;
        assert(tokens =~= pre_0 + t0 + post_0);
        lemma_parse_expression_reads_tokens(pre_0, first, post_0, LOWEST, errors);
        let s_0 = state_at(tokens, (pre.len() + 1) as int, errors);
        let s_0_end = state_at(tokens, (pre.len() + 1 + t0.len() - 1) as int, errors);
        assert(s.peek() == TokenView::COMMA);
        assert(s.advance().advance() == s_0);
        assert(parse_expression(s_0, LOWEST) == parse_infix_loop(s_0_end, LOWEST, first));
        assert(s_0_end.peek() == (tl + rp)[0]);
        assert(later.len() > 0 ==> tl[0] == TokenView::COMMA);
        assert(parse_infix_loop(s_0_end, LOWEST, first) == parsed(s_0_end, first));
        assert(s.passes(s_0_end));
        let pre_l = pre + comma + t0;
        assert(tokens =~= pre_l + tl + rp + post);
        assert forall|i: int| 0 <= i < later.len() implies is_plain(#[trigger] later[i]) by {
            assert(later[i] == rest[i + 1]);
        }
        lemma_parse_more_arguments_reads_tokens(pre_l, done.push(first), later, post, errors);
        assert(done.push(first) + later =~= done + rest);
    }
}

/// Parsing an expression at the start of the tokens of a plain expression
/// gives that expression and stops on its last token, where the token behind
/// it ends an expression.
pub proof fn lemma_parse_expression_inverts_tokens(
    pre: Seq<TokenView>,
    e: ExprView,
    post: Seq<TokenView>,
    floor: u8,
    errors: Seq<Seq<char>>,
)
    requires
        is_plain(e),
        floor < CALL,
        ends_expression(token_at(post, 0), floor),
    ensures
        parse_expression(state_at(pre + expr_tokens(e) + post, pre.len() as int, errors), floor)
            == parsed(
            state_at(
                pre + expr_tokens(e) + post,
                (pre.len() + expr_tokens(e).len() - 1) as int,
                errors,
            ),
            e,
        ),
    decreases e, 3nat,
{
    lemma_parse_expression_reads_tokens(pre, e, post, floor, errors);
    let tokens = pre + expr_tokens(e) + post;
    let s_end = state_at(tokens, (pre.len() + expr_tokens(e).len() - 1) as int, errors);
    assert(s_end.peek() == token_at(post, 0));
}

proof fn lemma_function_layout(
    pre: Seq<TokenView>,
    pt: Seq<TokenView>,
    bt: Seq<TokenView>,
    post: Seq<TokenView>,
)
    ensures
        ({
            let written = seq![TokenView::FUNCTION, TokenView::LPAREN] + pt + seq![
                TokenView::RPAREN,
                TokenView::LBRACE,
            ] + bt + seq![TokenView::RBRACE];
            let tokens = pre + written + post;
            let p = pre.len() as int;
            &&& tokens == (pre + seq![TokenView::FUNCTION]) + seq![TokenView::LPAREN] + pt + seq![
                TokenView::RPAREN,
            ] + (seq![TokenView::LBRACE] + bt + seq![TokenView::RBRACE] + post)
            &&& tokens == (pre + seq![TokenView::FUNCTION, TokenView::LPAREN] + pt + seq![
                TokenView::RPAREN,
                TokenView::LBRACE,
            ]) + bt + seq![TokenView::RBRACE] + post
            &&& (pre + seq![TokenView::FUNCTION]).len() == p + 1
            &&& (pre + seq![TokenView::FUNCTION, TokenView::LPAREN] + pt + seq![
                TokenView::RPAREN,
                TokenView::LBRACE,
            ]).len() == p + 4 + pt.len()
            &&& written.len() == 5 + pt.len() + bt.len()
            &&& token_at(tokens, p) == TokenView::FUNCTION
            &&& token_at(tokens, p + 1) == TokenView::LPAREN
            &&& token_at(tokens, p + 2 + pt.len()) == TokenView::RPAREN
            &&& token_at(tokens, p + 3 + pt.len()) == TokenView::LBRACE
            &&& token_at(tokens, p + 4 + pt.len() + bt.len()) == TokenView::RBRACE
        }),
{
    let written = seq![TokenView::FUNCTION, TokenView::LPAREN] + pt + seq![
        TokenView::RPAREN,
        TokenView::LBRACE,
    ] + bt + seq![TokenView::RBRACE];
    let tokens = pre + written + post;
    assert(tokens =~= (pre + seq![TokenView::FUNCTION]) + seq![TokenView::LPAREN] + pt + seq![
        TokenView::RPAREN,
    ] + (seq![TokenView::LBRACE] + bt + seq![TokenView::RBRACE] + post));
    assert(tokens =~= (pre + seq![TokenView::FUNCTION, TokenView::LPAREN] + pt + seq![
        TokenView::RPAREN,
        TokenView::LBRACE,
    ]) + bt + seq![TokenView::RBRACE] + post);
}

proof fn lemma_parse_operand_reads_function(
    pre: Seq<TokenView>,
    e: ExprView,
    post: Seq<TokenView>,
    errors: Seq<Seq<char>>,
)
    requires
        is_plain(e),
        e is Function,
    ensures
        parse_operand(state_at(pre + expr_tokens(e) + post, pre.len() as int, errors)) == parsed(
            state_at(
                pre + expr_tokens(e) + post,
                (pre.len() + expr_tokens(e).len() - 1) as int,
                errors,
            ),
            e,
        ),
    decreases e, 0nat,
{
    let params = e->Function_0;
    let body = e->Function_1;
    let pt = params_tokens(params);
    let bt = body_tokens(body);
    let tokens = pre + expr_tokens(e) + post;
    let p = pre.len() as int;
    lemma_function_layout(pre, pt, bt, post);
    assert(is_plain_body(body));
    assert forall|i: int| 0 <= i < body.len() implies is_plain_stmt(#[trigger] body[i]) by {}
    assert forall|i: int| 1 <= i < body.len() implies !opens_group(#[trigger] body[i]) by {}
    lemma_parse_parameters_reads_tokens(
        pre + seq![TokenView::FUNCTION],
        params,
        seq![TokenView::LBRACE] + bt + seq![TokenView::RBRACE] + post,
        errors,
    );
    lemma_parse_block_loop_reads_tokens(
        pre + seq![TokenView::FUNCTION, TokenView::LPAREN] + pt + seq![
            TokenView::RPAREN,
            TokenView::LBRACE,
        ],
        Seq::empty(),
        body,
        post,
        errors,
    );
    assert(Seq::<StmtView>::empty() + body =~= body);
    lemma_function_steps(tokens, errors, p, params, body, pt.len() as int, bt.len() as int);
}

/// `fn`, parameters of `n` tokens in parentheses, and a body of `m` tokens
/// in braces, each read whole, are read as a function literal.
proof fn lemma_function_steps(
    tokens: Seq<TokenView>,
    errors: Seq<Seq<char>>,
    p: int,
    params: Seq<Seq<char>>,
    body: Seq<StmtView>,
    n: int,
    m: int,
)
    requires
        0 <= p,
        0 <= n,
        0 <= m,
        token_at(tokens, p) == TokenView::FUNCTION,
        token_at(tokens, p + 1) == TokenView::LPAREN,
        token_at(tokens, p + 3 + n) == TokenView::LBRACE,
        parse_parameters(state_at(tokens, p + 1, errors)) == parsed(
            state_at(tokens, p + 2 + n, errors),
            params,
        ),
        parse_block_loop(state_at(tokens, p + 4 + n, errors), Seq::empty()) == (ParsedBlock {
            state: state_at(tokens, p + 4 + n + m, errors),
            stmts: body,
        }),
    ensures
        parse_operand(state_at(tokens, p, errors)) == parsed(
            state_at(tokens, p + 4 + n + m, errors),
            ExprView::Function(params, body),
        ),
{
    let s = state_at(tokens, p, errors);
    let s_lp = state_at(tokens, p + 1, errors);
    let s_rp = state_at(tokens, p + 2 + n, errors);
    let s_lb = state_at(tokens, p + 3 + n, errors);
    let s_body = state_at(tokens, p + 4 + n, errors);
    let s_end = state_at(tokens, p + 4 + n + m, errors);
    assert(s.advance() == s_lp);
    assert(s_rp.advance() == s_lb);
    assert(s_lb.advance() == s_body);
    assert(expect_peek(s, TokenView::LPAREN) == parsed(s_lp, ()));
    assert(expect_peek(s_rp, TokenView::LBRACE) == parsed(s_lb, ()));
    assert(parse_block(s_lb) == (ParsedBlock { state: s_end, stmts: body }));
    assert(parse_function_literal(s) == parsed(s_end, ExprView::Function(params, body)));
}

/// Parsing the parameters of a function literal at the parenthesis that
/// opens them reads the tokens of the names up to the parenthesis that closes
/// them.
pub proof fn lemma_parse_parameters_reads_tokens(
    pre: Seq<TokenView>,
    params: Seq<Seq<char>>,
    post: Seq<TokenView>,
    errors: Seq<Seq<char>>,
)
    ensures
        parse_parameters(
            state_at(
                pre + seq![TokenView::LPAREN] + params_tokens(params) + seq![TokenView::RPAREN]
                    + post,
                pre.len() as int,
                errors,
            ),
        ) == parsed(
            state_at(
                pre + seq![TokenView::LPAREN] + params_tokens(params) + seq![TokenView::RPAREN]
                    + post,
                (pre.len() + 1 + params_tokens(params).len()) as int,
                errors,
            ),
            params,
        ),
{
    let lp = seq![TokenView::LPAREN];
    let rp = seq![TokenView::RPAREN];
    let pt = params_tokens(params);
    let tokens = pre + lp + pt + rp + post;
    let p = pre.len() as int;
    let s = state_at(tokens, p, errors);
    if params.len() == 0 {
        assert(s.peek() == TokenView::RPAREN);
        assert(s.advance() == state_at(tokens, p + 1, errors));
        assert(params =~= Seq::<Seq<char>>::empty());
    } else {
        let rest = params.drop_first();
        assert(s.peek() == TokenView::IDENT(params[0]));
        assert(tokens =~= (pre + lp) + (seq![TokenView::IDENT(params[0])] + more_params_tokens(
            rest,
        )) + rp + post);
        lemma_parse_more_parameters_reads_tokens(pre + lp, Seq::empty(), params, post, errors);
        assert(Seq::<Seq<char>>::empty() + params =~= params);
    }
}

/// Parsing further parameters in front of a name reads the tokens of the
/// names, a comma between neighbours, up to the closing parenthesis.
proof fn lemma_parse_more_parameters_reads_tokens(
    pre: Seq<TokenView>,
    done: Seq<Seq<char>>,
    rest: Seq<Seq<char>>,
    post: Seq<TokenView>,
    errors: Seq<Seq<char>>,
)
    requires
        pre.len() >= 1,
        rest.len() >= 1,
    ensures
        ({
            let names = seq![TokenView::IDENT(rest[0])] + more_params_tokens(rest.drop_first());
            let tokens = pre + names + seq![TokenView::RPAREN] + post;
            parse_more_parameters(state_at(tokens, pre.len() - 1, errors), done) == parsed(
                state_at(tokens, (pre.len() + names.len()) as int, errors),
                done + rest,
            )
        }),
    decreases rest.len(),
{
    let later = rest.drop_first();
    let names = seq![TokenView::IDENT(rest[0])] + more_params_tokens(later);
    let tokens = pre + names + seq![TokenView::RPAREN] + post;
    let p = pre.len() as int;
    let s = state_at(tokens, p - 1, errors);
    let at_name = state_at(tokens, p, errors);
    assert(s.peek() == TokenView::IDENT(rest[0]));
    assert(s.advance() == at_name);
    if later.len() == 0 {
        assert(at_name.peek() == TokenView::RPAREN);
        assert(at_name.advance() == state_at(tokens, p + 1, errors));
        assert(done.push(rest[0]) =~= done + rest);
        assert(expect_peek(at_name, TokenView::RPAREN) == parsed(
            state_at(tokens, p + 1, errors),
            (),
        ));
    } else {
        let pre_l = pre + seq![TokenView::IDENT(rest[0]), TokenView::COMMA];
        let names_l = seq![TokenView::IDENT(later[0])] + more_params_tokens(later.drop_first());
        assert(tokens =~= pre_l + names_l + seq![TokenView::RPAREN] + post);
        assert(at_name.peek() == TokenView::COMMA);
        assert(at_name.advance() == state_at(tokens, p + 1, errors));
        lemma_parse_more_parameters_reads_tokens(pre_l, done.push(rest[0]), later, post, errors);
        assert(done.push(rest[0]) + later =~= done + rest);
    }
}

/// A token that can follow a statement without being taken into it.
pub open spec fn follows_statement(tok: TokenView) -> bool {
    binding_power(tok) == LOWEST && tok != TokenView::SEMICOLON
}

/// Parsing a statement at the start of the tokens of a plain statement
/// gives that statement and stops on its last token, where the token behind
/// it can follow a statement.
#[verifier::rlimit(100)]
pub proof fn lemma_parse_statement_reads_tokens(
    pre: Seq<TokenView>,
    stmt: StmtView,
    post: Seq<TokenView>,
    errors: Seq<Seq<char>>,
)
    requires
        is_plain_stmt(stmt),
        follows_statement(token_at(post, 0)),
    ensures
        stmt_tokens(stmt).len() >= 1,
        parse_statement(state_at(pre + stmt_tokens(stmt) + post, pre.len() as int, errors))
            == parsed(
            state_at(
                pre + stmt_tokens(stmt) + post,
                (pre.len() + stmt_tokens(stmt).len() - 1) as int,
                errors,
            ),
            stmt,
        ),
    decreases stmt, 0nat,
{
    let written = stmt_tokens(stmt);
    let tokens = pre + written + post;
    let p = pre.len() as int;
    lemma_stmt_tokens_start(stmt);
    match stmt {
        StmtView::Let(name, value) => {
            let head = seq![TokenView::LET, TokenView::IDENT(name), TokenView::ASSIGN];
            let tv = expr_tokens(value);
            lemma_expr_tokens_start(value);
            lemma_statement_layout(pre, head, tv, post);
            lemma_parse_expression_inverts_tokens(pre + head, value, post, LOWEST, errors);
            lemma_let_steps(tokens, errors, p, name, value, tv.len() as int);
        },
        StmtView::Return(value) => {
            let head = seq![TokenView::RETURN];
            let tv = expr_tokens(value);
            lemma_expr_tokens_start(value);
            lemma_statement_layout(pre, head, tv, post);
            lemma_parse_expression_inverts_tokens(pre + head, value, post, LOWEST, errors);
            lemma_return_steps(tokens, errors, p, value, tv.len() as int);
        },
        StmtView::Expr(value) => {
            let none = Seq::<TokenView>::empty();
            let tv = expr_tokens(value);
            lemma_expr_tokens_start(value);
            lemma_statement_layout(pre, none, tv, post);
            assert(pre + none =~= pre);
            lemma_parse_expression_inverts_tokens(pre, value, post, LOWEST, errors);
            lemma_expression_statement_steps(tokens, errors, p, value, tv.len() as int);
        },
        StmtView::Block(_) => {},
    }
}

proof fn lemma_statement_layout(
    pre: Seq<TokenView>,
    head: Seq<TokenView>,
    tv: Seq<TokenView>,
    post: Seq<TokenView>,
)
    requires
        tv.len() >= 1,
    ensures
        ({
            let tokens = pre + (head + tv) + post;
            let p = pre.len() as int;
            &&& tokens == (pre + head) + tv + post
            &&& (pre + head).len() == p + head.len()
            &&& (head + tv).len() == head.len() + tv.len()
            &&& forall|i: int| 0 <= i < head.len() ==> token_at(tokens, p + i) == #[trigger] head[i]
            &&& token_at(tokens, p + head.len()) == tv[0]
            &&& token_at(tokens, p + head.len() + tv.len()) == token_at(post, 0)
        }),
{
    let tokens = pre + (head + tv) + post;
    assert(tokens =~= (pre + head) + tv + post);
}

proof fn lemma_let_steps(
    tokens: Seq<TokenView>,
    errors: Seq<Seq<char>>,
    p: int,
    name: Seq<char>,
    value: ExprView,
    n: int,
)
    requires
        0 <= p,
        1 <= n,
        token_at(tokens, p) == TokenView::LET,
        token_at(tokens, p + 1) == TokenView::IDENT(name),
        token_at(tokens, p + 2) == TokenView::ASSIGN,
        follows_statement(token_at(tokens, p + 3 + n)),
        parse_expression(state_at(tokens, p + 3, errors), LOWEST) == parsed(
            state_at(tokens, p + 2 + n, errors),
            value,
        ),
    ensures
        parse_statement(state_at(tokens, p, errors)) == parsed(
            state_at(tokens, p + 2 + n, errors),
            StmtView::Let(name, value),
        ),
{
    let s = state_at(tokens, p, errors);
    let s_1 = state_at(tokens, p + 1, errors);
    let s_2 = state_at(tokens, p + 2, errors);
    let s_3 = state_at(tokens, p + 3, errors);
    let s_last = state_at(tokens, p + 2 + n, errors);
    assert(s.advance() == s_1);
    assert(s_1.advance() == s_2);
    assert(s_2.advance() == s_3);
    assert(expect_peek(s_1, TokenView::ASSIGN) == parsed(s_2, ()));
    assert(s_last.skip_semicolon() == s_last);
    assert(parse_let_statement(s) == parsed(s_last, StmtView::Let(name, value)));
}

proof fn lemma_return_steps(
    tokens: Seq<TokenView>,
    errors: Seq<Seq<char>>,
    p: int,
    value: ExprView,
    n: int,
)
    requires
        0 <= p,
        1 <= n,
        token_at(tokens, p) == TokenView::RETURN,
        follows_statement(token_at(tokens, p + 1 + n)),
        parse_expression(state_at(tokens, p + 1, errors), LOWEST) == parsed(
            state_at(tokens, p + n, errors),
            value,
        ),
    ensures
        parse_statement(state_at(tokens, p, errors)) == parsed(
            state_at(tokens, p + n, errors),
            StmtView::Return(value),
        ),
{
    let s = state_at(tokens, p, errors);
    let s_1 = state_at(tokens, p + 1, errors);
    let s_last = state_at(tokens, p + n, errors);
    assert(s.advance() == s_1);
    assert(s_last.skip_semicolon() == s_last);
    assert(parse_return_statement(s) == parsed(s_last, StmtView::Return(value)));
}

proof fn lemma_expression_statement_steps(
    tokens: Seq<TokenView>,
    errors: Seq<Seq<char>>,
    p: int,
    value: ExprView,
    n: int,
)
    requires
        0 <= p,
        1 <= n,
        starts_expression(token_at(tokens, p)),
        follows_statement(token_at(tokens, p + n)),
        parse_expression(state_at(tokens, p, errors), LOWEST) == parsed(
            state_at(tokens, p + n - 1, errors),
            value,
        ),
    ensures
        parse_statement(state_at(tokens, p, errors)) == parsed(
            state_at(tokens, p + n - 1, errors),
            StmtView::Expr(value),
        ),
{
    let s = state_at(tokens, p, errors);
    let s_last = state_at(tokens, p + n - 1, errors);
    assert(s_last.skip_semicolon() == s_last);
    assert(parse_expression_statement(s) == parsed(s_last, StmtView::Expr(value)));
}

/// One statement of a block that is read whole, with a token before it that
/// does not end the block, takes the loop over the block one statement on.
proof fn lemma_block_step(
    tokens: Seq<TokenView>,
    errors: Seq<Seq<char>>,
    p: int,
    n: int,
    done: Seq<StmtView>,
    first: StmtView,
)
    requires
        0 <= p,
        1 <= n,
        token_at(tokens, p) != TokenView::RBRACE,
        token_at(tokens, p) != TokenView::EOF,
        parse_statement(state_at(tokens, p, errors)) == parsed(
            state_at(tokens, p + n - 1, errors),
            first,
        ),
    ensures
        parse_block_loop(state_at(tokens, p, errors), done) == parse_block_loop(
            state_at(tokens, p + n, errors),
            done.push(first),
        ),
        parse_program_loop(state_at(tokens, p, errors), done) == parse_program_loop(
            state_at(tokens, p + n, errors),
            done.push(first),
        ),
{
    let s = state_at(tokens, p, errors);
    let s_last = state_at(tokens, p + n - 1, errors);
    let s_next = state_at(tokens, p + n, errors);
    assert(s.reaches(s_last));
    assert(s_last.advance() == s_next);
}

proof fn lemma_body_layout(
    pre: Seq<TokenView>,
    st: Seq<TokenView>,
    lt: Seq<TokenView>,
    tail: Seq<TokenView>,
)
    requires
        st.len() >= 1,
    ensures
        ({
            let tokens = pre + (st + lt) + tail;
            &&& tokens == pre + st + (lt + tail)
            &&& tokens == (pre + st) + lt + tail
            &&& (pre + st).len() == pre.len() + st.len()
            &&& (st + lt).len() == st.len() + lt.len()
            &&& token_at(tokens, pre.len() as int) == st[0]
        }),
{
    let tokens = pre + (st + lt) + tail;
    assert(tokens =~= pre + st + (lt + tail));
    assert(tokens =~= (pre + st) + lt + tail);
}

/// The token behind a statement of a body in which no statement but the
/// first starts with a parenthesis can follow a statement.
proof fn lemma_next_follows(later: Seq<StmtView>, tail: Seq<TokenView>)
    requires
        forall|i: int| 0 <= i < later.len() ==> is_plain_stmt(#[trigger] later[i]),
        later.len() > 0 ==> !opens_group(later[0]),
        follows_statement(token_at(tail, 0)),
    ensures
        follows_statement(token_at(body_tokens(later) + tail, 0)),
{
    if later.len() > 0 {
        lemma_stmt_tokens_start(later[0]);
        assert((body_tokens(later) + tail)[0] == stmt_tokens(later[0])[0]);
    } else {
        assert(body_tokens(later) + tail =~= tail);
    }
}

/// Parsing the statements of a block reads the tokens of a plain body up to
/// the closing brace.
#[verifier::rlimit(100)]
pub proof fn lemma_parse_block_loop_reads_tokens(
    pre: Seq<TokenView>,
    done: Seq<StmtView>,
    rest: Seq<StmtView>,
    post: Seq<TokenView>,
    errors: Seq<Seq<char>>,
)
    requires
        forall|i: int| 0 <= i < rest.len() ==> is_plain_stmt(#[trigger] rest[i]),
        forall|i: int| 1 <= i < rest.len() ==> !opens_group(#[trigger] rest[i]),
    ensures
        parse_block_loop(
            state_at(
                pre + body_tokens(rest) + seq![TokenView::RBRACE] + post,
                pre.len() as int,
                errors,
            ),
            done,
        ) == (ParsedBlock {
            state: state_at(
                pre + body_tokens(rest) + seq![TokenView::RBRACE] + post,
                (pre.len() + body_tokens(rest).len()) as int,
                errors,
            ),
            stmts: done + rest,
        }),
    decreases rest, 1nat,
{
    let tail = seq![TokenView::RBRACE] + post;
    let bt = body_tokens(rest);
    let tokens = pre + bt + seq![TokenView::RBRACE] + post;
    let p = pre.len() as int;
    let s = state_at(tokens, p, errors);
    assert(tokens =~= pre + bt + tail);
    if rest.len() == 0 {
        assert(s.cur() == TokenView::RBRACE);
        assert(done + rest =~= done);
    } else {
        let first = rest[0];
        let later = rest.drop_first();
        let st = stmt_tokens(first);
        let lt = body_tokens(later);
        lemma_stmt_tokens_start(first);
        assert forall|i: int| 0 <= i < later.len() implies is_plain_stmt(#[trigger] later[i]) by {
            assert(later[i] == rest[i + 1]);
        }
        assert forall|i: int| 1 <= i < later.len() implies !opens_group(#[trigger] later[i]) by {
            assert(later[i] == rest[i + 1]);
        }
        assert(later.len() > 0 ==> later[0] == rest[1]);
        lemma_next_follows(later, tail);
        lemma_body_layout(pre, st, lt, tail);
        lemma_parse_statement_reads_tokens(pre, first, lt + tail, errors);
        lemma_block_step(tokens, errors, p, st.len() as int, done, first);
        assert(tokens =~= (pre + st) + lt + seq![TokenView::RBRACE] + post);
        lemma_parse_block_loop_reads_tokens(pre + st, done.push(first), later, post, errors);
        assert(done.push(first) + later =~= done + rest);
    }
}

/// Parsing the statements of a program reads the tokens of plain
/// statements, of which none but the first starts with a parenthesis, up to
/// the end.
#[verifier::rlimit(100)]
pub proof fn lemma_parse_program_loop_reads_tokens(
    pre: Seq<TokenView>,
    done: Seq<StmtView>,
    rest: Seq<StmtView>,
    errors: Seq<Seq<char>>,
)
    requires
        forall|i: int| 0 <= i < rest.len() ==> is_plain_stmt(#[trigger] rest[i]),
        forall|i: int| 1 <= i < rest.len() ==> !opens_group(#[trigger] rest[i]),
    ensures
        parse_program_loop(state_at(pre + body_tokens(rest), pre.len() as int, errors), done) == (
        ParsedBlock {
            state: state_at(
                pre + body_tokens(rest),
                (pre.len() + body_tokens(rest).len()) as int,
                errors,
            ),
            stmts: done + rest,
        }),
    decreases rest.len(),
{
    let none = Seq::<TokenView>::empty();
    let bt = body_tokens(rest);
    let tokens = pre + bt;
    let p = pre.len() as int;
    let s = state_at(tokens, p, errors);
    assert(tokens =~= pre + bt + none);
    if rest.len() == 0 {
        assert(s.cur() == TokenView::EOF);
        assert(done + rest =~= done);
    } else {
        let first = rest[0];
        let later = rest.drop_first();
        let st = stmt_tokens(first);
        let lt = body_tokens(later);
        lemma_stmt_tokens_start(first);
        assert forall|i: int| 0 <= i < later.len() implies is_plain_stmt(#[trigger] later[i]) by {
            assert(later[i] == rest[i + 1]);
        }
        assert forall|i: int| 1 <= i < later.len() implies !opens_group(#[trigger] later[i]) by {
            assert(later[i] == rest[i + 1]);
        }
        assert(later.len() > 0 ==> later[0] == rest[1]);
        lemma_next_follows(later, none);
        lemma_body_layout(pre, st, lt, none);
        lemma_parse_statement_reads_tokens(pre, first, lt + none, errors);
        lemma_block_step(tokens, errors, p, st.len() as int, done, first);
        assert(tokens =~= (pre + st) + lt);
        lemma_parse_program_loop_reads_tokens(pre + st, done.push(first), later, errors);
        assert(done.push(first) + later =~= done + rest);
    }
}

/// Parsing the tokens of plain statements, of which none but the first
/// starts with a parenthesis, as a program gives those statements and no
/// message.
pub proof fn lemma_parse_program_inverts_tokens(program: Seq<StmtView>)
    requires
        forall|i: int| 0 <= i < program.len() ==> is_plain_stmt(#[trigger] program[i]),
        forall|i: int| 1 <= i < program.len() ==> !opens_group(#[trigger] program[i]),
    ensures
        parse_program(body_tokens(program)).stmts == program,
        parse_program(body_tokens(program)).state.errors == Seq::<Seq<char>>::empty(),
{
    let tokens = body_tokens(program);
    let none = Seq::<TokenView>::empty();
    let errors = Seq::<Seq<char>>::empty();
    lemma_parse_program_loop_reads_tokens(none, Seq::empty(), program, errors);
    assert(none + tokens =~= tokens);
    assert(Seq::<StmtView>::empty() + program =~= program);
    assert(ParseState::start(tokens) == state_at(tokens, 0, errors));
}

/// How strongly a binary operator binds.
pub open spec fn power(op: Infix) -> u8 {
    binding_power(infix_token(op))
}

/// Operands with binary operators between them: one operand more than
/// operators, and every operand plain.
pub open spec fn is_chain(xs: Seq<ExprView>, ops: Seq<Infix>) -> bool {
    &&& xs.len() == ops.len() + 1
    &&& forall|i: int| 0 <= i < xs.len() ==> is_plain(#[trigger] xs[i])
}

/// The tokens that write a chain from operand `i` on, without parentheses
/// around the whole or around any part but the operands themselves.
pub open spec fn chain_tokens(xs: Seq<ExprView>, ops: Seq<Infix>, i: int) -> Seq<TokenView>
    decreases xs.len() - i,
{
    if i < 0 || i >= xs.len() {
        Seq::empty()
    } else if i == xs.len() - 1 {
        expr_tokens(xs[i])
    } else {
        expr_tokens(xs[i]) + seq![infix_token(ops[i])] + chain_tokens(xs, ops, i + 1)
    }
}

/// Among the operators from index `lo` up to, not including, `hi`, the
/// index of the last one of those that bind least.
pub open spec fn split_point(ops: Seq<Infix>, lo: int, hi: int) -> int
    decreases hi - lo,
{
    if hi - lo <= 1 {
        lo
    } else {
        let earlier = split_point(ops, lo, hi - 1);
        if power(ops[hi - 1]) <= power(ops[earlier]) {
            hi - 1
        } else {
            earlier
        }
    }
}

/// The tree of the operands from `lo` to `hi` of a chain by the rules of
/// arithmetic: the operator applied last is one that binds least, and of
/// several such the last, so that operators that bind equally are applied
/// from the left.
pub open spec fn chain_tree(xs: Seq<ExprView>, ops: Seq<Infix>, lo: int, hi: int) -> ExprView
    decreases hi - lo,
{
    if hi <= lo {
        xs[lo]
    } else {
        let k = split_point(ops, lo, hi);
        if lo <= k < hi {
            ExprView::Infix(
                Box::new(chain_tree(xs, ops, lo, k)),
                ops[k],
                Box::new(chain_tree(xs, ops, k + 1, hi)),
            )
        } else {
            xs[lo]
        }
    }
}

/// The first index from `i` on of an operator that binds no more strongly
/// than `floor`, or the number of operators where there is none.
pub open spec fn reach(ops: Seq<Infix>, i: int, floor: u8) -> int
    decreases ops.len() - i,
{
    if i < 0 || i >= ops.len() || power(ops[i]) <= floor {
        i
    } else {
        reach(ops, i + 1, floor)
    }
}

proof fn lemma_reach(ops: Seq<Infix>, i: int, floor: u8)
    requires
        0 <= i <= ops.len(),
    ensures
        i <= reach(ops, i, floor) <= ops.len(),
        forall|k: int| i <= k < reach(ops, i, floor) ==> power(#[trigger] ops[k]) > floor,
        reach(ops, i, floor) < ops.len() ==> power(ops[reach(ops, i, floor)]) <= floor,
    decreases ops.len() - i,
{
    if i < ops.len() && power(ops[i]) > floor {
        lemma_reach(ops, i + 1, floor);
    }
}

proof fn lemma_reach_again(ops: Seq<Infix>, i: int, m: int, floor: u8)
    requires
        0 <= i <= m <= reach(ops, i, floor),
        i <= ops.len(),
    ensures
        reach(ops, m, floor) == reach(ops, i, floor),
    decreases m - i,
{
    lemma_reach(ops, i, floor);
    if i < m {
        lemma_reach_again(ops, i + 1, m, floor);
    }
}

proof fn lemma_split_point_range(ops: Seq<Infix>, lo: int, hi: int)
    requires
        lo < hi,
    ensures
        lo <= split_point(ops, lo, hi) < hi,
    decreases hi - lo,
{
    if hi - lo > 1 {
        lemma_split_point_range(ops, lo, hi - 1);
    }
}

proof fn lemma_split_point_is(ops: Seq<Infix>, lo: int, m: int, hi: int)
    requires
        0 <= lo <= m < hi <= ops.len(),
        forall|k: int| lo <= k < m ==> power(#[trigger] ops[k]) >= power(ops[m]),
        forall|k: int| m < k < hi ==> power(#[trigger] ops[k]) > power(ops[m]),
    ensures
        split_point(ops, lo, hi) == m,
    decreases hi - lo,
{
    if hi - lo > 1 {
        if hi - 1 == m {
            lemma_split_point_range(ops, lo, hi - 1);
            let earlier = split_point(ops, lo, hi - 1);
            assert(power(ops[earlier]) >= power(ops[m]));
        } else {
            lemma_split_point_is(ops, lo, m, hi - 1);
            assert(power(ops[hi - 1]) > power(ops[m]));
        }
    }
}

/// The operator and the operand behind an operand that has been read are
/// taken where the operator binds more strongly than the floor.
proof fn lemma_chain_step(
    tokens: Seq<TokenView>,
    errors: Seq<Seq<char>>,
    floor: u8,
    left: ExprView,
    op: Infix,
    right: ExprView,
    at: int,
    end: int,
)
    requires
        0 <= at,
        at + 2 <= end,
        token_at(tokens, at + 1) == infix_token(op),
        power(op) > floor,
        parse_expression(state_at(tokens, at + 2, errors), power(op)) == parsed(
            state_at(tokens, end, errors),
            right,
        ),
    ensures
        parse_infix_loop(state_at(tokens, at, errors), floor, left) == parse_infix_loop(
            state_at(tokens, end, errors),
            floor,
            ExprView::Infix(Box::new(left), op, Box::new(right)),
        ),
{
    let s = state_at(tokens, at, errors);
    let s_op = state_at(tokens, at + 1, errors);
    let s_r = state_at(tokens, at + 2, errors);
    let s_end = state_at(tokens, end, errors);
    let e = ExprView::Infix(Box::new(left), op, Box::new(right));
    assert(s.advance() == s_op);
    assert(s_op.advance() == s_r);
    assert(parse_infix_expr(s_op, left) == parsed(s_end, e));
    assert(s.passes(s_end));
}

/// The tokens of a chain from operand `i` on, by its first operand.
proof fn lemma_chain_tokens_first(xs: Seq<ExprView>, ops: Seq<Infix>, i: int)
    requires
        is_chain(xs, ops),
        0 <= i < xs.len(),
    ensures
        expr_tokens(xs[i]).len() >= 1,
        i == ops.len() ==> chain_tokens(xs, ops, i) == expr_tokens(xs[i]),
        i < ops.len() ==> chain_tokens(xs, ops, i) == expr_tokens(xs[i]) + seq![
            infix_token(ops[i]),
        ] + chain_tokens(xs, ops, i + 1),
{
    lemma_expr_tokens_start(xs[i]);
}

/// The number of tokens of a chain from operand `i` on that stand before
/// operand `k`.
pub open spec fn chain_offset(xs: Seq<ExprView>, ops: Seq<Infix>, i: int, k: int) -> int
    decreases k - i,
{
    if k <= i {
        0
    } else {
        chain_offset(xs, ops, i, k - 1) + expr_tokens(xs[k - 1]).len() + 1
    }
}

/// The position of the last token of operand `k` in a chain that starts
/// with operand `i` at position `start`.
pub open spec fn operand_end(
    xs: Seq<ExprView>,
    ops: Seq<Infix>,
    start: int,
    i: int,
    k: int,
) -> int {
    start + chain_offset(xs, ops, i, k) + expr_tokens(xs[k]).len() - 1
}

proof fn lemma_chain_offset_adds(xs: Seq<ExprView>, ops: Seq<Infix>, i: int, k: int, l: int)
    requires
        i <= k <= l,
    ensures
        chain_offset(xs, ops, i, l) == chain_offset(xs, ops, i, k) + chain_offset(xs, ops, k, l),
    decreases l - k,
{
    if k < l {
        lemma_chain_offset_adds(xs, ops, i, k, l - 1);
    }
}

/// A chain from operand `i` on is what stands before operand `k` and then
/// the chain from operand `k` on.
proof fn lemma_chain_splits(xs: Seq<ExprView>, ops: Seq<Infix>, i: int, k: int)
    requires
        is_chain(xs, ops),
        0 <= i <= k < xs.len(),
    ensures
        0 <= chain_offset(xs, ops, i, k) <= chain_tokens(xs, ops, i).len(),
        chain_tokens(xs, ops, i) == chain_tokens(xs, ops, i).take(chain_offset(xs, ops, i, k))
            + chain_tokens(xs, ops, k),
        chain_tokens(xs, ops, k).len() >= expr_tokens(xs[k]).len() >= 1,
        chain_tokens(xs, ops, i).len() == chain_offset(xs, ops, i, k) + chain_tokens(
            xs,
            ops,
            k,
        ).len(),
    decreases k - i,
{
    lemma_chain_tokens_first(xs, ops, k);
    let whole = chain_tokens(xs, ops, i);
    if k == i {
        assert(whole =~= whole.take(0) + whole);
    } else {
        lemma_chain_splits(xs, ops, i, k - 1);
        lemma_chain_tokens_first(xs, ops, k - 1);
        let off = chain_offset(xs, ops, i, k - 1);
        let step = expr_tokens(xs[k - 1]) + seq![infix_token(ops[k - 1])];
        assert(chain_tokens(xs, ops, k - 1) =~= step + chain_tokens(xs, ops, k));
        assert(whole =~= whole.take(off + step.len()) + chain_tokens(xs, ops, k)) by {
            assert(whole =~= whole.take(off) + (step + chain_tokens(xs, ops, k)));
        }
    }
}

/// Where the operands and operators of a chain stand in a token sequence
/// that holds the chain from operand `i` on behind `pre`.
proof fn lemma_chain_positions(
    pre: Seq<TokenView>,
    xs: Seq<ExprView>,
    ops: Seq<Infix>,
    i: int,
    k: int,
    post: Seq<TokenView>,
)
    requires
        is_chain(xs, ops),
        0 <= i <= k < xs.len(),
    ensures
        ({
            let tokens = pre + chain_tokens(xs, ops, i) + post;
            let before = pre + chain_tokens(xs, ops, i).take(chain_offset(xs, ops, i, k));
            let last = operand_end(xs, ops, pre.len() as int, i, k);
            &&& tokens == before + chain_tokens(xs, ops, k) + post
            &&& before.len() == pre.len() + chain_offset(xs, ops, i, k)
            &&& pre.len() <= last < pre.len() + chain_tokens(xs, ops, i).len()
            &&& k == ops.len() ==> last == pre.len() + chain_tokens(xs, ops, i).len() - 1
            &&& k == ops.len() ==> token_at(tokens, last + 1) == token_at(post, 0)
            &&& k < ops.len() ==> token_at(tokens, last + 1) == infix_token(ops[k])
            &&& k < ops.len() ==> last + 2 == pre.len() + chain_offset(xs, ops, i, k + 1)
        }),
{
    let whole = chain_tokens(xs, ops, i);
    let off = chain_offset(xs, ops, i, k);
    let tokens = pre + whole + post;
    let before = pre + whole.take(off);
    lemma_chain_splits(xs, ops, i, k);
    lemma_chain_tokens_first(xs, ops, k);
    assert(tokens =~= before + chain_tokens(xs, ops, k) + post);
    if k < ops.len() {
        let tx = expr_tokens(xs[k]);
        assert(chain_tokens(xs, ops, k)[tx.len() as int] == infix_token(ops[k]));
        assert(tokens[(before.len() + tx.len()) as int] == chain_tokens(xs, ops, k)[tx.len() as int]);
    }
}

/// Parsing an expression at operand `i` of a chain reads the operands and
/// operators up to the first operator that binds no more strongly than the
/// floor, and gives their tree by the rules of arithmetic.
pub proof fn lemma_parse_expression_reads_chain(
    pre: Seq<TokenView>,
    xs: Seq<ExprView>,
    ops: Seq<Infix>,
    i: int,
    floor: u8,
    post: Seq<TokenView>,
    errors: Seq<Seq<char>>,
)
    requires
        is_chain(xs, ops),
        0 <= i < xs.len(),
        floor < CALL,
        ends_expression(token_at(post, 0), LOWEST),
    ensures
        parse_expression(
            state_at(pre + chain_tokens(xs, ops, i) + post, pre.len() as int, errors),
            floor,
        ) == parsed(
            state_at(
                pre + chain_tokens(xs, ops, i) + post,
                operand_end(xs, ops, pre.len() as int, i, reach(ops, i, floor)),
                errors,
            ),
            chain_tree(xs, ops, i, reach(ops, i, floor)),
        ),
    decreases xs.len() - i, 1nat,
{
    let tx = expr_tokens(xs[i]);
    let tokens = pre + chain_tokens(xs, ops, i) + post;
    let p = pre.len() as int;
    lemma_chain_tokens_first(xs, ops, i);
    lemma_reach(ops, i, floor);
    assert(tokens =~= pre + tx + (tokens.skip(p + tx.len()))) by {
        lemma_chain_positions(pre, xs, ops, i, i, post);
    }
    lemma_parse_expression_reads_tokens(pre, xs[i], tokens.skip(p + tx.len()), floor, errors);
    assert(operand_end(xs, ops, p, i, i) == p + tx.len() - 1);
    lemma_chain_goes_on(pre, xs, ops, i, i, floor, post, errors);
}

/// The loop behind operand `m` of a chain, with the tree of the operands
/// from `i` to `m` read so far, reads on up to the first operator that binds
/// no more strongly than the floor.
#[verifier::rlimit(100)]
proof fn lemma_chain_goes_on(
    pre: Seq<TokenView>,
    xs: Seq<ExprView>,
    ops: Seq<Infix>,
    i: int,
    m: int,
    floor: u8,
    post: Seq<TokenView>,
    errors: Seq<Seq<char>>,
)
    requires
        is_chain(xs, ops),
        0 <= i <= m < xs.len(),
        m <= reach(ops, i, floor),
        floor < CALL,
        ends_expression(token_at(post, 0), LOWEST),
        m < ops.len() ==> forall|k: int| i <= k < m ==> power(#[trigger] ops[k]) >= power(ops[m]),
    ensures
        parse_infix_loop(
            state_at(
                pre + chain_tokens(xs, ops, i) + post,
                operand_end(xs, ops, pre.len() as int, i, m),
                errors,
            ),
            floor,
            chain_tree(xs, ops, i, m),
        ) == parsed(
            state_at(
                pre + chain_tokens(xs, ops, i) + post,
                operand_end(xs, ops, pre.len() as int, i, reach(ops, i, floor)),
                errors,
            ),
            chain_tree(xs, ops, i, reach(ops, i, floor)),
        ),
    decreases xs.len() - m, 0nat,
{
    let tokens = pre + chain_tokens(xs, ops, i) + post;
    let p = pre.len() as int;
    let j = reach(ops, i, floor);
    let left = chain_tree(xs, ops, i, m);
    let at = operand_end(xs, ops, p, i, m);
    lemma_reach(ops, i, floor);
    lemma_reach_again(ops, i, m, floor);
    lemma_chain_positions(pre, xs, ops, i, m, post);
    if m == j {
        assert(ends_expression(token_at(tokens, at + 1), floor));
        assert(parse_infix_loop(state_at(tokens, at, errors), floor, left) == parsed(
            state_at(tokens, at, errors),
            left,
        ));
    } else {
        let op = ops[m];
        let before = pre + chain_tokens(xs, ops, i).take(chain_offset(xs, ops, i, m + 1));
        let next = reach(ops, m + 1, power(op));
        lemma_reach(ops, m + 1, power(op));
        lemma_chain_positions(pre, xs, ops, i, m + 1, post);
        lemma_parse_expression_reads_chain(before, xs, ops, m + 1, power(op), post, errors);
        let right = chain_tree(xs, ops, m + 1, next);
        let end_right = operand_end(xs, ops, before.len() as int, m + 1, next);
        assert(end_right == operand_end(xs, ops, p, i, next)) by {
            lemma_chain_offset_adds(xs, ops, i, m + 1, next);
        }
        assert(end_right >= at + 2) by {
            lemma_chain_positions(before, xs, ops, m + 1, next, post);
        }
        lemma_chain_step(tokens, errors, floor, left, op, right, at, end_right);
        assert(split_point(ops, i, next) == m) by {
            lemma_split_point_is(ops, i, m, next);
        }
        assert(chain_tree(xs, ops, i, next) == ExprView::Infix(
            Box::new(left),
            op,
            Box::new(right),
        ));
        assert forall|k: int| i <= k < next implies power(#[trigger] ops[k]) > floor by {
            if k > m {
                assert(power(ops[k]) > power(op));
            }
        }
        assert(next <= j) by {
            if next > j {
                assert(power(ops[j]) > floor);
            }
        }
        if next < ops.len() {
            assert forall|k: int| i <= k < next implies power(#[trigger] ops[k]) >= power(
                ops[next],
            ) by {
                if k > m {
                    assert(power(ops[k]) > power(op));
                }
            }
        }
        lemma_chain_goes_on(pre, xs, ops, i, next, floor, post, errors);
    }
}

/// Precedence and associativity, for chains of any length: operands with
/// binary operators between them are read as the tree that the rules of
/// arithmetic give them.
pub proof fn lemma_chain_is_read_by_precedence(
    pre: Seq<TokenView>,
    xs: Seq<ExprView>,
    ops: Seq<Infix>,
    post: Seq<TokenView>,
    errors: Seq<Seq<char>>,
)
    requires
        is_chain(xs, ops),
        ends_expression(token_at(post, 0), LOWEST),
    ensures
        parse_expression(
            state_at(pre + chain_tokens(xs, ops, 0) + post, pre.len() as int, errors),
            LOWEST,
        ) == parsed(
            state_at(
                pre + chain_tokens(xs, ops, 0) + post,
                (pre.len() + chain_tokens(xs, ops, 0).len() - 1) as int,
                errors,
            ),
            chain_tree(xs, ops, 0, ops.len() as int),
        ),
{
    lemma_reach(ops, 0, LOWEST);
    assert(reach(ops, 0, LOWEST) == ops.len()) by {
        if reach(ops, 0, LOWEST) < ops.len() {
            assert(power(ops[reach(ops, 0, LOWEST)]) > 0);
        }
    }
    lemma_chain_positions(pre, xs, ops, 0, ops.len() as int, post);
    lemma_parse_expression_reads_chain(pre, xs, ops, 0, LOWEST, post, errors);
}

} // verus!
