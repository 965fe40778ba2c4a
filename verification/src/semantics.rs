//! What evaluation means: a mathematical function from an environment and
//! a syntax tree to the environment afterwards and a value or an error. The
//! evaluator is verified against it.
//!
//! `depth` is the number of function calls that may still be nested inside
//! one another. It makes the function total: a call that would go deeper
//! gives an error.
//!
//! An error and the value of a `return` travel the same way. Whatever part
//! of a statement or an expression gives one (an operand, a condition, a
//! callee, an argument, the expression of a `let` or of a `return`), the
//! evaluation of the whole stops there and gives it on as it is. Only a call
//! and the program itself take the value out of its wrapping, all of it, so
//! that the wrapping is never the result of either.

use vstd::prelude::*;
use crate::ast::{ExprView, Infix, Literal, Prefix, StmtView};
use crate::object::{EnvView, FuncView, ObjectView, render_object};

verus! {

/// The message for a name that no scope around binds.
pub open spec fn identifier_not_found(name: Seq<char>) -> Seq<char> {
    "identifier not found: "@ + name
}

/// The message for a unary operator on a value it is not defined for.
pub open spec fn unknown_prefix_operator(op: Prefix, right: ObjectView) -> Seq<char> {
    "unknown operator: "@ + op.symbol() + right.kind_name()
}

/// The message for a binary operator on values of two different types.
pub open spec fn type_mismatch(op: Infix, left: ObjectView, right: ObjectView) -> Seq<char> {
    "type mismatch: "@ + left.kind_name() + " "@ + op.symbol() + " "@ + right.kind_name()
}

/// The message for a binary operator on values of one type for which it is
/// not defined.
pub open spec fn unknown_infix_operator(op: Infix, left: ObjectView, right: ObjectView) -> Seq<
    char,
> {
    "unknown operator: "@ + left.kind_name() + " "@ + op.symbol() + " "@ + right.kind_name()
}

/// The message for a division by zero.
pub open spec fn division_by_zero() -> Seq<char> {
    "division by zero"@
}

/// The message for a call of a value that is no function.
pub open spec fn not_a_function(callee: ObjectView) -> Seq<char> {
    "'"@ + render_object(callee) + "' is not a function"@
}

/// The message for a call nested more deeply than the evaluation allows.
pub open spec fn call_depth_exceeded() -> Seq<char> {
    "call depth exceeded"@
}

/// The message for a call of a function whose scope is not one of the
/// environment's.
pub open spec fn unknown_scope() -> Seq<char> {
    "function defined in another environment"@
}

/// The 64-bit two's complement integer that is congruent to `v`.
pub open spec fn wrap_i64(v: int) -> i64 {
    let m = v % 0x1_0000_0000_0000_0000;
    if m > i64::MAX {
        (m - 0x1_0000_0000_0000_0000) as i64
    } else {
        m as i64
    }
}

/// The quotient of `a` by `b`, rounded towards zero.
pub open spec fn truncated_quotient(a: int, b: int) -> int {
    if a >= 0 && b > 0 {
        a / b
    } else if a < 0 && b < 0 {
        (-a) / (-b)
    } else if a < 0 {
        -((-a) / b)
    } else {
        -(a / (-b))
    }
}

/// `Null` and `false` count as false; every other value, 0 among them, as
/// true.
pub open spec fn is_truthy(o: ObjectView) -> bool {
    !(o is Null || o == ObjectView::Bool(false))
}

/// Two values have the same type.
pub open spec fn same_kind(left: ObjectView, right: ObjectView) -> bool {
    match (left, right) {
        (ObjectView::Int(_), ObjectView::Int(_)) => true,
        (ObjectView::Bool(_), ObjectView::Bool(_)) => true,
        (ObjectView::Return(_), ObjectView::Return(_)) => true,
        (ObjectView::Func(_), ObjectView::Func(_)) => true,
        (ObjectView::Null, ObjectView::Null) => true,
        _ => false,
    }
}

/// The value of a literal.
pub open spec fn eval_literal(literal: Literal) -> ObjectView {
    match literal {
        Literal::Bool(v) => ObjectView::Bool(v),
        Literal::Int(v) => ObjectView::Int(v),
    }
}

/// `!` on a value: true for `false` and `Null`, false for everything else.
pub open spec fn eval_bang(right: ObjectView) -> ObjectView {
    ObjectView::Bool(!is_truthy(right))
}

/// `-` on a value: the negative of an integer, wrapping; an error for
/// anything else.
pub open spec fn eval_minus(right: ObjectView) -> Result<ObjectView, Seq<char>> {
    match right {
        ObjectView::Int(v) => Ok(ObjectView::Int(wrap_i64(-v))),
        other => Err(unknown_prefix_operator(Prefix::Minus, other)),
    }
}

/// A unary operator on a value. Unary `+` is defined for no value.
pub open spec fn eval_prefix(op: Prefix, right: ObjectView) -> Result<ObjectView, Seq<char>> {
    match op {
        Prefix::Not => Ok(eval_bang(right)),
        Prefix::Minus => eval_minus(right),
        Prefix::Plus => Err(unknown_prefix_operator(op, right)),
    }
}

/// A binary operator on two integers: arithmetic that wraps, division that
/// rounds towards zero and fails on a zero divisor, and comparison.
pub open spec fn eval_int_infix(op: Infix, left: i64, right: i64) -> Result<ObjectView, Seq<char>> {
    match op {
        Infix::Plus => Ok(ObjectView::Int(wrap_i64(left + right))),
        Infix::Minus => Ok(ObjectView::Int(wrap_i64(left - right))),
        Infix::Multiply => Ok(ObjectView::Int(wrap_i64(left * right))),
        Infix::Divide => if right == 0 {
            Err(division_by_zero())
        } else {
            Ok(ObjectView::Int(wrap_i64(truncated_quotient(left as int, right as int))))
        },
        Infix::LessThan => Ok(ObjectView::Bool(left < right)),
        Infix::GreaterThan => Ok(ObjectView::Bool(left > right)),
        Infix::Equal => Ok(ObjectView::Bool(left == right)),
        Infix::NotEqual => Ok(ObjectView::Bool(left != right)),
    }
}

/// A binary operator on two values. Two integers take every operator. Two
/// booleans, and two `Null`s, take `==` and `!=`. Anything else is a type
/// mismatch where the types differ, and an unknown operator where they are
/// the same.
pub open spec fn eval_infix(op: Infix, left: ObjectView, right: ObjectView) -> Result<
    ObjectView,
    Seq<char>,
> {
    match (left, right) {
        (ObjectView::Int(a), ObjectView::Int(b)) => eval_int_infix(op, a, b),
        (ObjectView::Bool(a), ObjectView::Bool(b)) => match op {
            Infix::Equal => Ok(ObjectView::Bool(a == b)),
            Infix::NotEqual => Ok(ObjectView::Bool(a != b)),
            _ => Err(unknown_infix_operator(op, left, right)),
        },
        (ObjectView::Null, ObjectView::Null) => match op {
            Infix::Equal => Ok(ObjectView::Bool(true)),
            Infix::NotEqual => Ok(ObjectView::Bool(false)),
            _ => Err(unknown_infix_operator(op, left, right)),
        },
        _ => if same_kind(left, right) {
            Err(unknown_infix_operator(op, left, right))
        } else {
            Err(type_mismatch(op, left, right))
        },
    }
}

/// The environment after evaluation, and the value or error it gave.
pub struct Outcome {
    pub env: EnvView,
    pub result: Result<ObjectView, Seq<char>>,
}

/// The environment after the evaluation of a list of expressions, the values
/// of those that were evaluated, and what stopped the evaluation, if
/// anything did.
pub struct OutcomeList {
    pub env: EnvView,
    pub values: Seq<ObjectView>,
    pub stop: Option<Result<ObjectView, Seq<char>>>,
}

/// `env` with the first `n` parameters bound to the first `n` arguments in
/// its innermost scope.
pub open spec fn bind_arguments(
    env: EnvView,
    params: Seq<Seq<char>>,
    args: Seq<ObjectView>,
    n: nat,
) -> EnvView
    decreases n,
{
    if n == 0 {
        env
    } else {
        bind_arguments(env, params, args, (n - 1) as nat).insert(params[n - 1], args[n - 1])
    }
}

/// The number of parameters that get an argument.
pub open spec fn bound_count(params: Seq<Seq<char>>, args: Seq<ObjectView>) -> nat {
    if params.len() <= args.len() {
        params.len()
    } else {
        args.len()
    }
}

/// The environment in which a function's body runs: a new scope inside the
/// scope the function was defined in, with the parameters bound to the
/// arguments by position. Parameters without an argument stay unbound, and
/// arguments without a parameter are dropped.
pub open spec fn function_env(env: EnvView, func: FuncView, args: Seq<ObjectView>) -> EnvView {
    bind_arguments(env.push_scope(func.env), func.args, args, bound_count(func.args, args))
}

/// The evaluation around this result goes no further: the result is an
/// error, or the value of a `return` on its way out.
pub open spec fn stops(result: Result<ObjectView, Seq<char>>) -> bool {
    match result {
        Ok(value) => value is Return,
        Err(_) => true,
    }
}

/// An expression evaluated in `env`. Where a part of the expression gives
/// an error or the value of a `return`, that is the outcome of the whole,
/// and the parts behind it are not evaluated.
pub open spec fn eval_expr(env: EnvView, e: ExprView, depth: nat) -> Outcome
    decreases depth, 1nat, e,
{
    match e {
        ExprView::Literal(literal) => Outcome { env, result: Ok(eval_literal(literal)) },
        ExprView::Prefix(op, right) => {
            let operand = eval_expr(env, *right, depth);
            if stops(operand.result) {
                operand
            } else {
                Outcome { env: operand.env, result: eval_prefix(op, operand.result->Ok_0) }
            }
        },
        ExprView::Infix(left, op, right) => {
            let first = eval_expr(env, *left, depth);
            if stops(first.result) {
                first
            } else {
                let second = eval_expr(first.env, *right, depth);
                if stops(second.result) {
                    second
                } else {
                    Outcome {
                        env: second.env,
                        result: eval_infix(op, first.result->Ok_0, second.result->Ok_0),
                    }
                }
            }
        },
        ExprView::If(cond, cons, alt) => {
            let test = eval_expr(env, *cond, depth);
            if stops(test.result) {
                test
            } else if is_truthy(test.result->Ok_0) {
                eval_stmt(test.env, *cons, depth)
            } else {
                match alt {
                    Some(stmt) => eval_stmt(test.env, *stmt, depth),
                    None => Outcome { env: test.env, result: Ok(ObjectView::Null) },
                }
            }
        },
        ExprView::Ident(name) => Outcome {
            env,
            result: match env.lookup(name) {
                Some(value) => Ok(value),
                None => Err(identifier_not_found(name)),
            },
        },
        ExprView::Function(params, body) => Outcome {
            env,
            result: Ok(ObjectView::Func(FuncView { args: params, body, env: env.current })),
        },
        ExprView::Call(callee, args) => {
            let target = eval_expr(env, *callee, depth);
            if stops(target.result) {
                target
            } else {
                let values = eval_exprs(target.env, Seq::empty(), args, depth);
                match values.stop {
                    Some(result) => Outcome { env: values.env, result },
                    None => match target.result->Ok_0 {
                        ObjectView::Func(func) => apply_function(
                            values.env,
                            func,
                            values.values,
                            depth,
                        ),
                        other => Outcome { env: values.env, result: Err(not_a_function(other)) },
                    },
                }
            }
        },
    }
}

/// The values of `es`, evaluated from left to right, behind `done`. The
/// first error or value of a `return` stops the evaluation.
pub open spec fn eval_exprs(
    env: EnvView,
    done: Seq<ObjectView>,
    es: Seq<ExprView>,
    depth: nat,
) -> OutcomeList
    decreases depth, 1nat, es,
{
    if es.len() == 0 {
        OutcomeList { env, values: done, stop: None }
    } else {
        let first = eval_expr(env, es[0], depth);
        if stops(first.result) {
            OutcomeList { env: first.env, values: done, stop: Some(first.result) }
        } else {
            eval_exprs(first.env, done.push(first.result->Ok_0), es.drop_first(), depth)
        }
    }
}

/// A function applied to arguments: its body runs in a new scope inside the
/// scope the function was defined in, and the scope that was innermost is
/// innermost again afterwards. The value is that of a `return`, without its
/// wrapping, or that of the body's last statement.
pub open spec fn apply_function(
    env: EnvView,
    func: FuncView,
    args: Seq<ObjectView>,
    depth: nat,
) -> Outcome
    decreases depth, 0nat, func.body,
{
    if depth == 0 {
        Outcome { env, result: Err(call_depth_exceeded()) }
    } else if func.env >= env.scopes.len() {
        Outcome { env, result: Err(unknown_scope()) }
    } else {
        let body = eval_stmts(
            function_env(env, func, args),
            ObjectView::Null,
            func.body,
            (depth - 1) as nat,
        );
        Outcome {
            env: body.env.at(env.current),
            result: match body.result {
                Ok(value) => Ok(value.payload()),
                Err(message) => Err(message),
            },
        }
    }
}

/// A statement evaluated in `env`. `return` wraps the value of its
/// expression; `let` binds it. Where the expression gives an error or the
/// value of a `return`, that is the outcome, as it is, and nothing is bound.
pub open spec fn eval_stmt(env: EnvView, s: StmtView, depth: nat) -> Outcome
    decreases depth, 1nat, s,
{
    match s {
        StmtView::Expr(e) => eval_expr(env, e, depth),
        StmtView::Block(stmts) => eval_stmts(env, ObjectView::Null, stmts, depth),
        StmtView::Return(e) => {
            let value = eval_expr(env, e, depth);
            if stops(value.result) {
                value
            } else {
                Outcome {
                    env: value.env,
                    result: Ok(ObjectView::Return(Box::new(value.result->Ok_0))),
                }
            }
        },
        StmtView::Let(name, e) => {
            let value = eval_expr(env, e, depth);
            if stops(value.result) {
                value
            } else {
                Outcome {
                    env: value.env.insert(name, value.result->Ok_0),
                    result: Ok(ObjectView::Null),
                }
            }
        },
    }
}

/// The statements `stmts` evaluated one after another, `last` being the
/// value of the statement before them. A `return` value and an error stop
/// the evaluation and are its outcome; otherwise the outcome is the value of
/// the last statement.
pub open spec fn eval_stmts(env: EnvView, last: ObjectView, stmts: Seq<StmtView>, depth: nat) -> Outcome
    decreases depth, 1nat, stmts,
{
    if stmts.len() == 0 {
        Outcome { env, result: Ok(last) }
    } else {
        let first = eval_stmt(env, stmts[0], depth);
        if stops(first.result) {
            first
        } else {
            eval_stmts(first.env, first.result->Ok_0, stmts.drop_first(), depth)
        }
    }
}

/// A block evaluated in `env`; a block without statements gives `Null`.
pub open spec fn eval_block(env: EnvView, stmts: Seq<StmtView>, depth: nat) -> Outcome {
    eval_stmts(env, ObjectView::Null, stmts, depth)
}

/// A program evaluated in `env`: as a block, but the value of a `return`
/// comes out without its wrapping.
pub open spec fn eval_program(env: EnvView, stmts: Seq<StmtView>, depth: nat) -> Outcome {
    let body = eval_block(env, stmts, depth);
    Outcome {
        env: body.env,
        result: match body.result {
            Ok(value) => Ok(value.payload()),
            Err(message) => Err(message),
        },
    }
}

} // verus!
