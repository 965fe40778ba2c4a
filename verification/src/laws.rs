//! Laws of evaluation: integer arithmetic, scopes and closures.

use vstd::prelude::*;
use crate::ast::{ExprView, Infix, Literal, Prefix, StmtView};
use crate::object::{EnvView, FuncView, ObjectView, lookup_from};
use crate::semantics::{
    Outcome, apply_function, eval_block, eval_expr, eval_int_infix, eval_prefix, eval_program,
    eval_stmt, eval_stmts, function_env, truncated_quotient, wrap_i64,
};

verus! {

/// An expression of integer arithmetic: integer literals under `+`, `-`,
/// `*`, `/` and the unary minus.
pub open spec fn is_arithmetic(e: ExprView) -> bool
    decreases e,
{
    match e {
        ExprView::Literal(Literal::Int(_)) => true,
        ExprView::Prefix(Prefix::Minus, operand) => is_arithmetic(*operand),
        ExprView::Infix(left, op, right) => {
            &&& op is Plus || op is Minus || op is Multiply || op is Divide
            &&& is_arithmetic(*left)
            &&& is_arithmetic(*right)
        },
        _ => false,
    }
}

/// The number that an expression of integer arithmetic stands for, over the
/// integers of mathematics, with quotients rounded towards zero; `None`
/// where it divides by zero.
pub open spec fn exact_value(e: ExprView) -> Option<int>
    decreases e,
{
    match e {
        ExprView::Literal(Literal::Int(v)) => Some(v as int),
        ExprView::Prefix(Prefix::Minus, operand) => match exact_value(*operand) {
            Some(v) => Some(-v),
            None => None,
        },
        ExprView::Infix(left, op, right) => match (exact_value(*left), exact_value(*right)) {
            (Some(a), Some(b)) => match op {
                Infix::Plus => Some(a + b),
                Infix::Minus => Some(a - b),
                Infix::Multiply => Some(a * b),
                Infix::Divide => if b == 0 {
                    None
                } else {
                    Some(truncated_quotient(a, b))
                },
                _ => None,
            },
            _ => None,
        },
        _ => None,
    }
}

/// The expression and every part of it stand for a number that a 64-bit
/// integer holds.
pub open spec fn stays_in_range(e: ExprView) -> bool
    decreases e,
{
    &&& exact_value(e) matches Some(v) && i64::MIN <= v <= i64::MAX
    &&& match e {
        ExprView::Prefix(_, operand) => stays_in_range(*operand),
        ExprView::Infix(left, _, right) => stays_in_range(*left) && stays_in_range(*right),
        _ => true,
    }
}

/// Evaluating an expression of integer arithmetic gives the number it stands
/// for in ordinary arithmetic, whatever the environment and the depth, and
/// leaves the environment as it was, provided that no part of the expression
/// leaves the range of a 64-bit integer or divides by zero.
pub proof fn lemma_arithmetic_evaluation(env: EnvView, e: ExprView, depth: nat)
    requires
        is_arithmetic(e),
        stays_in_range(e),
    ensures
        eval_expr(env, e, depth) == (Outcome {
            env,
            result: Ok(ObjectView::Int(exact_value(e)->0 as i64)),
        }),
    decreases e,
{
    reveal_with_fuel(stays_in_range, 2);
    match e {
        ExprView::Prefix(op, operand) => {
            lemma_arithmetic_evaluation(env, *operand, depth);
            lemma_wrap_in_range(exact_value(e)->0);
            assert(eval_prefix(op, eval_expr(env, *operand, depth).result->Ok_0) == Ok::<
                ObjectView,
                Seq<char>,
            >(ObjectView::Int(exact_value(e)->0 as i64)));
        },
        ExprView::Infix(left, op, right) => {
            lemma_arithmetic_evaluation(env, *left, depth);
            lemma_arithmetic_evaluation(env, *right, depth);
            lemma_wrap_in_range(exact_value(e)->0);
            let a = exact_value(*left)->0 as i64;
            let b = exact_value(*right)->0 as i64;
            assert(a as int == exact_value(*left)->0);
            assert(b as int == exact_value(*right)->0);
            match op {
                Infix::Plus => {
                    assert(exact_value(e)->0 == a + b);
                },
                Infix::Minus => {
                    assert(exact_value(e)->0 == a - b);
                },
                Infix::Multiply => {
                    assert(exact_value(e)->0 == a * b);
                },
                Infix::Divide => {
                    assert(b != 0);
                    assert(exact_value(e)->0 == truncated_quotient(a as int, b as int));
                },
                _ => {},
            }
            assert(eval_int_infix(op, a, b) == Ok::<ObjectView, Seq<char>>(
                ObjectView::Int(exact_value(e)->0 as i64),
            ));
        },
        _ => {},
    }
}

/// A number that a 64-bit integer holds is the 64-bit integer congruent to
/// it.
pub proof fn lemma_wrap_in_range(v: int)
    requires
        i64::MIN <= v <= i64::MAX,
    ensures
        wrap_i64(v) == v,
{
}

/// A name stands for what it was last bound to in the innermost scope.
pub proof fn lemma_lookup_after_insert(env: EnvView, key: Seq<char>, value: ObjectView)
    requires
        env.wf(),
    ensures
        env.insert(key, value).wf(),
        env.insert(key, value).lookup(key) == Some(value),
{
}

/// Binding a name in the innermost scope changes what no other name stands
/// for.
pub proof fn lemma_insert_keeps_other_names(
    env: EnvView,
    key: Seq<char>,
    value: ObjectView,
    other: Seq<char>,
)
    requires
        env.wf(),
        other != key,
    ensures
        env.insert(key, value).lookup(other) == env.lookup(other),
{
    lemma_insert_keeps_other_names_from(env, key, value, other, env.current);
}

proof fn lemma_insert_keeps_other_names_from(
    env: EnvView,
    key: Seq<char>,
    value: ObjectView,
    other: Seq<char>,
    scope: nat,
)
    requires
        env.wf(),
        other != key,
        scope < env.scopes.len(),
    ensures
        lookup_from(env.insert(key, value).scopes, scope, other) == lookup_from(
            env.scopes,
            scope,
            other,
        ),
    decreases scope,
{
    match env.scopes[scope as int].source {
        Some(outer) => {
            if outer < scope {
                lemma_insert_keeps_other_names_from(env, key, value, other, outer);
            }
        },
        None => {},
    }
}

/// Binding a name in an inner scope leaves what the name stands for in the
/// scope around it as it was: the binding shadows, it does not overwrite.
pub proof fn lemma_insert_shadows(env: EnvView, key: Seq<char>, value: ObjectView)
    requires
        env.wf(),
    ensures
        env.push_scope(env.current).insert(key, value).at(env.current).lookup(key) == env.lookup(
            key,
        ),
        env.push_scope(env.current).insert(key, value).lookup(key) == Some(value),
{
    let inner = env.push_scope(env.current).insert(key, value);
    lemma_scopes_behind_are_untouched(env.scopes, inner.scopes, env.current, key);
}

proof fn lemma_scopes_behind_are_untouched(
    before: Seq<crate::object::ScopeView>,
    after: Seq<crate::object::ScopeView>,
    scope: nat,
    key: Seq<char>,
)
    requires
        scope < before.len() <= after.len(),
        forall|i: int| 0 <= i <= scope ==> before[i] == after[i],
    ensures
        lookup_from(after, scope, key) == lookup_from(before, scope, key),
    decreases scope,
{
    match before[scope as int].source {
        Some(outer) => {
            if outer < scope {
                lemma_scopes_behind_are_untouched(before, after, outer, key);
            }
        },
        None => {},
    }
}

/// A function sees a binding that was made in the scope it was defined in
/// after it was defined: applied to no arguments, a function without
/// parameters whose body is the name `key` gives what `key` was bound to
/// since.
pub proof fn lemma_closure_sees_later_binding(
    env: EnvView,
    key: Seq<char>,
    value: ObjectView,
    depth: nat,
)
    requires
        env.wf(),
        depth > 0,
        !(value is Return),
    ensures
        ({
            let func = FuncView {
                args: Seq::empty(),
                body: seq![StmtView::Expr(ExprView::Ident(key))],
                env: env.current,
            };
            apply_function(env.insert(key, value), func, Seq::empty(), depth).result == Ok::<
                ObjectView,
                Seq<char>,
            >(value)
        }),
{
    let func = FuncView {
        args: Seq::empty(),
        body: seq![StmtView::Expr(ExprView::Ident(key))],
        env: env.current,
    };
    let later = env.insert(key, value);
    let inner = function_env(later, func, Seq::empty());
    let below = (depth - 1) as nat;
    assert(inner == later.push_scope(env.current));
    lemma_scopes_behind_are_untouched(later.scopes, inner.scopes, env.current, key);
    assert(inner.lookup(key) == Some(value));
    assert(eval_expr(inner, ExprView::Ident(key), below).result == Ok::<ObjectView, Seq<char>>(
        value,
    ));
    assert(eval_stmt(inner, func.body[0], below) == eval_expr(inner, ExprView::Ident(key), below));
    assert(func.body.drop_first() =~= Seq::<StmtView>::empty());
    assert(eval_stmts(inner, value, func.body.drop_first(), below).result == Ok::<
        ObjectView,
        Seq<char>,
    >(value));
    assert(eval_stmts(inner, ObjectView::Null, func.body, below).result == Ok::<
        ObjectView,
        Seq<char>,
    >(value));
}

/// What is left of a value when every wrapping of a `return` is taken off
/// is no value of a `return`.
pub proof fn lemma_payload_is_no_return(value: ObjectView)
    ensures
        !(value.payload() is Return),
    decreases value,
{
    match value {
        ObjectView::Return(inner) => {
            lemma_payload_is_no_return(*inner);
        },
        _ => {},
    }
}

/// The marker of a `return` is never the result of a program, whatever the
/// program, the environment and the depth.
pub proof fn lemma_program_never_yields_return(env: EnvView, program: Seq<StmtView>, depth: nat)
    ensures
        eval_program(env, program, depth).result matches Ok(value) ==> !(value is Return),
{
    let body = eval_block(env, program, depth);
    if body.result is Ok {
        lemma_payload_is_no_return(body.result->Ok_0);
    }
}

/// The marker of a `return` is never the result of a call.
pub proof fn lemma_call_never_yields_return(
    env: EnvView,
    func: FuncView,
    args: Seq<ObjectView>,
    depth: nat,
)
    ensures
        apply_function(env, func, args, depth).result matches Ok(value) ==> !(value is Return),
{
    if depth > 0 && func.env < env.scopes.len() {
        let body = eval_stmts(
            function_env(env, func, args),
            ObjectView::Null,
            func.body,
            (depth - 1) as nat,
        );
        if body.result is Ok {
            lemma_payload_is_no_return(body.result->Ok_0);
        }
    }
}

/// A `return` inside the expression of a `return` comes out once: where the
/// expression of a `return` statement gives the value of a `return`, the
/// statement gives that value as it is.
pub proof fn lemma_return_goes_up_unchanged(env: EnvView, e: ExprView, depth: nat)
    requires
        eval_expr(env, e, depth).result matches Ok(value) && value is Return,
    ensures
        eval_stmt(env, StmtView::Return(e), depth) == eval_expr(env, e, depth),
        eval_program(env, seq![StmtView::Return(e)], depth).result == Ok::<ObjectView, Seq<char>>(
            eval_expr(env, e, depth).result->Ok_0.payload(),
        ),
{
    let program = seq![StmtView::Return(e)];
    assert(program[0] == StmtView::Return(e));
    assert(eval_stmts(env, ObjectView::Null, program, depth) == eval_expr(env, e, depth));
}

} // verus!
