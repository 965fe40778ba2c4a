//! The evaluator: a walk over the syntax tree against an environment.

use vstd::prelude::*;
use vstd::string::*;
use vstd::arithmetic::div_mod::{
    lemma_div_basics_4, lemma_div_basics_5, lemma_div_is_ordered_by_denominator,
};
use crate::ast::{
    Expr, Ident, Infix, Literal, Prefix, Program, Stmt, clone_idents, clone_stmts, exprs_view,
    stmts_view,
};
use crate::object::{
    Env, EvalError, EvalResult, Func, Object, ObjectView, objects_view, result_view,
};
use crate::laws::{exact_value, is_arithmetic, lemma_arithmetic_evaluation, stays_in_range};
use crate::semantics::{
    Outcome, bind_arguments, function_env, identifier_not_found, not_a_function, same_kind,
    truncated_quotient, unknown_prefix_operator,
};

verus! {

/// How many function calls `eval` lets be nested inside one another.
pub const MAX_CALL_DEPTH: usize = 500;

/// What an evaluation leaves of the environment it ran in: the scopes made
/// before are still there, and the same scope is innermost.
pub open spec fn settled(before: &Env, after: &Env) -> bool {
    &&& after.wf()
    &&& after@.current == before@.current
    &&& after@.scopes.len() >= before@.scopes.len()
}

/// The evaluation did what `outcome` says.
pub open spec fn agrees(after: &Env, r: EvalResult<Object>, outcome: Outcome) -> bool {
    &&& after@ == outcome.env
    &&& result_view(r) == outcome.result
}

/// Evaluates a program in `env`, which keeps the bindings the program makes.
/// The result is the value of the program's last statement, the value of
/// the first `return` reached, without its wrapping, or the first error.
pub fn eval(p: Program, env: &mut Env) -> (r: EvalResult<Object>)
    requires
        old(env).wf(),
    ensures
        settled(old(env), final(env)),
        agrees(
            final(env),
            r,
            crate::semantics::eval_program(old(env)@, p@, MAX_CALL_DEPTH as nat),
        ),
        r matches Ok(v) ==> !(v@ is Return),
{
    eval_bounded(&p, env, MAX_CALL_DEPTH)
}

/// Evaluates a program as `eval` does, with at most `depth` function calls
/// nested inside one another.
pub fn eval_bounded(p: &Program, env: &mut Env, depth: usize) -> (r: EvalResult<Object>)
    requires
        old(env).wf(),
    ensures
        settled(old(env), final(env)),
        agrees(final(env), r, crate::semantics::eval_program(old(env)@, p@, depth as nat)),
        r matches Ok(v) ==> !(v@ is Return),
{
    match eval_block_stmt(env, &p.statements, depth) {
        Ok(value) => Ok(unwrap_every_return(value)),
        Err(error) => Err(error),
    }
}

/// Evaluates a statement in `env`. `return` wraps the value of its
/// expression and `let` binds it; an error, and the value of a `return`
/// that the expression gives, come out as they are.
pub fn eval_stmt(env: &mut Env, stmt: &Stmt, depth: usize) -> (r: EvalResult<Object>)
    requires
        old(env).wf(),
    ensures
        settled(old(env), final(env)),
        agrees(final(env), r, crate::semantics::eval_stmt(old(env)@, stmt@, depth as nat)),
    decreases depth, 1nat, stmt, 0nat,
{
    match stmt {
        Stmt::Expr(expr) => eval_expr(env, expr, depth),
        Stmt::Block(stmts) => eval_block_stmt(env, stmts, depth),
        Stmt::Return(expr) => {
            let value = match eval_expr(env, expr, depth) {
                Ok(value) => value,
                Err(error) => {
                    return Err(error);
                },
            };
            if is_return(&value) {
                return Ok(value);
            }
            Ok(Object::Return(Box::new(value)))
        },
        Stmt::Let(ident, expr) => {
            let value = match eval_expr(env, expr, depth) {
                Ok(value) => value,
                Err(error) => {
                    return Err(error);
                },
            };
            if is_return(&value) {
                return Ok(value);
            }
            env.insert(ident.0.clone(), value);
            Ok(Object::Null)
        },
    }
}

/// Evaluates an expression in `env`. An error, and the value of a `return`,
/// that a part of the expression gives is the result of the whole. An
/// expression of integer arithmetic that stays in the range of a 64-bit
/// integer and divides by no zero gives the number it stands for and leaves
/// the environment as it was.
pub fn eval_expr(env: &mut Env, expr: &Expr, depth: usize) -> (r: EvalResult<Object>)
    requires
        old(env).wf(),
    ensures
        settled(old(env), final(env)),
        agrees(final(env), r, crate::semantics::eval_expr(old(env)@, expr@, depth as nat)),
        is_arithmetic(expr@) && stays_in_range(expr@) ==> final(env)@ == old(env)@ && result_view(r)
            == Ok::<ObjectView, Seq<char>>(ObjectView::Int(exact_value(expr@)->0 as i64)),
    decreases depth, 1nat, expr, 1nat,
{
    proof {
        if is_arithmetic(expr@) && stays_in_range(expr@) {
            lemma_arithmetic_evaluation(env@, expr@, depth as nat);
        }
    }
    match expr {
        Expr::Literal(literal) => Ok(eval_literal(*literal)),
        Expr::Prefix(prefix, right) => {
            let value = match eval_expr(env, right, depth) {
                Ok(value) => value,
                Err(error) => {
                    return Err(error);
                },
            };
            if is_return(&value) {
                return Ok(value);
            }
            eval_prefix_expr(*prefix, value)
        },
        Expr::Infix(left, infix, right) => {
            let left_value = match eval_expr(env, left, depth) {
                Ok(value) => value,
                Err(error) => {
                    return Err(error);
                },
            };
            if is_return(&left_value) {
                return Ok(left_value);
            }
            let right_value = match eval_expr(env, right, depth) {
                Ok(value) => value,
                Err(error) => {
                    return Err(error);
                },
            };
            if is_return(&right_value) {
                return Ok(right_value);
            }
            eval_infix_expr(*infix, left_value, right_value)
        },
        Expr::If(cond, cons, alt) => eval_if_expr(env, cond, cons, alt, depth, Ghost(*expr)),
        Expr::Ident(ident) => eval_ident(env, ident),
        Expr::Function(idents, stmts) => Ok(
            Object::Func(
                Func {
                    args: clone_idents(idents),
                    body: clone_stmts(stmts),
                    env: env.current_scope(),
                },
            ),
        ),
        Expr::Call(func_expr, args) => {
            let func_obj = match eval_expr(env, func_expr, depth) {
                Ok(value) => value,
                Err(error) => {
                    return Err(error);
                },
            };
            if is_return(&func_obj) {
                return Ok(func_obj);
            }
            let ghost after_callee = env@;
            let ghost arg_views = exprs_view(args@);
            let mut values: Vec<Object> = Vec::new();
            let mut i: usize = 0;
            assert(objects_view(values@) =~= Seq::<ObjectView>::empty());
            assert(arg_views.skip(0) =~= arg_views);
            while i < args.len()
                invariant
                    i <= args.len(),
                    settled(old(env), env),
                    arg_views == exprs_view(args@),
                    *expr == Expr::Call(*func_expr, *args),
                    !(func_obj@ is Return),
                    crate::semantics::eval_expr(old(env)@, func_expr@, depth as nat) == (Outcome {
                        env: after_callee,
                        result: Ok(func_obj@),
                    }),
                    crate::semantics::eval_exprs(
                        env@,
                        objects_view(values@),
                        arg_views.skip(i as int),
                        depth as nat,
                    ) == crate::semantics::eval_exprs(
                        after_callee,
                        Seq::empty(),
                        arg_views,
                        depth as nat,
                    ),
                decreases args.len() - i,
            {
                proof {
                    assert(decreases_to!(expr => expr->Call_1));
                    assert(decreases_to!(args => args@));
                    assert(decreases_to!(args@ => args@[i as int]));
                    assert(arg_views.skip(i as int)[0] == args@[i as int]@);
                    assert(arg_views.skip(i as int).drop_first() =~= arg_views.skip(i + 1));
                }
                let ghost done = objects_view(values@);
                let value = match eval_expr(env, &args[i], depth) {
                    Ok(value) => value,
                    Err(error) => {
                        return Err(error);
                    },
                };
                if is_return(&value) {
                    return Ok(value);
                }
                values.push(value);
                assert(objects_view(values@) =~= done.push(value@));
                i += 1;
            }
            let func = match cast_obj_to_func(func_obj) {
                Ok(func) => func,
                Err(error) => {
                    return Err(error);
                },
            };
            apply_function(env, func, values, depth)
        },
    }
}

/// Evaluates the statements of a block one after another in `env`. An
/// error, and the value of a `return`, stop the evaluation and are its
/// result; otherwise the result is the value of the last statement, or
/// `Null` where there is none.
pub fn eval_block_stmt(env: &mut Env, block: &Vec<Stmt>, depth: usize) -> (r: EvalResult<Object>)
    requires
        old(env).wf(),
    ensures
        settled(old(env), final(env)),
        agrees(
            final(env),
            r,
            crate::semantics::eval_block(old(env)@, stmts_view(block@), depth as nat),
        ),
    decreases depth, 1nat, block, 0nat,
{
    let ghost views = stmts_view(block@);
    let mut result = Object::Null;
    let mut i: usize = 0;
    assert(views.skip(0) =~= views);
    while i < block.len()
        invariant
            i <= block.len(),
            settled(old(env), env),
            views == stmts_view(block@),
            !(result@ is Return),
            crate::semantics::eval_stmts(env@, result@, views.skip(i as int), depth as nat)
                == crate::semantics::eval_block(old(env)@, views, depth as nat),
        decreases block.len() - i,
    {
        proof {
            assert(decreases_to!(block => block@));
            assert(decreases_to!(block@ => block@[i as int]));
            assert(views.skip(i as int)[0] == block@[i as int]@);
            assert(views.skip(i as int).drop_first() =~= views.skip(i + 1));
        }
        result = match eval_stmt(env, &block[i], depth) {
            Ok(value) => value,
            Err(error) => {
                return Err(error);
            },
        };
        if is_return(&result) {
            return Ok(result);
        }
        i += 1;
    }
    Ok(result)
}

/// The value of a literal.
pub fn eval_literal(literal: Literal) -> (r: Object)
    ensures
        r@ == crate::semantics::eval_literal(literal),
{
    match literal {
        Literal::Bool(v) => Object::Bool(v),
        Literal::Int(v) => Object::Int(v),
    }
}

fn unknown_prefix_operator_error(operator: Prefix, right: &Object) -> (r: EvalError)
    ensures
        r@ == unknown_prefix_operator(operator, right@),
{
    let mut out = String::from_str("unknown operator: ");
    out.append(operator.to_text());
    let kind = right.get_type();
    out.append(kind.as_str());
    EvalError(out)
}

/// A unary operator applied to a value: `!` takes every value, `-` an
/// integer, `+` none.
pub fn eval_prefix_expr(operator: Prefix, right: Object) -> (r: EvalResult<Object>)
    ensures
        result_view(r) == crate::semantics::eval_prefix(operator, right@),
{
    match operator {
        Prefix::Not => Ok(eval_bang_operator_expr(right)),
        Prefix::Minus => eval_minus_operator_expr(right),
        _ => Err(unknown_prefix_operator_error(operator, &right)),
    }
}

fn infix_error(prefix: &str, operator: Infix, left: &Object, right: &Object) -> (r: EvalError)
    ensures
        r@ == prefix@ + left@.kind_name() + " "@ + operator.symbol() + " "@ + right@.kind_name(),
{
    let mut out = String::from_str(prefix);
    let left_kind = left.get_type();
    out.append(left_kind.as_str());
    out.append(" ");
    out.append(operator.to_text());
    out.append(" ");
    let right_kind = right.get_type();
    out.append(right_kind.as_str());
    EvalError(out)
}

fn is_same_kind(left: &Object, right: &Object) -> (r: bool)
    ensures
        r == same_kind(left@, right@),
{
    match (left, right) {
        (Object::Int(_), Object::Int(_)) => true,
        (Object::Bool(_), Object::Bool(_)) => true,
        (Object::Return(_), Object::Return(_)) => true,
        (Object::Func(_), Object::Func(_)) => true,
        (Object::Null, Object::Null) => true,
        _ => false,
    }
}

/// A binary operator applied to two values. Two integers take every
/// operator; two booleans, and two `Null`s, take `==` and `!=`. Anything
/// else is an error: a type mismatch where the types differ, an unknown
/// operator where they are the same.
pub fn eval_infix_expr(operator: Infix, left: Object, right: Object) -> (r: EvalResult<Object>)
    ensures
        result_view(r) == crate::semantics::eval_infix(operator, left@, right@),
{
    match (&left, &right) {
        (Object::Int(left_val), Object::Int(right_val)) => eval_int_infix_expr(
            operator,
            *left_val,
            *right_val,
        ),
        (Object::Bool(a), Object::Bool(b)) => match operator {
            Infix::Equal => Ok(Object::Bool(*a == *b)),
            Infix::NotEqual => Ok(Object::Bool(*a != *b)),
            _ => Err(infix_error("unknown operator: ", operator, &left, &right)),
        },
        (Object::Null, Object::Null) => match operator {
            Infix::Equal => Ok(Object::Bool(true)),
            Infix::NotEqual => Ok(Object::Bool(false)),
            _ => Err(infix_error("unknown operator: ", operator, &left, &right)),
        },
        _ => {
            if is_same_kind(&left, &right) {
                Err(infix_error("unknown operator: ", operator, &left, &right))
            } else {
                Err(infix_error("type mismatch: ", operator, &left, &right))
            }
        },
    }
}

proof fn lemma_quotient_range(a: int, b: int)
    requires
        i64::MIN <= a <= i64::MAX,
        i64::MIN <= b <= i64::MAX,
        b != 0,
    ensures
        i64::MIN <= truncated_quotient(a, b) <= i64::MAX + 1,
        truncated_quotient(a, b) == i64::MAX + 1 ==> a == i64::MIN && b == -1,
{
    let x = if a < 0 {
        -a
    } else {
        a
    };
    let d = if b < 0 {
        -b
    } else {
        b
    };
    lemma_div_basics_4(x, d);
    lemma_div_basics_5(x, d);
    if d >= 2 {
        lemma_div_is_ordered_by_denominator(x, 2, d);
    }
}

/// A binary operator applied to two integers: sums, differences and products
/// wrap, quotients round towards zero, and a zero divisor is an error.
pub fn eval_int_infix_expr(operator: Infix, left: i64, right: i64) -> (r: EvalResult<Object>)
    ensures
        result_view(r) == crate::semantics::eval_int_infix(operator, left, right),
{
    match operator {
        Infix::Plus => Ok(Object::Int(left.wrapping_add(right))),
        Infix::Minus => Ok(Object::Int(left.wrapping_sub(right))),
        Infix::Multiply => Ok(Object::Int(left.wrapping_mul(right))),
        Infix::Divide => {
            if right == 0 {
                Err(EvalError(String::from_str("division by zero")))
            } else {
                proof {
                    lemma_quotient_range(left as int, right as int);
                }
                match left.checked_div(right) {
                    Some(quotient) => Ok(Object::Int(quotient)),
                    None => Ok(Object::Int(i64::MIN)),
                }
            }
        },
        Infix::LessThan => Ok(Object::Bool(left < right)),
        Infix::GreaterThan => Ok(Object::Bool(left > right)),
        Infix::Equal => Ok(Object::Bool(left == right)),
        Infix::NotEqual => Ok(Object::Bool(left != right)),
    }
}

/// `!` applied to a value: true for `false` and for `Null`, false for every
/// other value.
pub fn eval_bang_operator_expr(right: Object) -> (r: Object)
    ensures
        r@ == crate::semantics::eval_bang(right@),
{
    match right {
        Object::Bool(val) => Object::Bool(!val),
        Object::Null => Object::Bool(true),
        _ => Object::Bool(false),
    }
}

/// `-` applied to a value: the negative of an integer, wrapping, and an
/// error for every other value.
pub fn eval_minus_operator_expr(right: Object) -> (r: EvalResult<Object>)
    ensures
        result_view(r) == crate::semantics::eval_minus(right@),
{
    match &right {
        Object::Int(val) => Ok(Object::Int(0i64.wrapping_sub(*val))),
        _ => Err(unknown_prefix_operator_error(Prefix::Minus, &right)),
    }
}

fn eval_if_expr(
    env: &mut Env,
    cond: &Expr,
    cons: &Stmt,
    alt: &Option<Box<Stmt>>,
    depth: usize,
    whole: Ghost<Expr>,
) -> (r: EvalResult<Object>)
    requires
        old(env).wf(),
        whole@ == Expr::If(Box::new(*cond), Box::new(*cons), *alt),
    ensures
        settled(old(env), final(env)),
        agrees(final(env), r, crate::semantics::eval_expr(old(env)@, whole@@, depth as nat)),
    decreases depth, 1nat, whole@, 0nat,
{
    let cond_obj = match eval_expr(env, cond, depth) {
        Ok(value) => value,
        Err(error) => {
            return Err(error);
        },
    };
    if is_return(&cond_obj) {
        return Ok(cond_obj);
    }
    if is_truthy(cond_obj) {
        return eval_stmt(env, cons, depth);
    }
    match alt {
        Some(stmt) => eval_stmt(env, stmt, depth),
        None => Ok(Object::Null),
    }
}

/// Whether a value counts as true: `Null` and `false` do not, every other
/// value does.
pub fn is_truthy(obj: Object) -> (r: bool)
    ensures
        r == crate::semantics::is_truthy(obj@),
        r == !(obj@ is Null || obj@ == ObjectView::Bool(false)),
{
    match obj {
        Object::Null => false,
        Object::Bool(true) => true,
        Object::Bool(false) => false,
        _ => true,
    }
}

fn eval_ident(env: &Env, ident: &Ident) -> (r: EvalResult<Object>)
    requires
        env.wf(),
    ensures
        result_view(r) == match env@.lookup(ident@) {
            Some(value) => Ok::<ObjectView, Seq<char>>(value),
            None => Err(identifier_not_found(ident@)),
        },
{
    match env.get(ident.0.clone()) {
        Some(obj) => Ok(obj.clone()),
        None => {
            let mut out = String::from_str("identifier not found: ");
            out.append(ident.0.as_str());
            Err(EvalError(out))
        },
    }
}

/// Applies a function to arguments: its body runs in a new scope inside
/// the scope the function was defined in, with the parameters bound to the
/// arguments by position, and the scope that was innermost is innermost
/// again afterwards. The result is the value of a `return`, without its
/// wrapping, or that of the body's last statement. With no call left in
/// `depth`, and for a function whose scope is not one of `env`, it is an
/// error.
pub fn apply_function(env: &mut Env, func: Func, args: Vec<Object>, depth: usize) -> (r: EvalResult<
    Object,
>)
    requires
        old(env).wf(),
    ensures
        settled(old(env), final(env)),
        agrees(
            final(env),
            r,
            crate::semantics::apply_function(
                old(env)@,
                func@,
                objects_view(args@),
                depth as nat,
            ),
        ),
    decreases depth, 0nat, func.body, 0nat,
{
    if depth == 0 {
        return Err(EvalError(String::from_str("call depth exceeded")));
    }
    if func.env >= env.scope_count() {
        return Err(EvalError(String::from_str("function defined in another environment")));
    }
    let caller_scope = env.current_scope();
    wrap_function_env(env, &func, args);
    let evaluated = eval_block_stmt(env, &func.body, depth - 1);
    env.leave_to(caller_scope);
    match evaluated {
        Ok(value) => Ok(unwrap_every_return(value)),
        Err(error) => Err(error),
    }
}

fn wrap_function_env(env: &mut Env, func: &Func, args: Vec<Object>)
    requires
        old(env).wf(),
        func.env < old(env)@.scopes.len(),
    ensures
        final(env).wf(),
        final(env)@ == function_env(old(env)@, func@, objects_view(args@)),
        final(env)@.scopes.len() == old(env)@.scopes.len() + 1,
{
    env.enter(func.env);
    let ghost inner = env@;
    let count = if func.args.len() <= args.len() {
        func.args.len()
    } else {
        args.len()
    };
    let mut i: usize = 0;
    while i < count
        invariant
            i <= count,
            count <= func.args.len(),
            count <= args.len(),
            env.wf(),
            env@.scopes.len() == inner.scopes.len(),
            env@ == bind_arguments(inner, func@.args, objects_view(args@), i as nat),
        decreases count - i,
    {
        env.insert(func.args[i].0.clone(), args[i].clone());
        i += 1;
    }
}

/// The function that a value is, or an error that shows the value when it
/// is no function.
pub fn cast_obj_to_func(obj: Object) -> (r: EvalResult<Func>)
    ensures
        match obj@ {
            ObjectView::Func(func) => r is Ok && r->Ok_0@ == func,
            other => r is Err && r->Err_0@ == not_a_function(other),
        },
{
    match obj {
        Object::Func(func) => Ok(func),
        other => {
            let mut out = String::from_str("'");
            let shown = other.to_text();
            out.append(shown.as_str());
            out.append("' is not a function");
            Err(EvalError(out))
        },
    }
}

/// The value without the wrapping of a `return`.
pub fn unwrap_return_value(obj: Object) -> (r: Object)
    ensures
        r@ == obj@.unwrap_return(),
{
    match obj {
        Object::Return(value) => *value,
        other => other,
    }
}

/// Whether a value is that of a `return` on its way out.
pub fn is_return(obj: &Object) -> (r: bool)
    ensures
        r == (obj@ is Return),
{
    match obj {
        Object::Return(_) => true,
        _ => false,
    }
}

/// The value without any wrapping of a `return`, however often it is
/// wrapped.
pub fn unwrap_every_return(obj: Object) -> (r: Object)
    ensures
        r@ == obj@.payload(),
        !(r@ is Return),
    decreases obj@,
{
    if is_return(&obj) {
        unwrap_every_return(unwrap_return_value(obj))
    } else {
        obj
    }
}

} // verus!
