use monky::ast::{Expr, Ident, Infix, Literal, Prefix, Program, Stmt};
use monky::evaluator::{
    apply_function, cast_obj_to_func, eval, eval_bang_operator_expr, eval_block_stmt, eval_bounded,
    eval_expr, eval_infix_expr, eval_stmt, is_return, unwrap_every_return,
    eval_int_infix_expr, eval_literal, eval_minus_operator_expr, eval_prefix_expr, is_truthy,
    unwrap_return_value, MAX_CALL_DEPTH,
};
use monky::lexer::Lexer;
use monky::object::{Env, EvalError, EvalResult, Func, Object};
use monky::parser::Parser;

fn parse(input: &str) -> (Program, Vec<String>) {
    let mut l = Lexer::new(input.to_string()).unwrap();
    let mut p = Parser::new(&mut l);
    let program = p.parse_program();
    (program, p.errors)
}

fn run(input: &str) -> EvalResult<Object> {
    let (program, errors) = parse(input);
    assert_eq!(errors, Vec::<String>::new());
    let mut env = Env::new();
    eval(program, &mut env)
}

fn error(message: &str) -> EvalResult<Object> {
    Err(EvalError(message.to_string()))
}

fn some_function() -> Object {
    Object::Func(Func { args: vec![], body: vec![], env: 0 })
}

#[test]
fn truthiness_of_every_kind_of_value() {
    assert!(!is_truthy(Object::Null));
    assert!(!is_truthy(Object::Bool(false)));
    assert!(is_truthy(Object::Bool(true)));
    assert!(is_truthy(Object::Int(0)));
    assert!(is_truthy(Object::Int(-1)));
    assert!(is_truthy(Object::Return(Box::new(Object::Bool(false)))));
    assert!(is_truthy(some_function()));
    assert_eq!(run("if (1) { 10 }"), Ok(Object::Int(10)));
    assert_eq!(run("if (0) { 10 } else { 20 }"), Ok(Object::Int(10)));
}

#[test]
fn bang_operator_on_values() {
    assert_eq!(eval_bang_operator_expr(Object::Bool(true)), Object::Bool(false));
    assert_eq!(eval_bang_operator_expr(Object::Bool(false)), Object::Bool(true));
    assert_eq!(eval_bang_operator_expr(Object::Null), Object::Bool(true));
    assert_eq!(eval_bang_operator_expr(Object::Int(0)), Object::Bool(false));
    assert_eq!(eval_bang_operator_expr(some_function()), Object::Bool(false));
}

#[test]
fn minus_operator_on_values() {
    assert_eq!(eval_minus_operator_expr(Object::Int(5)), Ok(Object::Int(-5)));
    assert_eq!(eval_minus_operator_expr(Object::Int(0)), Ok(Object::Int(0)));
    assert_eq!(
        eval_minus_operator_expr(Object::Int(i64::MIN)),
        Ok(Object::Int(i64::MIN))
    );
    assert_eq!(
        eval_minus_operator_expr(Object::Null),
        error("unknown operator: -NULL")
    );
    assert_eq!(
        eval_minus_operator_expr(some_function()),
        error("unknown operator: -FUNCTION")
    );
}

#[test]
fn prefix_operators() {
    assert_eq!(eval_prefix_expr(Prefix::Not, Object::Int(5)), Ok(Object::Bool(false)));
    assert_eq!(eval_prefix_expr(Prefix::Minus, Object::Int(5)), Ok(Object::Int(-5)));
    assert_eq!(
        eval_prefix_expr(Prefix::Plus, Object::Int(5)),
        error("unknown operator: +INT")
    );
    assert_eq!(
        eval_prefix_expr(Prefix::Plus, Object::Bool(true)),
        error("unknown operator: +BOOLEAN")
    );
    assert_eq!(run("+5"), error("unknown operator: +INT"));
}

#[test]
fn integer_arithmetic_wraps_and_division_rounds_towards_zero() {
    assert_eq!(eval_int_infix_expr(Infix::Plus, 2, 3), Ok(Object::Int(5)));
    assert_eq!(eval_int_infix_expr(Infix::Minus, 2, 3), Ok(Object::Int(-1)));
    assert_eq!(eval_int_infix_expr(Infix::Multiply, -4, 3), Ok(Object::Int(-12)));
    assert_eq!(eval_int_infix_expr(Infix::Divide, 7, 2), Ok(Object::Int(3)));
    assert_eq!(eval_int_infix_expr(Infix::Divide, -7, 2), Ok(Object::Int(-3)));
    assert_eq!(eval_int_infix_expr(Infix::Divide, 7, -2), Ok(Object::Int(-3)));
    assert_eq!(eval_int_infix_expr(Infix::Divide, -7, -2), Ok(Object::Int(3)));
    assert_eq!(eval_int_infix_expr(Infix::Divide, 0, -2), Ok(Object::Int(0)));
    assert_eq!(
        eval_int_infix_expr(Infix::Plus, i64::MAX, 1),
        Ok(Object::Int(i64::MIN))
    );
    assert_eq!(
        eval_int_infix_expr(Infix::Minus, i64::MIN, 1),
        Ok(Object::Int(i64::MAX))
    );
    assert_eq!(
        eval_int_infix_expr(Infix::Multiply, i64::MAX, 2),
        Ok(Object::Int(-2))
    );
    assert_eq!(
        eval_int_infix_expr(Infix::Divide, i64::MIN, -1),
        Ok(Object::Int(i64::MIN))
    );
    assert_eq!(eval_int_infix_expr(Infix::LessThan, 1, 2), Ok(Object::Bool(true)));
    assert_eq!(eval_int_infix_expr(Infix::GreaterThan, 1, 2), Ok(Object::Bool(false)));
    assert_eq!(eval_int_infix_expr(Infix::Equal, 2, 2), Ok(Object::Bool(true)));
    assert_eq!(eval_int_infix_expr(Infix::NotEqual, 2, 2), Ok(Object::Bool(false)));
}

#[test]
fn division_by_zero_is_an_error() {
    assert_eq!(eval_int_infix_expr(Infix::Divide, 1, 0), error("division by zero"));
    assert_eq!(eval_int_infix_expr(Infix::Divide, 0, 0), error("division by zero"));
    assert_eq!(run("10 / (5 - 5)"), error("division by zero"));
    assert_eq!(run("let f = fn(x) { 1 / x }; f(0); 7"), error("division by zero"));
}

#[test]
fn infix_operators_on_values_of_other_types() {
    let t = || Object::Bool(true);
    let f = || Object::Bool(false);
    assert_eq!(eval_infix_expr(Infix::Equal, t(), t()), Ok(Object::Bool(true)));
    assert_eq!(eval_infix_expr(Infix::Equal, t(), f()), Ok(Object::Bool(false)));
    assert_eq!(eval_infix_expr(Infix::NotEqual, t(), f()), Ok(Object::Bool(true)));
    assert_eq!(eval_infix_expr(Infix::Equal, Object::Null, Object::Null), Ok(Object::Bool(true)));
    assert_eq!(
        eval_infix_expr(Infix::NotEqual, Object::Null, Object::Null),
        Ok(Object::Bool(false))
    );
    assert_eq!(
        eval_infix_expr(Infix::LessThan, t(), f()),
        error("unknown operator: BOOLEAN < BOOLEAN")
    );
    assert_eq!(
        eval_infix_expr(Infix::Plus, Object::Null, Object::Null),
        error("unknown operator: NULL + NULL")
    );
    assert_eq!(
        eval_infix_expr(Infix::Equal, some_function(), some_function()),
        error("unknown operator: FUNCTION == FUNCTION")
    );
    assert_eq!(
        eval_infix_expr(
            Infix::Equal,
            Object::Return(Box::new(Object::Int(1))),
            Object::Return(Box::new(Object::Int(1)))
        ),
        error("unknown operator: RETURN == RETURN")
    );
    assert_eq!(
        eval_infix_expr(Infix::Plus, Object::Int(5), t()),
        error("type mismatch: INT + BOOLEAN")
    );
    assert_eq!(
        eval_infix_expr(Infix::Plus, t(), Object::Int(5)),
        error("type mismatch: BOOLEAN + INT")
    );
    assert_eq!(
        eval_infix_expr(Infix::Equal, t(), Object::Int(1)),
        error("type mismatch: BOOLEAN == INT")
    );
    assert_eq!(
        eval_infix_expr(Infix::Multiply, Object::Null, some_function()),
        error("type mismatch: NULL * FUNCTION")
    );
    assert_eq!(
        eval_infix_expr(Infix::Divide, Object::Int(1), Object::Null),
        error("type mismatch: INT / NULL")
    );
}

#[test]
fn literals_and_unwrapping() {
    assert_eq!(eval_literal(Literal::Int(7)), Object::Int(7));
    assert_eq!(eval_literal(Literal::Bool(false)), Object::Bool(false));
    assert_eq!(
        unwrap_return_value(Object::Return(Box::new(Object::Int(3)))),
        Object::Int(3)
    );
    assert_eq!(unwrap_return_value(Object::Int(3)), Object::Int(3));
    assert_eq!(unwrap_return_value(Object::Null), Object::Null);
    assert_eq!(
        unwrap_return_value(Object::Return(Box::new(Object::Return(Box::new(Object::Null))))),
        Object::Return(Box::new(Object::Null))
    );
}

#[test]
fn calling_what_is_no_function() {
    assert_eq!(
        cast_obj_to_func(Object::Int(5)),
        Err(EvalError("'5' is not a function".to_string()))
    );
    assert_eq!(
        cast_obj_to_func(Object::Null),
        Err(EvalError("'null' is not a function".to_string()))
    );
    assert_eq!(
        cast_obj_to_func(Object::Return(Box::new(Object::Bool(true)))),
        Err(EvalError("'return true' is not a function".to_string()))
    );
    let func = Func { args: vec![Ident("x".to_string())], body: vec![], env: 3 };
    assert_eq!(
        cast_obj_to_func(Object::Func(func.clone())),
        Ok(func)
    );
    assert_eq!(run("5(1)"), error("'5' is not a function"));
    assert_eq!(run("let x = true; x()"), error("'true' is not a function"));
    // The arguments are evaluated before the callee is looked at.
    assert_eq!(run("5(nothing)"), error("identifier not found: nothing"));
}

#[test]
fn arguments_are_evaluated_from_left_to_right() {
    assert_eq!(
        run("let f = fn(a, b) { a }; f(first, second)"),
        error("identifier not found: first")
    );
    assert_eq!(
        run("let f = fn(a, b) { a }; f(1, second)"),
        error("identifier not found: second")
    );
}

#[test]
fn argument_count_is_not_checked() {
    assert_eq!(run("let f = fn(a, b) { a }; f(1)"), Ok(Object::Int(1)));
    assert_eq!(
        run("let f = fn(a, b) { b }; f(1)"),
        error("identifier not found: b")
    );
    assert_eq!(run("let f = fn(a) { a }; f(1, 2, 3)"), Ok(Object::Int(1)));
    assert_eq!(run("let f = fn() { 9 }; f(1, 2)"), Ok(Object::Int(9)));
}

#[test]
fn empty_program_and_empty_block() {
    assert_eq!(run(""), Ok(Object::Null));
    assert_eq!(run("if (true) { }"), Ok(Object::Null));
    assert_eq!(run("fn() { }()"), Ok(Object::Null));
    assert_eq!(run("let a = 1;"), Ok(Object::Null));
}

#[test]
fn return_unwinds_nested_blocks_but_not_the_caller() {
    assert_eq!(
        run("if (10 > 1) { if (10 > 1) { return 10; } return 1; }"),
        Ok(Object::Int(10))
    );
    assert_eq!(
        run("let f = fn() { if (true) { return 1; } 2 }; f() + 10"),
        Ok(Object::Int(11))
    );
    assert_eq!(
        run("let f = fn() { return 1; 2 }; f(); 5"),
        Ok(Object::Int(5))
    );
}

#[test]
fn the_marker_of_a_return_never_comes_out() {
    assert_eq!(run("return if (true) { return 5; };"), Ok(Object::Int(5)));
    assert_eq!(
        run("return if (true) { return if (true) { return 6; }; };"),
        Ok(Object::Int(6))
    );
    assert_eq!(
        run("let f = fn() { return if (true) { return 7; }; }; f()"),
        Ok(Object::Int(7))
    );
    assert_eq!(run("return 1;"), Ok(Object::Int(1)));
    // A marker that was put into the environment by hand comes out unwrapped too.
    let mut env = Env::new();
    let twice = Object::Return(Box::new(Object::Return(Box::new(Object::Int(8)))));
    env.insert("x".to_string(), twice);
    let (program, _) = parse("x");
    assert_eq!(eval(program, &mut env), Ok(Object::Int(8)));
    let (program, _) = parse("let f = fn() { x }; f()");
    assert_eq!(eval(program, &mut env), Ok(Object::Int(8)));
}

#[test]
fn a_return_stops_the_expression_around_it() {
    // In an operand: the other operand is not evaluated.
    assert_eq!(run("(if (true) { return 1 }) + 2"), Ok(Object::Int(1)));
    assert_eq!(run("2 + if (true) { return 1 }"), Ok(Object::Int(1)));
    assert_eq!(run("(if (true) { return 1 }) + nothing"), Ok(Object::Int(1)));
    assert_eq!(
        run("nothing + if (true) { return 1 }"),
        error("identifier not found: nothing")
    );
    assert_eq!(run("-if (true) { return 3 }"), Ok(Object::Int(3)));
    assert_eq!(run("!if (true) { return 3 }"), Ok(Object::Int(3)));
    // In a condition: no branch is taken.
    assert_eq!(
        run("if (if (true) { return 4 }) { nothing } else { nothing }"),
        Ok(Object::Int(4))
    );
    // In a let: nothing is bound.
    assert_eq!(run("let a = if (true) { return 5 }; 6"), Ok(Object::Int(5)));
    let mut env = Env::new();
    let (program, _) = parse("let a = if (true) { return 5 };");
    assert_eq!(eval(program, &mut env), Ok(Object::Int(5)));
    assert_eq!(env.get("a".to_string()), None);
    // In a callee and in an argument: the call is not made.
    assert_eq!(
        run("let f = fn(x) { nothing }; f(if (true) { return 7 })"),
        Ok(Object::Int(7))
    );
    assert_eq!(
        run("let f = fn(x, y) { x }; f(1, if (true) { return 7 }, nothing)"),
        Ok(Object::Int(7))
    );
    assert_eq!(run("(if (true) { return 8 })(nothing)"), Ok(Object::Int(8)));
    // Inside a function it ends the function, not the caller.
    assert_eq!(
        run("let f = fn() { let a = (if (true) { return 1 }) + 1; 2 }; f() + 10"),
        Ok(Object::Int(11))
    );
}

#[test]
fn parts_of_the_evaluator_on_their_own() {
    let (program, _) = parse("let a = 2; a * 3; return a + 1; nothing");
    let mut env = Env::new();
    assert_eq!(eval_stmt(&mut env, &program.statements[0], 5), Ok(Object::Null));
    assert_eq!(eval_stmt(&mut env, &program.statements[1], 5), Ok(Object::Int(6)));
    assert_eq!(
        eval_stmt(&mut env, &program.statements[2], 5),
        Ok(Object::Return(Box::new(Object::Int(3))))
    );
    assert_eq!(
        eval_block_stmt(&mut env, &program.statements, 5),
        Ok(Object::Return(Box::new(Object::Int(3))))
    );
    assert_eq!(eval_block_stmt(&mut env, &vec![], 5), Ok(Object::Null));
    match &program.statements[1] {
        Stmt::Expr(expr) => assert_eq!(eval_expr(&mut env, expr, 0), Ok(Object::Int(6))),
        other => panic!("no expression: {:?}", other),
    }
    let (double, _) = parse("fn(x) { return x * 2; 0 }");
    let func = match eval(double, &mut env) {
        Ok(Object::Func(func)) => func,
        other => panic!("no function: {:?}", other),
    };
    assert_eq!(
        apply_function(&mut env, func.clone(), vec![Object::Int(4)], 1),
        Ok(Object::Int(8))
    );
    assert_eq!(
        apply_function(&mut env, func.clone(), vec![Object::Int(4)], 0),
        error("call depth exceeded")
    );
    assert_eq!(env.current_scope(), 0);
}

#[test]
fn arithmetic_expressions_give_their_number_and_leave_the_environment() {
    let cases = vec![
        ("2 * (5 + 10)", 30),
        ("50 / 2 * 2 + 10", 60),
        ("-7 / 2", -3),
        ("1 - 2 - 3", -4),
        ("2 * 3 - 4 * 5", -14),
        ("-(3 - 10) * -2", -14),
    ];
    for (input, expect) in cases {
        let (program, _) = parse(input);
        let mut env = Env::new();
        env.insert("kept".to_string(), Object::Int(1));
        let before = env.clone();
        match &program.statements[0] {
            Stmt::Expr(expr) => {
                assert_eq!(eval_expr(&mut env, expr, 0), Ok(Object::Int(expect)), "{}", input)
            }
            other => panic!("no expression: {:?}", other),
        }
        assert_eq!(env, before);
    }
}

#[test]
fn markers_of_return_are_told_and_taken_off() {
    let once = Object::Return(Box::new(Object::Int(1)));
    let twice = Object::Return(Box::new(Object::Return(Box::new(Object::Null))));
    assert!(is_return(&once));
    assert!(is_return(&twice));
    assert!(!is_return(&Object::Int(1)));
    assert!(!is_return(&Object::Null));
    assert!(!is_return(&some_function()));
    assert_eq!(unwrap_every_return(once), Object::Int(1));
    assert_eq!(unwrap_every_return(twice), Object::Null);
    assert_eq!(unwrap_every_return(Object::Bool(true)), Object::Bool(true));
}

#[test]
fn errors_stop_everything_around_them() {
    assert_eq!(run("5 + true; 5;"), error("type mismatch: INT + BOOLEAN"));
    assert_eq!(run("foobar"), error("identifier not found: foobar"));
    assert_eq!(run("let a = nothing; 1"), error("identifier not found: nothing"));
    assert_eq!(run("return nothing; 1"), error("identifier not found: nothing"));
    assert_eq!(run("-(1 + nothing)"), error("identifier not found: nothing"));
    assert_eq!(run("(nothing + 1) * zilch"), error("identifier not found: nothing"));
    assert_eq!(run("1 + zilch * nothing"), error("identifier not found: zilch"));
    assert_eq!(run("if (nothing) { 1 } else { 2 }"), error("identifier not found: nothing"));
    assert_eq!(
        run("let f = fn() { nothing; 2 }; f(); 3"),
        error("identifier not found: nothing")
    );
}

#[test]
fn closures_keep_the_scope_they_were_defined_in() {
    assert_eq!(
        run("let newAdder = fn(x) { fn(y) { x + y } }; let addTwo = newAdder(2); addTwo(2);"),
        Ok(Object::Int(4))
    );
    assert_eq!(
        run("let newAdder = fn(x) { fn(y) { x + y } }; let a = newAdder(2); let b = newAdder(10); a(1) + b(1)"),
        Ok(Object::Int(14))
    );
    // The caller's scope is not the function's.
    assert_eq!(
        run("let f = fn() { x }; let g = fn() { let x = 1; f() }; g()"),
        error("identifier not found: x")
    );
}

#[test]
fn closures_see_bindings_made_after_they_were_defined() {
    assert_eq!(run("let f = fn() { x }; let x = 5; f()"), Ok(Object::Int(5)));
    assert_eq!(
        run("let f = fn() { x }; let x = 5; let a = f(); let x = 6; a + f()"),
        Ok(Object::Int(11))
    );
    assert_eq!(
        run("let fact = fn(n) { if (n < 1) { 1 } else { n * fact(n - 1) } }; fact(10)"),
        Ok(Object::Int(3628800))
    );
}

#[test]
fn let_binds_in_the_innermost_scope() {
    assert_eq!(
        run("let x = 1; let f = fn() { let x = 2; x }; f() * 10 + x"),
        Ok(Object::Int(21))
    );
    assert_eq!(
        run("let x = 1; let f = fn(x) { x }; f(7) * 10 + x"),
        Ok(Object::Int(71))
    );
    // A block does not make a scope.
    assert_eq!(run("if (true) { let y = 3; } y"), Ok(Object::Int(3)));
}

#[test]
fn environment_persists_across_evaluations() {
    let mut env = Env::new();
    let (first, _) = parse("let a = 5; let double = fn(x) { x * 2 };");
    assert_eq!(eval(first, &mut env), Ok(Object::Null));
    let (second, _) = parse("double(a)");
    assert_eq!(eval(second, &mut env), Ok(Object::Int(10)));
    let (third, _) = parse("let a = 8; double(a)");
    assert_eq!(eval(third, &mut env), Ok(Object::Int(16)));
    assert_eq!(env.get("a".to_string()), Some(&Object::Int(8)));
    assert_eq!(env.current_scope(), 0);
}

#[test]
fn call_depth_is_bounded() {
    let (program, _) = parse("let f = fn(n) { if (n < 1) { 0 } else { 1 + f(n - 1) } }; f(5)");
    let mut env = Env::new();
    assert_eq!(eval_bounded(&program, &mut env, 6), Ok(Object::Int(5)));
    let mut env = Env::new();
    assert_eq!(
        eval_bounded(&program, &mut env, 5),
        Err(EvalError("call depth exceeded".to_string()))
    );
    let mut env = Env::new();
    assert_eq!(
        eval_bounded(&program, &mut env, 0),
        Err(EvalError("call depth exceeded".to_string()))
    );
    let (plain, _) = parse("1 + 2");
    let mut env = Env::new();
    assert_eq!(eval_bounded(&plain, &mut env, 0), Ok(Object::Int(3)));
    assert_eq!(env.current_scope(), 0);
}

#[test]
fn endless_recursion_ends_in_an_error() {
    assert_eq!(
        run("let f = fn(x) { f(x + 1) }; f(0)"),
        error("call depth exceeded")
    );
    assert!(MAX_CALL_DEPTH >= 100);
}

#[test]
fn function_of_another_environment_is_refused() {
    let mut env = Env::new();
    let stray = Object::Func(Func { args: vec![], body: vec![], env: 7 });
    env.insert("stray".to_string(), stray);
    let (program, _) = parse("stray()");
    assert_eq!(
        eval(program, &mut env),
        Err(EvalError("function defined in another environment".to_string()))
    );
}

#[test]
fn values_as_text() {
    assert_eq!(Object::Int(-42).to_text(), "-42");
    assert_eq!(Object::Int(0).to_text(), "0");
    assert_eq!(Object::Int(i64::MAX).to_text(), "9223372036854775807");
    assert_eq!(Object::Int(i64::MIN).to_text(), "-9223372036854775808");
    assert_eq!(Object::Bool(true).to_text(), "true");
    assert_eq!(Object::Bool(false).to_text(), "false");
    assert_eq!(Object::Null.to_text(), "null");
    assert_eq!(Object::Return(Box::new(Object::Int(1))).to_text(), "return 1");
    assert_eq!(run("fn(x, y) { x + y; }").unwrap().to_text(), "fn (x, y) { (x + y) }");
    assert_eq!(run("fn() { 1; 2 }").unwrap().to_text(), "fn () { 1\n2 }");
    assert_eq!(EvalError("boom".to_string()).to_text(), "ERROR: boom");
    assert_eq!(Object::Int(1).get_type(), "INT");
    assert_eq!(Object::Bool(true).get_type(), "BOOLEAN");
    assert_eq!(Object::Null.get_type(), "NULL");
    assert_eq!(some_function().get_type(), "FUNCTION");
    assert_eq!(Object::Return(Box::new(Object::Null)).get_type(), "RETURN");
}

#[test]
fn function_values_hold_their_parts() {
    match run("fn(a, b) { return a; }") {
        Ok(Object::Func(func)) => {
            assert_eq!(func.args, vec![Ident("a".to_string()), Ident("b".to_string())]);
            assert_eq!(
                func.body,
                vec![Stmt::Return(Expr::Ident(Ident("a".to_string())))]
            );
            assert_eq!(func.env, 0);
        }
        other => panic!("no function: {:?}", other),
    }
    match run("let make = fn() { fn() { 1 } }; make()") {
        Ok(Object::Func(func)) => assert_eq!(func.env, 1),
        other => panic!("no function: {:?}", other),
    }
}
