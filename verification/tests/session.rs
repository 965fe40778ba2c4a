use monky::object::{Env, Func, Object};
use monky::repl::{print_parse_errors, respond};
use monky::text::{bool_text, int_text, push_int, push_joined};

#[test]
fn environment_lookup_walks_outwards() {
    let mut env = Env::new();
    assert_eq!(env.get("a".to_string()), None);
    assert_eq!(env.insert("a".to_string(), Object::Int(1)), None);
    assert_eq!(env.insert("b".to_string(), Object::Int(2)), None);
    assert_eq!(env.get("a".to_string()), Some(&Object::Int(1)));
    let mut inner = Env::wrap(env);
    assert_eq!(inner.current_scope(), 1);
    assert_eq!(inner.scope_count(), 2);
    assert_eq!(inner.get("a".to_string()), Some(&Object::Int(1)));
    assert_eq!(inner.get("b".to_string()), Some(&Object::Int(2)));
    assert_eq!(inner.get("c".to_string()), None);
    // Binding in the inner scope hides the outer binding and leaves it as it is.
    assert_eq!(inner.insert("a".to_string(), Object::Bool(true)), None);
    assert_eq!(inner.get("a".to_string()), Some(&Object::Bool(true)));
    assert!(inner.leave_to(0));
    assert_eq!(inner.get("a".to_string()), Some(&Object::Int(1)));
    assert_eq!(inner.get("b".to_string()), Some(&Object::Int(2)));
}

#[test]
fn environment_insert_gives_back_the_binding_it_replaces() {
    let mut env = Env::new();
    assert_eq!(env.insert("a".to_string(), Object::Int(1)), None);
    assert_eq!(env.insert("a".to_string(), Object::Int(2)), Some(Object::Int(1)));
    assert_eq!(env.insert("a".to_string(), Object::Null), Some(Object::Int(2)));
    assert_eq!(env.get("a".to_string()), Some(&Object::Null));
    assert_eq!(env.insert("".to_string(), Object::Int(0)), None);
    assert_eq!(env.get("".to_string()), Some(&Object::Int(0)));
    let mut inner = Env::wrap(env);
    assert_eq!(inner.insert("a".to_string(), Object::Int(3)), None);
    assert_eq!(inner.insert("a".to_string(), Object::Int(4)), Some(Object::Int(3)));
}

#[test]
fn environment_scopes_nest_by_handle() {
    let mut env = Env::new();
    env.insert("x".to_string(), Object::Int(0));
    assert!(env.enter(0));
    env.insert("x".to_string(), Object::Int(1));
    assert!(env.enter(0));
    assert_eq!(env.current_scope(), 2);
    // The third scope lies inside the first, not inside the second.
    assert_eq!(env.get("x".to_string()), Some(&Object::Int(0)));
    assert!(env.enter(1));
    assert_eq!(env.get("x".to_string()), Some(&Object::Int(1)));
    assert_eq!(env.scope_count(), 4);
    // A handle of no scope changes nothing.
    assert!(!env.enter(4));
    assert!(!env.leave_to(9));
    assert_eq!(env.scope_count(), 4);
    assert_eq!(env.current_scope(), 3);
    assert!(env.leave_to(2));
    assert_eq!(env.get("x".to_string()), Some(&Object::Int(0)));
}

#[test]
fn environments_clone_and_compare() {
    let mut env = Env::new();
    env.insert("a".to_string(), Object::Int(1));
    assert!(env.enter(0));
    env.insert("f".to_string(), Object::Func(Func { args: vec![], body: vec![], env: 1 }));
    let copy = env.clone();
    assert_eq!(copy, env);
    assert_eq!(copy.current_scope(), 1);
    assert_eq!(copy.get("a".to_string()), Some(&Object::Int(1)));
    env.insert("a".to_string(), Object::Int(2));
    assert_ne!(copy, env);
    assert_eq!(copy.get("a".to_string()), Some(&Object::Int(1)));
    assert_eq!(env.get("a".to_string()), Some(&Object::Int(2)));
}

#[test]
fn objects_clone_deeply() {
    let func = Func { args: vec![], body: vec![], env: 2 };
    let value = Object::Return(Box::new(Object::Func(func)));
    assert_eq!(value.clone(), value);
}

#[test]
fn decimal_numerals() {
    assert_eq!(int_text(0), "0");
    assert_eq!(int_text(7), "7");
    assert_eq!(int_text(10), "10");
    assert_eq!(int_text(-10), "-10");
    assert_eq!(int_text(1234567890), "1234567890");
    assert_eq!(int_text(i64::MAX), "9223372036854775807");
    assert_eq!(int_text(i64::MIN), "-9223372036854775808");
    let mut out = "n=".to_string();
    push_int(&mut out, -5);
    assert_eq!(out, "n=-5");
    assert_eq!(bool_text(true), "true");
    assert_eq!(bool_text(false), "false");
}

#[test]
fn joined_lists() {
    let mut out = "[".to_string();
    push_joined(&mut out, &vec![], ", ");
    assert_eq!(out, "[");
    push_joined(&mut out, &vec!["a".to_string()], ", ");
    assert_eq!(out, "[a");
    push_joined(&mut out, &vec!["b".to_string(), "".to_string(), "c".to_string()], "; ");
    assert_eq!(out, "[ab; ; c");
}

#[test]
fn parse_errors_one_per_line() {
    let mut out = String::new();
    print_parse_errors(&mut out, &vec![]);
    assert_eq!(out, "");
    print_parse_errors(&mut out, &vec!["first".to_string(), "second".to_string()]);
    assert_eq!(out, "\tfirst\n\tsecond\n");
}

#[test]
fn a_turn_shows_the_value() {
    let mut env = Env::new();
    assert_eq!(respond("1 + 2".to_string(), &mut env), "3\n");
    assert_eq!(respond("true == false".to_string(), &mut env), "false\n");
    assert_eq!(respond("".to_string(), &mut env), "null\n");
    assert_eq!(respond("if (false) { 1 }".to_string(), &mut env), "null\n");
    assert_eq!(
        respond("fn(x) { x + 2; }".to_string(), &mut env),
        "fn (x) { (x + 2) }\n"
    );
}

#[test]
fn a_turn_keeps_the_bindings_of_earlier_turns() {
    let mut env = Env::new();
    assert_eq!(respond("let a = 5;".to_string(), &mut env), "null\n");
    assert_eq!(respond("let add = fn(x, y) { x + y };".to_string(), &mut env), "null\n");
    assert_eq!(respond("add(a, 10)".to_string(), &mut env), "15\n");
    assert_eq!(respond("b".to_string(), &mut env), "ERROR: identifier not found: b\n");
    assert_eq!(respond("add(a, 10)".to_string(), &mut env), "15\n");
}

#[test]
fn a_turn_with_malformed_text_shows_the_messages_and_evaluates_nothing() {
    let mut env = Env::new();
    assert_eq!(
        respond("let a = 5; let b 6;".to_string(), &mut env),
        "\texpected next token to be ASSIGN, got INT(6) instead\n"
    );
    assert_eq!(respond("a".to_string(), &mut env), "ERROR: identifier not found: a\n");
    assert_eq!(
        respond("let = ;".to_string(), &mut env),
        "\texpected next token to be IDENT, got ASSIGN instead\n\tunknown token in expression. got ASSIGN\n\tunknown token in expression. got SEMICOLON\n"
    );
}

#[test]
fn a_turn_refuses_text_outside_ascii() {
    let mut env = Env::new();
    assert_eq!(
        respond("let a = \"é\";".to_string(), &mut env),
        "[ERROR] please input only ASCII string\n"
    );
    assert_eq!(respond("5 / 0".to_string(), &mut env), "ERROR: division by zero\n");
}
