use monky::ast::{Expr, Ident, Infix, Literal, Prefix, Program, Stmt};
use monky::grammar::{LOWEST, PRODUCT, SUM};
use monky::lexer::Lexer;
use monky::parser::Parser;
use monky::shape::{
    check_expr, check_infix_expr, check_infix_stmt, check_let_stmt, check_stmt, same_infix,
    Literable,
};
use monky::token::Token;

fn parse(input: &str) -> (Program, Vec<String>) {
    let mut l = Lexer::new(input.to_string()).unwrap();
    let mut p = Parser::new(&mut l);
    let program = p.parse_program();
    (program, p.errors)
}

fn parse_clean(input: &str) -> Program {
    let (program, errors) = parse(input);
    assert_eq!(errors, Vec::<String>::new(), "input: {}", input);
    program
}

fn ident(name: &str) -> Expr {
    Expr::Ident(Ident(name.to_string()))
}

fn number(value: i64) -> Expr {
    Expr::Literal(Literal::Int(value))
}

fn infix(left: Expr, op: Infix, right: Expr) -> Expr {
    Expr::Infix(Box::new(left), op, Box::new(right))
}

#[test]
fn precedence_from_lowest_to_highest() {
    let cases = vec![
        ("a == b < c", "(a == (b < c))"),
        ("a < b == c", "((a < b) == c)"),
        ("a < b + c", "(a < (b + c))"),
        ("a + b < c", "((a + b) < c)"),
        ("a + b * c", "(a + (b * c))"),
        ("a * b + c", "((a * b) + c)"),
        ("a * -b", "(a * (-b))"),
        ("-a * b", "((-a) * b)"),
        ("-f(x)", "(-f(x))"),
        ("!f(x) == y", "((!f(x)) == y)"),
        ("a - b - c", "((a - b) - c)"),
        ("a / b / c", "((a / b) / c)"),
        ("a == b != c", "((a == b) != c)"),
        ("a > b < c", "((a > b) < c)"),
        ("f(x)(y)", "f(x)(y)"),
        ("(a + b)(c)", "(a + b)(c)"),
        ("+a + +b", "((+a) + (+b))"),
    ];
    for (input, expect) in cases {
        assert_eq!(parse_clean(input).to_text(), expect, "input: {}", input);
    }
}

#[test]
fn trees_of_two_operators() {
    let ops = vec![
        ("+", Infix::Plus, 3),
        ("-", Infix::Minus, 3),
        ("*", Infix::Multiply, 4),
        ("/", Infix::Divide, 4),
        ("==", Infix::Equal, 1),
        ("!=", Infix::NotEqual, 1),
        ("<", Infix::LessThan, 2),
        (">", Infix::GreaterThan, 2),
    ];
    for (text1, op1, power1) in &ops {
        for (text2, op2, power2) in &ops {
            let input = format!("a {} b {} c", text1, text2);
            let expect = if power1 >= power2 {
                infix(infix(ident("a"), *op1, ident("b")), *op2, ident("c"))
            } else {
                infix(ident("a"), *op1, infix(ident("b"), *op2, ident("c")))
            };
            let program = parse_clean(&input);
            assert_eq!(program.statements, vec![Stmt::Expr(expect)], "input: {}", input);
        }
    }
}

#[test]
fn statements_with_and_without_semicolons() {
    let program = parse_clean("let a = 1 return a; a + 1\nlet b = a");
    assert_eq!(
        program.statements,
        vec![
            Stmt::Let(Ident("a".to_string()), number(1)),
            Stmt::Return(ident("a")),
            Stmt::Expr(infix(ident("a"), Infix::Plus, number(1))),
            Stmt::Let(Ident("b".to_string()), ident("a")),
        ]
    );
    assert_eq!(parse_clean("").statements, vec![]);
    assert_eq!(parse_clean("   \n ").statements, vec![]);
}

#[test]
fn let_and_return_take_whole_expressions() {
    assert_eq!(parse_clean("let x = 1 + 2 * 3;").to_text(), "let x = (1 + (2 * 3))");
    assert_eq!(parse_clean("return f(1, 2) - 3").to_text(), "return (f(1, 2) - 3)");
    assert_eq!(
        parse_clean("let add = fn(a, b) { a + b };").to_text(),
        "let add = fn (a, b) {\n (a + b) }"
    );
}

#[test]
fn conditionals_and_functions_as_text() {
    assert_eq!(parse_clean("if (x < y) { x }").to_text(), "if (x < y) x");
    assert_eq!(
        parse_clean("if (x < y) { x } else { y; z }").to_text(),
        "if (x < y) x else yz"
    );
    assert_eq!(parse_clean("fn() {}").to_text(), "fn () {\n  }");
    assert_eq!(
        parse_clean("fn(x) { let y = x; return y; }").to_text(),
        "fn (x) {\n let y = x\nreturn y }"
    );
    assert_eq!(parse_clean("fn(x) { x }(5)").to_text(), "fn (x) {\n x }(5)");
}

#[test]
fn nested_blocks() {
    let program = parse_clean("if (a) { if (b) { 1 } else { 2 } } else { fn() { 3 } }");
    assert_eq!(
        program.statements,
        vec![Stmt::Expr(Expr::If(
            Box::new(ident("a")),
            Box::new(Stmt::Block(vec![Stmt::Expr(Expr::If(
                Box::new(ident("b")),
                Box::new(Stmt::Block(vec![Stmt::Expr(number(1))])),
                Some(Box::new(Stmt::Block(vec![Stmt::Expr(number(2))]))),
            ))])),
            Some(Box::new(Stmt::Block(vec![Stmt::Expr(Expr::Function(
                vec![],
                vec![Stmt::Expr(number(3))],
            ))]))),
        ))]
    );
}

#[test]
fn a_block_may_end_with_the_input() {
    let (program, errors) = parse("if (a) { 1");
    assert_eq!(errors, Vec::<String>::new());
    assert_eq!(
        program.statements,
        vec![Stmt::Expr(Expr::If(
            Box::new(ident("a")),
            Box::new(Stmt::Block(vec![Stmt::Expr(number(1))])),
            None,
        ))]
    );
}

#[test]
fn missing_tokens_are_reported_and_the_rest_is_parsed() {
    let (program, errors) = parse("let x 5; let y = 6;");
    assert_eq!(
        errors,
        vec!["expected next token to be ASSIGN, got INT(5) instead".to_string()]
    );
    assert_eq!(
        program.statements,
        vec![Stmt::Expr(number(5)), Stmt::Let(Ident("y".to_string()), number(6))]
    );

    let (program, errors) = parse("let = 5;");
    assert_eq!(
        errors,
        vec![
            "expected next token to be IDENT, got ASSIGN instead".to_string(),
            "unknown token in expression. got ASSIGN".to_string(),
        ]
    );
    assert_eq!(program.statements, vec![Stmt::Expr(number(5))]);

    let (program, errors) = parse("(1 + 2");
    assert_eq!(
        errors,
        vec!["expected next token to be RPAREN, got EOF instead".to_string()]
    );
    assert_eq!(program.statements, vec![]);

    let (_, errors) = parse("add(1, 2");
    assert_eq!(
        errors,
        vec!["expected next token to be RPAREN, got EOF instead".to_string()]
    );

    let (_, errors) = parse("add(1 2)");
    assert_eq!(
        errors[0],
        "expected next token to be RPAREN, got INT(2) instead".to_string()
    );
}

#[test]
fn malformed_conditionals_and_functions() {
    let (_, errors) = parse("if x { 1 }");
    assert_eq!(
        errors[0],
        "expected next token to be LPAREN, got IDENT(\"x\") instead".to_string()
    );
    let (_, errors) = parse("if (x) 1");
    assert_eq!(
        errors[0],
        "expected next token to be LBRACE, got INT(1) instead".to_string()
    );
    let (_, errors) = parse("if (x { 1 }");
    assert_eq!(
        errors[0],
        "expected next token to be RPAREN, got LBRACE instead".to_string()
    );
    let (_, errors) = parse("if (x) { 1 } else 2");
    assert_eq!(
        errors[0],
        "expected next token to be LBRACE, got INT(2) instead".to_string()
    );
    let (_, errors) = parse("fn x { 1 }");
    assert_eq!(
        errors[0],
        "expected next token to be LPAREN, got IDENT(\"x\") instead".to_string()
    );
    let (_, errors) = parse("fn(1) { 1 }");
    assert_eq!(
        errors[0],
        "expected next token to be IDENT, got INT(1) instead".to_string()
    );
    let (_, errors) = parse("fn(a b) { 1 }");
    assert_eq!(
        errors[0],
        "expected next token to be RPAREN, got IDENT(\"b\") instead".to_string()
    );
    let (_, errors) = parse("fn(a,) { 1 }");
    assert_eq!(
        errors[0],
        "expected next token to be IDENT, got RPAREN instead".to_string()
    );
    let (_, errors) = parse("fn(a) 1");
    assert_eq!(
        errors[0],
        "expected next token to be LBRACE, got INT(1) instead".to_string()
    );
}

#[test]
fn tokens_that_start_no_expression() {
    let (program, errors) = parse(")");
    assert_eq!(errors, vec!["unknown token in expression. got RPAREN".to_string()]);
    assert_eq!(program.statements, vec![]);
    let (_, errors) = parse("1 +");
    assert_eq!(errors, vec!["unknown token in expression. got EOF".to_string()]);
    let (_, errors) = parse(";");
    assert_eq!(errors, vec!["unknown token in expression. got SEMICOLON".to_string()]);
    let (_, errors) = parse("let x = ;");
    assert_eq!(errors, vec!["unknown token in expression. got SEMICOLON".to_string()]);
    let (_, errors) = parse("return }");
    assert_eq!(errors, vec!["unknown token in expression. got RBRACE".to_string()]);
    let (_, errors) = parse("* 2");
    assert_eq!(errors[0], "unknown token in expression. got ASTERISK".to_string());
}

#[test]
fn a_number_too_large_is_reported() {
    let (program, errors) = parse("let x = 9223372036854775808 7");
    assert_eq!(errors, vec!["unknown token in expression. got ILLEGAL".to_string()]);
    assert_eq!(program.statements, vec![Stmt::Expr(number(7))]);
    let (_, errors) = parse("9223372036854775808;");
    assert_eq!(
        errors,
        vec![
            "unknown token in expression. got ILLEGAL".to_string(),
            "unknown token in expression. got SEMICOLON".to_string(),
        ]
    );
    let clean = parse_clean("9223372036854775807");
    assert_eq!(clean.statements, vec![Stmt::Expr(number(9223372036854775807))]);
}

#[test]
fn several_errors_in_one_input() {
    let (program, errors) = parse("let 1; (2; let z = 3; )");
    assert_eq!(
        errors,
        vec![
            "expected next token to be IDENT, got INT(1) instead".to_string(),
            "expected next token to be RPAREN, got SEMICOLON instead".to_string(),
            "unknown token in expression. got SEMICOLON".to_string(),
            "unknown token in expression. got RPAREN".to_string(),
        ]
    );
    assert_eq!(
        program.statements,
        vec![Stmt::Expr(number(1)), Stmt::Let(Ident("z".to_string()), number(3))]
    );
}

#[test]
fn text_of_plain_expressions_parses_back_to_the_same_tree() {
    let cases = vec![
        "a",
        "5",
        "true",
        "(-a)",
        "(!true)",
        "(+x)",
        "(a + b)",
        "((a * b) - (c / d))",
        "(a == (b != c))",
        "f()",
        "f(a)",
        "f(a, (b + c), g(1, 2))",
        "(a + b)(c)",
        "f(x)(y)(z)",
        "((-f(a)) < (!g((b > c))))",
        "let x = (a + 1)",
        "return f(x, y)",
        "fn () {\n  }",
        "fn (x) {\n (x + 2) }",
        "fn (x) {\n x }(5)",
        "let add = fn (a, b) {\n let c = (a + b)\nreturn c }",
        "f(fn (x, y, z) {\n let g = fn () {\n x }\ng()\ny\nreturn (z * 2) })",
    ];
    for input in cases {
        let first = parse_clean(input);
        assert_eq!(first.to_text(), input);
        let second = parse_clean(&first.to_text());
        assert_eq!(second, first);
        assert_eq!(second.to_text(), input);
    }
}

#[test]
fn text_of_several_statements_parses_back_to_the_same_tree() {
    let cases = vec![
        "let x = 5let y = (x + 1)f(y)",
        "f(1)g(2)",
        "return (a + b)x",
        "x5",
        "let f = fn (n) {\n n }f(3)return f",
        "(a + b)c",
    ];
    for input in cases {
        let first = parse_clean(input);
        assert!(first.statements.len() >= 2, "input: {}", input);
        assert_eq!(first.to_text(), input);
        let second = parse_clean(&first.to_text());
        assert_eq!(second, first);
    }
}

#[test]
fn text_that_does_not_parse_back_to_the_same_tree() {
    // Statements are written one after another with nothing between them.
    let two = parse_clean("3 + 4; -5 * 5");
    assert_eq!(two.statements.len(), 2);
    assert_eq!(two.to_text(), "(3 + 4)((-5) * 5)");
    let again = parse_clean(&two.to_text());
    assert_eq!(again.statements.len(), 1);
    assert_eq!(again.to_text(), "(3 + 4)(((-5) * 5))");
    // A conditional is written without its parentheses and braces.
    let cond = parse_clean("if (x) { y }");
    assert_eq!(cond.to_text(), "if x y");
    let (_, errors) = parse(&cond.to_text());
    assert_eq!(
        errors[0],
        "expected next token to be LPAREN, got IDENT(\"x\") instead".to_string()
    );
    // A negative literal is written like a negation.
    let negative = Program { statements: vec![Stmt::Expr(number(-5))] };
    assert_eq!(negative.to_text(), "-5");
    assert_eq!(parse_clean("-5").to_text(), "(-5)");
}

#[test]
fn parser_parts_on_their_own() {
    let mut l = Lexer::new("a + b * c".to_string()).unwrap();
    let mut p = Parser::new(&mut l);
    assert_eq!(p.errors().len(), 0);
    assert_eq!(p.parse_expression(LOWEST).unwrap().to_text(), "(a + (b * c))");

    // With a floor as high as `+` binds, the `+` is left for the caller.
    let mut l = Lexer::new("a + b * c".to_string()).unwrap();
    let mut p = Parser::new(&mut l);
    assert_eq!(p.parse_expression(SUM).unwrap().to_text(), "a");

    let mut l = Lexer::new("a * b + c".to_string()).unwrap();
    let mut p = Parser::new(&mut l);
    assert_eq!(p.parse_expression(SUM).unwrap().to_text(), "(a * b)");
    let mut l = Lexer::new("a * b + c".to_string()).unwrap();
    let mut p = Parser::new(&mut l);
    assert_eq!(p.parse_expression(PRODUCT).unwrap().to_text(), "a");

    let mut l = Lexer::new("let x = 1; return x; x )".to_string()).unwrap();
    let mut p = Parser::new(&mut l);
    assert_eq!(
        p.parse_statement(),
        Some(Stmt::Let(Ident("x".to_string()), number(1)))
    );
    // The parser stands on the semicolon; the caller moves on.
    assert_eq!(p.parse_statement(), None);
    assert_eq!(
        p.errors(),
        &vec!["unknown token in expression. got SEMICOLON".to_string()]
    );
    assert_eq!(p.errors, vec!["unknown token in expression. got SEMICOLON".to_string()]);
    assert_eq!(
        p.into_errors(),
        vec!["unknown token in expression. got SEMICOLON".to_string()]
    );
}

#[test]
fn operators_from_tokens() {
    assert_eq!(Prefix::from_token(&Token::PLUS), Ok(Prefix::Plus));
    assert_eq!(Prefix::from_token(&Token::MINUS), Ok(Prefix::Minus));
    assert_eq!(Prefix::from_token(&Token::BANG), Ok(Prefix::Not));
    assert_eq!(
        Prefix::from_token(&Token::ASTERISK),
        Err("this is not prefix token. got ASTERISK".to_string())
    );
    assert_eq!(
        Prefix::from_token(&Token::IDENT("a".to_string())),
        Err("this is not prefix token. got IDENT(\"a\")".to_string())
    );
    assert_eq!(Infix::from_token(&Token::PLUS), Ok(Infix::Plus));
    assert_eq!(Infix::from_token(&Token::MINUS), Ok(Infix::Minus));
    assert_eq!(Infix::from_token(&Token::SLASH), Ok(Infix::Divide));
    assert_eq!(Infix::from_token(&Token::ASTERISK), Ok(Infix::Multiply));
    assert_eq!(Infix::from_token(&Token::EQ), Ok(Infix::Equal));
    assert_eq!(Infix::from_token(&Token::NOTEQ), Ok(Infix::NotEqual));
    assert_eq!(Infix::from_token(&Token::GT), Ok(Infix::GreaterThan));
    assert_eq!(Infix::from_token(&Token::LT), Ok(Infix::LessThan));
    assert_eq!(
        Infix::from_token(&Token::BANG),
        Err("this is not prefix token. got BANG".to_string())
    );
    assert_eq!(
        Infix::from_token(&Token::INT(3)),
        Err("this is not prefix token. got INT(3)".to_string())
    );
    assert_eq!(Prefix::Not.to_text(), "!");
    assert_eq!(Infix::NotEqual.to_text(), "!=");
    assert_eq!(Infix::GreaterThan.to_text(), ">");
    assert_eq!(Infix::LessThan.to_text(), "<");
}

#[test]
fn trees_as_text_without_a_parser() {
    assert_eq!(Program::new().to_text(), "");
    assert_eq!(Program::new().statements.len(), 0);
    assert_eq!(Literal::Int(-3).to_text(), "-3");
    assert_eq!(Literal::Bool(true).to_text(), "true");
    assert_eq!(Ident("name".to_string()).to_text(), "name");
    let call = Expr::Call(Box::new(ident("f")), vec![number(-1), ident("b")]);
    assert_eq!(call.to_text(), "f(-1, b)");
    let stmt = Stmt::Block(vec![Stmt::Expr(number(1)), Stmt::Return(number(2))]);
    assert_eq!(stmt.to_text(), "1return 2");
    let program = Program { statements: vec![Stmt::Expr(number(1)), Stmt::Expr(number(2))] };
    assert_eq!(program.to_text(), "12");
    assert_eq!(program.clone(), program);
    assert_eq!(call.clone(), call);
    assert_eq!(stmt.clone(), stmt);
}

#[test]
fn shape_of_literals_and_names() {
    assert!(check_expr(&number(5), 5));
    assert!(!check_expr(&number(5), 6));
    assert!(!check_expr(&number(5), true));
    assert!(!check_expr(&number(5), "5"));
    assert!(check_expr(&ident("x"), "x"));
    assert!(!check_expr(&ident("x"), "y"));
    assert!(check_expr(&Expr::Literal(Literal::Bool(false)), false));
    assert!(!check_expr(&Expr::Literal(Literal::Bool(false)), true));
    assert!(5.check_expr(&number(5)));
    assert!(check_stmt(&Stmt::Expr(number(5)), 5));
    assert!(!check_stmt(&Stmt::Return(number(5)), 5));
    assert!(true.check_stmt(&Stmt::Expr(Expr::Literal(Literal::Bool(true)))));
    assert!(!"x".check_stmt(&Stmt::Let(Ident("x".to_string()), ident("x"))));
}

#[test]
fn shape_of_operators_and_lets() {
    let sum = infix(number(1), Infix::Plus, number(2));
    assert!(check_infix_expr(&sum, 1, Infix::Plus, 2));
    assert!(!check_infix_expr(&sum, 1, Infix::Minus, 2));
    assert!(!check_infix_expr(&sum, 2, Infix::Plus, 2));
    assert!(!check_infix_expr(&sum, 1, Infix::Plus, 1));
    assert!(!check_infix_expr(&number(1), 1, Infix::Plus, 1));
    assert!(check_infix_stmt(&Stmt::Expr(infix(ident("a"), Infix::Equal, ident("b"))), "a", Infix::Equal, "b"));
    assert!(!check_infix_stmt(&Stmt::Return(infix(ident("a"), Infix::Equal, ident("b"))), "a", Infix::Equal, "b"));
    assert!(check_let_stmt(&Stmt::Let(Ident("x".to_string()), number(1)), "x"));
    assert!(!check_let_stmt(&Stmt::Let(Ident("x".to_string()), number(1)), "y"));
    assert!(!check_let_stmt(&Stmt::Expr(ident("x")), "x"));
    assert!(same_infix(Infix::Divide, Infix::Divide));
    assert!(!same_infix(Infix::Divide, Infix::Multiply));
}
