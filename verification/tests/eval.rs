use dhakal_lang::ast::{Expression, ExpressionStatement, ForStatement, Identifier, InfixExpression, Statement, ValStatement};
use dhakal_lang::eval::{Environment, Eval};
use dhakal_lang::lexer::Lexer;
use dhakal_lang::object::Object;
use dhakal_lang::parser::Parser;

fn run(evaluator: &mut Eval, input: &str) -> Vec<Object> {
    let mut parser = Parser::new(Lexer::new(input.to_string()));
    let program = parser.parse_program();
    evaluator.run_program(program)
}

fn results(input: &str) -> Vec<Object> {
    let mut evaluator = Eval::new();
    run(&mut evaluator, input)
}

fn last(input: &str) -> Object {
    results(input).pop().unwrap()
}

fn is_int(o: &Object, n: i64) -> bool {
    matches!(o, Object::Integer(v) if *v == n)
}

fn is_bool(o: &Object, b: bool) -> bool {
    matches!(o, Object::Boolean(v) if *v == b)
}

fn is_null(o: &Object) -> bool {
    matches!(o, Object::Null)
}

#[test]
fn arithmetic() {
    assert!(is_int(&last("1 + 2 * 3"), 7));
    assert!(is_int(&last("(1 + 2) * 3"), 9));
    assert!(is_int(&last("10 - 20"), -10));
    assert!(is_int(&last("-7 / 2"), -3));
    assert!(is_int(&last("7 / -2"), -3));
    assert!(is_int(&last("-7 / -2"), 3));
    assert!(is_int(&last("--5"), 5));
}

#[test]
fn comparisons() {
    assert!(is_bool(&last("1 < 2"), true));
    assert!(is_bool(&last("1 > 2"), false));
    assert!(is_bool(&last("2 <= 2"), true));
    assert!(is_bool(&last("3 >= 4"), false));
    assert!(is_bool(&last("3 == 3"), true));
    assert!(is_bool(&last("3 != 3"), false));
}

#[test]
fn prefix_operators() {
    assert!(is_bool(&last("!true"), false));
    assert!(is_bool(&last("!!false"), false));
    assert!(is_null(&last("!5")));
    assert!(is_null(&last("-true")));
}

#[test]
fn only_integers_have_arithmetic() {
    assert!(is_null(&last("true + 1")));
    assert!(is_null(&last("\"a\" + 1")));
    assert!(is_null(&last("true == true")));
}

#[test]
fn infix_on_integers() {
    let evaluator = Eval::new();
    assert!(is_int(&evaluator.eval_infix_integer(6, "*", 7), 42));
    assert!(is_int(&evaluator.eval_infix_integer(-9, "/", 4), -2));
    assert!(is_int(&evaluator.eval_infix_integer(i64::MIN, "/", 1), i64::MIN));
    assert!(is_bool(&evaluator.eval_infix_integer(1, "!=", 2), true));
    assert!(is_null(&evaluator.eval_infix_integer(1, "%", 2)));
}

#[test]
fn variables_read_back_their_values() {
    let r = results("val x = 5; val y = x * 2; y");
    assert_eq!(r.len(), 3);
    assert!(is_null(&r[0]));
    assert!(is_null(&r[1]));
    assert!(is_int(&r[2], 10));
    assert!(is_null(&last("unknown")));
}

#[test]
fn functions_can_be_called() {
    let r = results("func add(a, b) { return a + b; } add(2, 3)");
    assert!(matches!(&r[0], Object::Function { name, parameters, body }
        if name == "add" && parameters.len() == 2 && body.len() == 1));
    assert!(is_int(&r[1], 5));
}

#[test]
fn a_body_without_return_yields_its_last_value() {
    assert!(is_int(&last("func f() { 1; 2 } f()"), 2));
    assert!(is_null(&last("func g() { } g()")));
}

#[test]
fn calls_need_matching_arity_and_a_known_name() {
    assert!(is_null(&last("func f(a) { a } f(1, 2)")));
    assert!(is_null(&last("nope(1)")));
}

#[test]
fn the_fibonacci_example() {
    let source = "val n = 10\nfunc fib(n) {\n if (n == 0) { return 0; }\n if (n == 1) { return 1; }\n return fib(n - 1) + fib(n - 2);\n}\nval value = fib(n);\nprint(value)";
    let mut evaluator = Eval::new();
    let r = run(&mut evaluator, source);
    assert_eq!(r.len(), 4);
    assert!(is_null(&r[3]));
    assert!(is_int(&last_of(&mut evaluator, "fib(10)"), 55));
}

fn last_of(evaluator: &mut Eval, input: &str) -> Object {
    run(evaluator, input).pop().unwrap()
}

#[test]
fn functions_outlive_programs_but_variables_do_not() {
    let mut evaluator = Eval::new();
    run(&mut evaluator, "func twice(x) { return x * 2; } val k = 4");
    assert!(is_int(&last_of(&mut evaluator, "twice(21)"), 42));
    assert!(is_null(&last_of(&mut evaluator, "k")));
}

#[test]
fn if_statements_pick_a_branch() {
    assert!(is_int(&last("if (1 < 2) { 10 } else { 20 }"), 10));
    assert!(is_int(&last("if (1 > 2) { 10 } else { 20 }"), 20));
    assert!(is_null(&last("if (1 > 2) { 10 }")));
    assert!(is_null(&last("if (1) { 10 }")));
}

#[test]
fn return_ends_a_block() {
    assert!(is_int(&last("func f() { return 1; 2 } f()"), 1));
    assert!(matches!(&last("return 3"), Object::Return(inner) if is_int(inner, 3)));
}

#[test]
fn calls_do_not_change_the_caller_environment() {
    let mut evaluator = Eval::new();
    let mut environment = Environment::new();
    let program = Parser::new(Lexer::new("val x = 1; func f(x) { val y = 5; return x; } f(9)".to_string())).parse_program();
    for statement in &program.statements {
        evaluator.eval_statement(statement, &mut environment);
    }
    let x = Expression::Identifier(Identifier { value: "x".to_string() });
    let y = Expression::Identifier(Identifier { value: "y".to_string() });
    assert!(is_int(&evaluator.eval_expression(&x, &mut environment), 1));
    assert!(is_null(&evaluator.eval_expression(&y, &mut environment)));
}

#[test]
fn if_blocks_share_the_environment() {
    assert!(is_int(&last("val a = 1; if (true) { val a = 2; } a"), 2));
}

fn val(name: &str, value: Expression) -> Statement {
    Statement::Val(ValStatement { name: Identifier { value: name.to_string() }, value })
}

fn var(name: &str) -> Expression {
    Expression::Identifier(Identifier { value: name.to_string() })
}

fn infix(left: Expression, op: &str, right: Expression) -> Expression {
    Expression::Infix(InfixExpression { left: Box::new(left), operator: op.to_string(), right: Box::new(right) })
}

#[test]
fn for_loops_run_while_the_condition_holds() {
    let mut evaluator = Eval::new();
    let mut environment = Environment::new();
    evaluator.eval_statement(&val("sum", Expression::Integer(0)), &mut environment);
    let for_loop = Statement::For(ForStatement {
        initialization: Box::new(val("i", Expression::Integer(0))),
        condition: infix(var("i"), "<", Expression::Integer(5)),
        update: Box::new(val("i", infix(var("i"), "+", Expression::Integer(1)))),
        body: vec![val("sum", infix(var("sum"), "+", var("i")))],
    });
    assert!(is_null(&evaluator.eval_statement(&for_loop, &mut environment)));
    assert!(is_int(&evaluator.eval_expression(&var("sum"), &mut environment), 10));
    assert!(is_int(&evaluator.eval_expression(&var("i"), &mut environment), 5));
}

#[test]
fn for_loops_stop_at_return() {
    let mut evaluator = Eval::new();
    let mut environment = Environment::new();
    let for_loop = Statement::For(ForStatement {
        initialization: Box::new(val("i", Expression::Integer(0))),
        condition: Expression::Boolean(true),
        update: Box::new(val("i", infix(var("i"), "+", Expression::Integer(1)))),
        body: vec![Statement::Expression(ExpressionStatement {
            expression: Expression::Integer(7),
            has_semicolon: false,
        }), Statement::Return(dhakal_lang::ast::ReturnStatement { return_value: var("i") })],
    });
    assert!(matches!(evaluator.eval_statement(&for_loop, &mut environment), Object::Return(inner) if is_int(&inner, 0)));
}

#[test]
fn for_loops_run_from_source() {
    let mut evaluator = Eval::new();
    let r = run(&mut evaluator, "val sum = 0\nfor (val i = 0; i < 10; val i = i + 1) {\n val sum = sum + i;\n}\nsum");
    assert_eq!(r.len(), 3);
    assert!(is_null(&r[1]));
    assert!(is_int(&r[2], 45));
}

#[test]
fn print_writes_its_arguments() {
    let mut evaluator = Eval::new();
    let r = run(&mut evaluator, "for (val i = 0; i < 3; val i = i + 1) { print(\"Hello: \", i); }");
    assert!(is_null(&r[0]));
    assert_eq!(evaluator.take_output(), vec!["Hello: 0".to_string(), "Hello: 1".to_string(), "Hello: 2".to_string()]);
    assert!(evaluator.take_output().is_empty());
}

#[test]
fn print_shows_each_kind_of_value() {
    let mut evaluator = Eval::new();
    run(&mut evaluator, "func f() { 1 } print(-42, true, false, [1, [2, 3]], f, func g() { 2 }, [], 18446744073709551615)");
    assert_eq!(evaluator.take_output(), vec!["-42truefalse[1, [2, 3]]nullfunc g[]-1".to_string()]);
}

#[test]
fn the_fibonacci_example_prints_its_value() {
    let mut evaluator = Eval::new();
    let source = "val n = 10\nfunc fib(n) {\n if (n == 0) { return 0; }\n if (n == 1) { return 1; }\n return fib(n - 1) + fib(n - 2);\n}\nval value = fib(n);\nprint(value)";
    run(&mut evaluator, source);
    assert_eq!(evaluator.take_output(), vec!["55".to_string()]);
}

#[test]
fn a_user_function_named_print_takes_precedence() {
    let mut evaluator = Eval::new();
    let r = run(&mut evaluator, "func print(x) { x * 2 } print(4)");
    assert!(is_int(&r[1], 8));
    assert!(evaluator.take_output().is_empty());
}

#[test]
fn arrays_and_strings_have_values() {
    let r = results("[1, 2 + 3]; \"text\"");
    assert!(matches!(&r[0], Object::Array(items) if items.len() == 2 && is_int(&items[0], 1) && is_int(&items[1], 5)));
    assert!(matches!(&r[1], Object::String(t) if t == "text"));
}

#[test]
fn bounded_evaluation_reports_what_cannot_finish() {
    let mut parser = Parser::new(Lexer::new("val x = 9223372036854775807; x + 1; 7 / 0; -(0 - 9223372036854775807 - 1); 2 * 21".to_string()));
    let program = parser.parse_program();
    let mut evaluator = Eval::new();
    let mut environment = Environment::new();
    let results: Vec<Option<Object>> = program
        .statements
        .iter()
        .map(|s| evaluator.eval_statement_within(s, &mut environment, 100))
        .collect();
    assert!(matches!(results[0], Some(Object::Null)));
    assert!(results[1].is_none());
    assert!(results[2].is_none());
    assert!(results[3].is_none());
    assert!(matches!(&results[4], Some(o) if is_int(o, 42)));
}

#[test]
fn bounded_evaluation_needs_enough_fuel() {
    let source = "func f(n) { if (n == 0) { return 0; } return f(n - 1); } f(50)";
    let mut parser = Parser::new(Lexer::new(source.to_string()));
    let program = parser.parse_program();
    let mut evaluator = Eval::new();
    assert!(evaluator.run_program_within(program, 20).is_none());
    let mut parser = Parser::new(Lexer::new(source.to_string()));
    let program = parser.parse_program();
    let mut evaluator = Eval::new();
    let r = evaluator.run_program_within(program, 1000).unwrap();
    assert!(is_int(&r[1], 0));
    let mut evaluator = Eval::new();
    let r = run(&mut evaluator, "print(1, \"a\")");
    assert!(is_null(&r[0]));
}

#[test]
fn checked_infix_matches_the_plain_one_where_it_succeeds() {
    let evaluator = Eval::new();
    assert!(matches!(evaluator.checked_infix_integer(i64::MAX, "+", 1), None));
    assert!(matches!(evaluator.checked_infix_integer(i64::MIN, "/", -1), None));
    assert!(matches!(evaluator.checked_infix_integer(i64::MIN, "*", -1), None));
    assert!(matches!(evaluator.checked_infix_integer(-9, "/", 4), Some(o) if is_int(&o, -2)));
    assert!(matches!(evaluator.checked_infix_integer(3, "<", 4), Some(o) if is_bool(&o, true)));
    assert!(matches!(evaluator.checked_infix_integer(3, "%", 4), Some(Object::Null)));
}
