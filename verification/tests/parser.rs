use dhakal_lang::ast::{
    CallExpression, Expression, ExpressionStatement, ForStatement, FunctionExpression, Identifier, IfStatement,
    InfixExpression, PrefixExpression, ReturnStatement, Statement, ValStatement,
};
use dhakal_lang::lexer::Lexer;
use dhakal_lang::parser::{get_precedence, parse_source, Parser, Precedence};
use dhakal_lang::token::{Token, TokenType};

fn parser(input: &str) -> Parser {
    Parser::new(Lexer::new(input.to_string()))
}

fn program(input: &str) -> (Vec<Statement>, Vec<String>) {
    let mut p = parser(input);
    let program = p.parse_program();
    (program.statements, p.errors.clone())
}

fn ident(name: &str) -> Identifier {
    Identifier { value: name.to_string() }
}

fn var(name: &str) -> Expression {
    Expression::Identifier(ident(name))
}

fn num(n: u64) -> Expression {
    Expression::Integer(n)
}

fn infix(left: Expression, op: &str, right: Expression) -> Expression {
    Expression::Infix(InfixExpression { left: Box::new(left), operator: op.to_string(), right: Box::new(right) })
}

fn prefix(op: &str, right: Expression) -> Expression {
    Expression::Prefix(PrefixExpression { operator: op.to_string(), right: Box::new(right) })
}

fn call(name: &str, arguments: Vec<Expression>) -> Expression {
    Expression::Call(CallExpression { name: ident(name), arguments })
}

fn expr_stmt(expression: Expression, has_semicolon: bool) -> Statement {
    Statement::Expression(ExpressionStatement { expression, has_semicolon })
}

fn ret(value: Expression) -> Statement {
    Statement::Return(ReturnStatement { return_value: value })
}

#[test]
fn products_bind_tighter_than_sums() {
    let (statements, errors) = program("1 + 2 * 3");
    assert!(errors.is_empty());
    assert_eq!(statements, vec![expr_stmt(infix(num(1), "+", infix(num(2), "*", num(3))), false)]);
}

#[test]
fn operators_of_one_level_group_to_the_left() {
    let (statements, _) = program("a - b - c;");
    assert_eq!(statements, vec![expr_stmt(infix(infix(var("a"), "-", var("b")), "-", var("c")), true)]);
}

#[test]
fn prefix_operators_bind_tightest() {
    let (statements, _) = program("-a * b == !c");
    assert_eq!(
        statements,
        vec![expr_stmt(infix(infix(prefix("-", var("a")), "*", var("b")), "==", prefix("!", var("c"))), false)]
    );
}

#[test]
fn parentheses_group() {
    let (statements, _) = program("(1 + 2) * 3");
    assert_eq!(statements, vec![expr_stmt(infix(infix(num(1), "+", num(2)), "*", num(3)), false)]);
}

#[test]
fn comparisons_bind_looser_than_sums() {
    let (statements, _) = program("a + 1 < b == true");
    assert_eq!(
        statements,
        vec![expr_stmt(
            infix(infix(infix(var("a"), "+", num(1)), "<", var("b")), "==", Expression::Boolean(true)),
            false
        )]
    );
}

#[test]
fn parses_calls() {
    let (statements, _) = program("add(1, 2 * 3, f())");
    assert_eq!(
        statements,
        vec![expr_stmt(call("add", vec![num(1), infix(num(2), "*", num(3)), call("f", vec![])]), false)]
    );
}

#[test]
fn only_names_can_be_called() {
    let (statements, _) = program("1(2)");
    assert_eq!(statements, vec![expr_stmt(num(1), false), expr_stmt(num(2), false)]);
    let (statements, _) = program("(a)(1)");
    assert_eq!(statements, vec![expr_stmt(call("a", vec![num(1)]), false)]);
}

#[test]
fn parses_val_statements() {
    let (statements, errors) = program("val x = 5 + y");
    assert!(errors.is_empty());
    assert_eq!(
        statements,
        vec![Statement::Val(ValStatement { name: ident("x"), value: infix(num(5), "+", var("y")) })]
    );
}

#[test]
fn records_val_errors() {
    let (_, errors) = program("val = 5");
    assert_eq!(errors, vec!["Expected Identifier but not found".to_string()]);
    let (_, errors) = program("val x 5");
    assert_eq!(errors, vec!["Expected Assignment operator but found Integer".to_string()]);
}

#[test]
fn parses_functions() {
    let (statements, errors) = program("func add(a, b) { return a + b; }");
    assert!(errors.is_empty());
    assert_eq!(
        statements,
        vec![expr_stmt(
            Expression::Function(FunctionExpression {
                name: ident("add"),
                body: vec![ret(infix(var("a"), "+", var("b")))],
                parameters: vec![ident("a"), ident("b")],
            }),
            false
        )]
    );
}

#[test]
fn parses_if_else() {
    let (statements, _) = program("if (x < 1) { 1 } else { 2; 3 }");
    assert_eq!(
        statements,
        vec![Statement::If(IfStatement {
            condition: Box::new(infix(var("x"), "<", num(1))),
            consequence: vec![expr_stmt(num(1), false)],
            alternative: vec![expr_stmt(num(2), true), expr_stmt(num(3), false)],
        })]
    );
}

#[test]
fn parses_strings_and_booleans() {
    let (statements, _) = program("\"hi\"; false");
    assert_eq!(
        statements,
        vec![expr_stmt(Expression::String("hi".to_string()), true), expr_stmt(Expression::Boolean(false), false)]
    );
}

#[test]
fn skips_what_does_not_start_an_expression() {
    let (statements, _) = program("; ) 7");
    assert_eq!(statements, vec![expr_stmt(num(7), false)]);
}

#[test]
fn parses_the_fibonacci_example() {
    let source = "val n = 10\nfunc fib(n) {\n if (n == 0) { return 0; }\n if (n == 1) { return 1; }\n return fib(n - 1) + fib(n - 2);\n}\nval value = fib(n);\nprint(value)";
    let (statements, errors) = program(source);
    assert!(errors.is_empty());
    assert_eq!(statements.len(), 4);
    assert_eq!(statements[3], expr_stmt(call("print", vec![var("value")]), false));
}

#[test]
fn precedence_levels() {
    let token = |t: TokenType| Token::new(t, String::new());
    assert_eq!(get_precedence(&token(TokenType::Equals)), Precedence::Equals);
    assert_eq!(get_precedence(&token(TokenType::LessThanOrEqual)), Precedence::LessGreater);
    assert_eq!(get_precedence(&token(TokenType::Minus)), Precedence::Sum);
    assert_eq!(get_precedence(&token(TokenType::Slash)), Precedence::Product);
    assert_eq!(get_precedence(&token(TokenType::LeftParenthesis)), Precedence::Call);
    assert_eq!(get_precedence(&token(TokenType::Semicolon)), Precedence::Lowest);
    assert_eq!(Precedence::Lowest.level(), 1);
    assert_eq!(Precedence::Index.level(), 8);
    assert!(Precedence::Sum < Precedence::Product);
}

#[test]
fn expect_peek_moves_only_on_a_match() {
    let mut p = parser("a b");
    assert!(!p.expect_peek(TokenType::Integer));
    assert!(p.expect_peek(TokenType::Identifier));
    assert_eq!(p.parse_identifier(), Some(var("b")));
}

#[test]
fn parses_integers() {
    let mut p = parser("18446744073709551615");
    assert_eq!(p.parse_integer(), Some(num(18446744073709551615)));
}

#[test]
fn parses_parameters_and_arguments() {
    let mut p = parser("(x, y, z)");
    assert_eq!(p.parse_function_parameters(), vec![ident("x"), ident("y"), ident("z")]);
    let mut p = parser("(1, )");
    assert_eq!(p.parse_call_arguments(), Vec::<Expression>::new());
}

#[test]
fn for_loops_parse_their_three_clauses_and_body() {
    let (statements, errors) = program("for (val i = 0; i < 10; val i = i + 1) { print(i); }");
    assert!(errors.is_empty());
    assert_eq!(
        statements,
        vec![Statement::For(ForStatement {
            initialization: Box::new(Statement::Val(ValStatement { name: ident("i"), value: num(0) })),
            condition: infix(var("i"), "<", num(10)),
            update: Box::new(Statement::Val(ValStatement { name: ident("i"), value: infix(var("i"), "+", num(1)) })),
            body: vec![expr_stmt(call("print", vec![var("i")]), true)],
        })]
    );
}

#[test]
fn for_loops_accept_an_expression_as_initialization() {
    let (statements, _) = program("for (x; x < 1; x) { }");
    assert_eq!(
        statements,
        vec![Statement::For(ForStatement {
            initialization: Box::new(expr_stmt(var("x"), true)),
            condition: infix(var("x"), "<", num(1)),
            update: Box::new(expr_stmt(var("x"), false)),
            body: vec![],
        })]
    );
}

#[test]
fn for_loops_without_a_body_yield_nothing() {
    let (statements, _) = program("for (val i = 0; i < 1; val i = i + 1)");
    assert!(!statements.iter().any(|s| matches!(s, Statement::For(_))));
}

#[test]
fn a_program_is_read_to_its_end() {
    let mut p = parser("val x = 1; f(x) + 2; return (3");
    let first = p.parse_program();
    assert_eq!(first.statements.len(), 2);
    let second = p.parse_program();
    assert!(second.statements.is_empty());
}

#[test]
fn sources_parse_when_their_literals_fit() {
    let program = parse_source("val x = 18446744073709551615; x + 1".to_string()).unwrap();
    assert_eq!(
        program.statements,
        vec![
            Statement::Val(ValStatement { name: ident("x"), value: num(18446744073709551615) }),
            expr_stmt(infix(var("x"), "+", num(1)), false),
        ]
    );
    assert!(parse_source("val x = 18446744073709551616".to_string()).is_none());
    assert!(parse_source("".to_string()).unwrap().statements.is_empty());
}

#[test]
fn only_literals_that_are_read_must_fit() {
    let program = parse_source("func f(99999999999999999999) { }".to_string()).unwrap();
    assert_eq!(program.statements.len(), 1);
    assert!(parse_source("f(1, 99999999999999999999)".to_string()).is_none());
}

#[test]
fn an_overflowing_literal_is_flagged() {
    let mut p = parser("1 + 99999999999999999999");
    assert!(!p.has_overflowed());
    let program = p.parse_program();
    assert!(p.has_overflowed());
    assert_eq!(program.statements, vec![expr_stmt(infix(num(1), "+", num(0)), false)]);
}

#[test]
fn parses_arrays() {
    let (statements, _) = program("[1, 2 + 3, [x]]; []");
    assert_eq!(
        statements,
        vec![
            expr_stmt(
                Expression::Array(vec![num(1), infix(num(2), "+", num(3)), Expression::Array(vec![var("x")])]),
                true
            ),
            expr_stmt(Expression::Array(vec![]), false),
        ]
    );
    let mut p = parser("[1, 2]");
    assert_eq!(p.parse_array_expression(), Some(Expression::Array(vec![num(1), num(2)])));
    let mut p = parser("[1, 2");
    assert_eq!(p.parse_array_expression(), None);
}

#[test]
fn error_messages_are_the_errors_field() {
    let mut p = parser("val 1");
    p.parse_program();
    assert_eq!(p.error_messages(), &p.errors);
    assert_eq!(p.errors, vec!["Expected Identifier but not found".to_string()]);
}
