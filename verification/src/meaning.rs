use vstd::prelude::*;
use crate::ast::{Expr, Stmt};
use crate::eval::{
    Bindings, Store, eval_expr_model, infix_integer_value, bind_arguments_model, eval_stmt_model,
    eval_block_model, magnitude, quotient_toward_zero,
};
use crate::lexer::{
    LexerState, next_token_model, valid_state, spaces, identifier_chars, digits, keyword_type, lemma_skip_while_forward,
    lemma_skip_while_all,
};
use crate::parser::precedence_of;
use crate::token::TokenType;
use crate::object::{Value, natural_text, render};
use crate::text::{is_decimal, decimal_value, byte_at, text_of};

verus! {

/// `print` shows a natural number as its decimal numeral: a non-empty string
/// of the digits `0` to `9` that denotes the number.
pub proof fn law_natural_numerals(n: nat)
    ensures
        is_decimal(natural_text(n)),
        decimal_value(natural_text(n)) == n,
    decreases n,
{
    reveal_strlit("0");
    reveal_strlit("1");
    reveal_strlit("2");
    reveal_strlit("3");
    reveal_strlit("4");
    reveal_strlit("5");
    reveal_strlit("6");
    reveal_strlit("7");
    reveal_strlit("8");
    reveal_strlit("9");
    let d = n % 10;
    let digit = natural_text(d);
    assert(digit.len() == 1);
    assert(digit.drop_last() =~= Seq::<char>::empty());
    assert((digit[0] as nat) - ('0' as nat) == d);
    assert(decimal_value(Seq::<char>::empty()) == 0);
    assert(decimal_value(digit) == decimal_value(digit.drop_last()) * 10 + ((digit.last() as nat) - ('0' as nat)) as nat);
    assert(decimal_value(digit) == d);
    if n >= 10 {
        law_natural_numerals(n / 10);
        let s = natural_text(n / 10);
        let t = natural_text(n);
        assert(t == s + digit);
        assert(t.drop_last() =~= s);
        assert(t.last() == digit[0]);
        assert(decimal_value(t) == decimal_value(s) * 10 + d);
        assert((n / 10) * 10 + n % 10 == n) by (nonlinear_arith);
        assert forall|i: int| 0 <= i < t.len() implies '0' <= #[trigger] t[i] <= '9' by {
            if i < s.len() {
                assert(t[i] == s[i]);
            } else {
                assert(t[i] == digit[0]);
            }
        }
    } else {
        assert(natural_text(n) == digit);
    }
}

/// `print` shows an integer in decimal: a non-negative one as its numeral,
/// a negative one as `-` followed by the numeral of its magnitude.
pub proof fn law_print_shows_integers_in_decimal(n: i64)
    ensures
        n >= 0 ==> is_decimal(render(Value::Integer(n))) && decimal_value(render(Value::Integer(n))) == n,
        n < 0 ==> render(Value::Integer(n)).len() > 1 && render(Value::Integer(n))[0] == '-'
            && is_decimal(render(Value::Integer(n)).drop_first())
            && decimal_value(render(Value::Integer(n)).drop_first()) == -n,
{
    reveal_strlit("-");
    if n >= 0 {
        law_natural_numerals(n as nat);
    } else {
        let m = (-n) as nat;
        law_natural_numerals(m);
        let t = render(Value::Integer(n));
        assert(t == "-"@ + natural_text(m));
        assert(t.drop_first() =~= natural_text(m));
    }
}

/// An infix expression over two names.
pub open spec fn infix_of(a: Seq<char>, operator: Seq<char>, b: Seq<char>) -> Expr {
    Expr::Infix {
        left: Box::new(Expr::Identifier(a)),
        operator,
        right: Box::new(Expr::Identifier(b)),
    }
}

/// Comparing two integer variables gives the mathematical comparison, and
/// `+`, `-` and `*` give the mathematical result when it fits in an `i64`;
/// none of them changes the functions or the output.
pub proof fn law_integer_operators(
    a: Seq<char>,
    b: Seq<char>,
    l: i64,
    r: i64,
    env: Bindings,
    functions: Store,
    fuel: nat,
)
    requires
        env.contains_key(a),
        env[a] == Value::Integer(l),
        env.contains_key(b),
        env[b] == Value::Integer(r),
        fuel >= 2,
    ensures
        eval_expr_model(infix_of(a, "=="@, b), env, functions, fuel) == Some((Value::Boolean(l == r), functions)),
        eval_expr_model(infix_of(a, "!="@, b), env, functions, fuel) == Some((Value::Boolean(l != r), functions)),
        eval_expr_model(infix_of(a, "<"@, b), env, functions, fuel) == Some((Value::Boolean(l < r), functions)),
        eval_expr_model(infix_of(a, ">"@, b), env, functions, fuel) == Some((Value::Boolean(l > r), functions)),
        eval_expr_model(infix_of(a, "<="@, b), env, functions, fuel) == Some((Value::Boolean(l <= r), functions)),
        eval_expr_model(infix_of(a, ">="@, b), env, functions, fuel) == Some((Value::Boolean(l >= r), functions)),
        i64::MIN <= l + r <= i64::MAX ==> eval_expr_model(infix_of(a, "+"@, b), env, functions, fuel)
            == Some((Value::Integer((l + r) as i64), functions)),
        i64::MIN <= l - r <= i64::MAX ==> eval_expr_model(infix_of(a, "-"@, b), env, functions, fuel)
            == Some((Value::Integer((l - r) as i64), functions)),
        i64::MIN <= l * r <= i64::MAX ==> eval_expr_model(infix_of(a, "*"@, b), env, functions, fuel)
            == Some((Value::Integer((l * r) as i64), functions)),
{
    reveal_strlit("+");
    reveal_strlit("-");
    reveal_strlit("/");
    reveal_strlit("*");
    reveal_strlit("==");
    reveal_strlit("!=");
    reveal_strlit("<");
    reveal_strlit(">");
    reveal_strlit("<=");
    reveal_strlit(">=");
    let f = (fuel - 1) as nat;
    assert(eval_expr_model(Expr::Identifier(a), env, functions, f) == Some((Value::Integer(l), functions)));
    assert(eval_expr_model(Expr::Identifier(b), env, functions, f) == Some((Value::Integer(r), functions)));
    assert("+"@.len() == 1 && "-"@.len() == 1 && "/"@.len() == 1 && "*"@.len() == 1);
    assert("=="@.len() == 2 && "!="@.len() == 2 && "<="@.len() == 2 && ">="@.len() == 2);
    assert("=="@[0] == '=' && "!="@[0] == '!' && "<"@[0] == '<' && ">"@[0] == '>');
    assert("<="@[0] == '<' && ">="@[0] == '>' && "<"@.len() == 1 && ">"@.len() == 1);
    assert("+"@[0] == '+' && "-"@[0] == '-' && "/"@[0] == '/' && "*"@[0] == '*');
    assert("-"@ != "+"@ && "*"@ != "+"@ && "*"@ != "-"@ && "*"@ != "/"@);
    assert("=="@ != "+"@ && "=="@ != "-"@ && "=="@ != "/"@ && "=="@ != "*"@);
    assert(infix_integer_value(l, "=="@, r) == Some(Value::Boolean(l == r)));
    assert("!="@ != "+"@ && "!="@ != "-"@ && "!="@ != "/"@ && "!="@ != "*"@ && "!="@ != "=="@);
    assert(infix_integer_value(l, "!="@, r) == Some(Value::Boolean(l != r)));
    assert(infix_integer_value(l, "<"@, r) == Some(Value::Boolean(l < r)));
    assert(infix_integer_value(l, ">"@, r) == Some(Value::Boolean(l > r)));
    assert(infix_integer_value(l, "<="@, r) == Some(Value::Boolean(l <= r)));
    assert(infix_integer_value(l, ">="@, r) == Some(Value::Boolean(l >= r)));
}

/// A function whose body returns a variable that is not among its
/// parameters sees the caller's binding of that variable: the body runs in
/// the caller's environment updated with the parameters.
pub proof fn law_callee_sees_caller_variables(
    name: Seq<char>,
    k: Seq<char>,
    env: Bindings,
    functions: Store,
    fuel: nat,
)
    requires
        functions.functions.contains_key(name),
        functions.functions[name] == (Value::Function {
            name,
            parameters: Seq::empty(),
            body: seq![Stmt::Return { value: Expr::Identifier(k) }],
        }),
        fuel >= 3,
    ensures
        eval_expr_model(Expr::Call { name, arguments: Seq::empty() }, env, functions, fuel)
            == Some((if env.contains_key(k) { env[k] } else { Value::Null }, functions)),
{
    let f = (fuel - 1) as nat;
    let g = (f - 1) as nat;
    let v = if env.contains_key(k) { env[k] } else { Value::Null };
    let body = seq![Stmt::Return { value: Expr::Identifier(k) }];
    assert(bind_arguments_model(Seq::empty(), Seq::empty(), 0, env, env, functions, f) == Some((env, functions)));
    assert(eval_expr_model(Expr::Identifier(k), env, functions, g) == Some((v, functions)));
    assert(eval_stmt_model(body[0], env, functions, f) == Some((Value::Return(Box::new(v)), env, functions)));
    assert(eval_block_model(body, 0, Value::Null, env, functions, f) == Some((Value::Return(Box::new(v)), env, functions)));
}

/// An argument is bound to its parameter: calling a function that returns
/// its one parameter yields the value of the argument, evaluated in the
/// caller's environment.
pub proof fn law_arguments_bind_parameters(
    name: Seq<char>,
    p: Seq<char>,
    argument: Expr,
    env: Bindings,
    functions: Store,
    fuel: nat,
)
    requires
        functions.functions.contains_key(name),
        functions.functions[name] == (Value::Function {
            name,
            parameters: seq![p],
            body: seq![Stmt::Return { value: Expr::Identifier(p) }],
        }),
        fuel >= 3,
        eval_expr_model(argument, env, functions, (fuel - 1) as nat) is Some,
    ensures
        eval_expr_model(Expr::Call { name, arguments: seq![argument] }, env, functions, fuel)
            == eval_expr_model(argument, env, functions, (fuel - 1) as nat),
{
    let f = (fuel - 1) as nat;
    let g = (f - 1) as nat;
    let (v, fs) = eval_expr_model(argument, env, functions, f).unwrap();
    let callee = env.insert(p, v);
    let body = seq![Stmt::Return { value: Expr::Identifier(p) }];
    let args = seq![argument];
    assert(args[0] == argument);
    assert(bind_arguments_model(seq![p], args, 1, env, callee, fs, f) == Some((callee, fs)));
    assert(bind_arguments_model(seq![p], args, 0, env, env, functions, f) == Some((callee, fs)));
    assert(eval_expr_model(Expr::Identifier(p), callee, fs, g) == Some((v, fs)));
    assert(eval_stmt_model(body[0], callee, fs, f) == Some((Value::Return(Box::new(v)), callee, fs)));
    assert(eval_block_model(body, 0, Value::Null, callee, fs, f) == Some((Value::Return(Box::new(v)), callee, fs)));
}

/// How tightly the operators bind, from loosest to tightest: `==` and `!=`;
/// then `<`, `>`, `<=`, `>=`, all alike; then `+` and `-`; then `*` and
/// `/`; then a call's `(`. Every other token binds loosest of all.
pub proof fn law_precedence_order(t: TokenType)
    ensures
        precedence_of(TokenType::Equals).level() == precedence_of(TokenType::NotEquals).level(),
        precedence_of(TokenType::LessThan).level() == precedence_of(TokenType::GreaterThan).level(),
        precedence_of(TokenType::LessThan).level() == precedence_of(TokenType::LessThanOrEqual).level(),
        precedence_of(TokenType::LessThan).level() == precedence_of(TokenType::GreaterThanOrEqual).level(),
        precedence_of(TokenType::Plus).level() == precedence_of(TokenType::Minus).level(),
        precedence_of(TokenType::Asterisk).level() == precedence_of(TokenType::Slash).level(),
        precedence_of(TokenType::Semicolon).level() < precedence_of(TokenType::Equals).level(),
        precedence_of(TokenType::Equals).level() < precedence_of(TokenType::LessThan).level(),
        precedence_of(TokenType::LessThan).level() < precedence_of(TokenType::Plus).level(),
        precedence_of(TokenType::Plus).level() < precedence_of(TokenType::Asterisk).level(),
        precedence_of(TokenType::Asterisk).level() < precedence_of(TokenType::LeftParenthesis).level(),
        precedence_of(t).level() >= precedence_of(TokenType::Semicolon).level(),
        !is_operator_or_call(t) ==> precedence_of(t).level() == precedence_of(TokenType::Semicolon).level(),
{
}

/// The tokens that bind an expression to what follows it.
pub open spec fn is_operator_or_call(t: TokenType) -> bool {
    ||| t == TokenType::Equals
    ||| t == TokenType::NotEquals
    ||| t == TokenType::LessThan
    ||| t == TokenType::GreaterThan
    ||| t == TokenType::LessThanOrEqual
    ||| t == TokenType::GreaterThanOrEqual
    ||| t == TokenType::Plus
    ||| t == TokenType::Minus
    ||| t == TokenType::Asterisk
    ||| t == TokenType::Slash
    ||| t == TokenType::LeftParenthesis
}

/// ASCII letters, either case.
pub open spec fn ascii_letter(c: u8) -> bool {
    (65 <= c && c <= 90) || (97 <= c && c <= 122)
}

/// An identifier starts at any ASCII letter and takes every letter (either
/// case) and underscore that follows; its text is those bytes, and it is
/// a name or a keyword, never anything else.
pub proof fn law_identifiers_take_letters(s: LexerState)
    requires
        valid_state(s),
        ascii_letter(byte_at(s.input, s.position as int)),
    ensures
        ({
            let (t, s1) = next_token_model(s);
            &&& s1.position > s.position
            &&& forall|i: int| s.position <= i < s1.position ==>
                ascii_letter(#[trigger] byte_at(s.input, i)) || byte_at(s.input, i) == 95
            &&& !ascii_letter(byte_at(s.input, s1.position as int))
            &&& byte_at(s.input, s1.position as int) != 95
            &&& t.literal == text_of(s.input, s.position as int, s1.position as int)
            &&& (t.token_type == TokenType::Identifier || t.token_type == TokenType::Function
                || t.token_type == TokenType::Val || t.token_type == TokenType::True
                || t.token_type == TokenType::False || t.token_type == TokenType::If
                || t.token_type == TokenType::Else || t.token_type == TokenType::Return
                || t.token_type == TokenType::For)
        }),
{
    let ic = identifier_chars();
    assert(s.skip_while(spaces()) == s);
    lemma_skip_while_forward(s, ic);
    lemma_skip_while_forward(s.advanced(), ic);
    lemma_skip_while_all(s, ic);
    let s1 = s.skip_while(ic);
    assert(s.position < s.input.len());
    assert(s1 == s.advanced().skip_while(ic));
}

/// Division rounds toward zero: what is left over is smaller than the
/// divisor and has the sign of the dividend.
pub proof fn lemma_division_remainder(l: int, r: int)
    requires
        r != 0,
    ensures
        magnitude(l - quotient_toward_zero(l, r) * r) < magnitude(r),
        l - quotient_toward_zero(l, r) * r == 0 || (l - quotient_toward_zero(l, r) * r < 0) == (l < 0),
{
    let a = magnitude(l);
    let b = magnitude(r);
    let q = a / b;
    let m = a % b;
    assert(a == q * b + m && 0 <= m < b) by (nonlinear_arith)
        requires
            b > 0,
            a >= 0,
            q == a / b,
            m == a % b,
    ;
    if l >= 0 && r > 0 {
        assert(l - q * r == m);
    } else if l >= 0 {
        assert((-q) * r == q * b) by (nonlinear_arith)
            requires
                r == -b,
        ;
    } else if r > 0 {
        assert((-q) * r == -(q * b)) by (nonlinear_arith)
            requires
                r == b,
        ;
    } else {
        assert(q * r == -(q * b)) by (nonlinear_arith)
            requires
                r == -b,
        ;
    }
}

/// Dividing two integer variables gives the quotient rounded toward zero:
/// the remainder is smaller than the divisor and has the dividend's sign.
pub proof fn law_division(
    a: Seq<char>,
    b: Seq<char>,
    l: i64,
    r: i64,
    env: Bindings,
    functions: Store,
    fuel: nat,
)
    requires
        env.contains_key(a),
        env[a] == Value::Integer(l),
        env.contains_key(b),
        env[b] == Value::Integer(r),
        r != 0,
        !(l == i64::MIN && r == -1),
        fuel >= 2,
    ensures
        eval_expr_model(infix_of(a, "/"@, b), env, functions, fuel) matches Some((Value::Integer(q), fs))
            && fs == functions
            && magnitude(l - q * r) < magnitude(r as int)
            && (l - q * r == 0 || (l - q * r < 0) == (l < 0)),
{
    reveal_strlit("+");
    reveal_strlit("-");
    reveal_strlit("/");
    assert("+"@.len() == 1 && "-"@.len() == 1 && "/"@.len() == 1);
    assert("+"@[0] == '+' && "-"@[0] == '-' && "/"@[0] == '/');
    assert("/"@ != "+"@ && "/"@ != "-"@);
    let f = (fuel - 1) as nat;
    assert(eval_expr_model(Expr::Identifier(a), env, functions, f) == Some((Value::Integer(l), functions)));
    assert(eval_expr_model(Expr::Identifier(b), env, functions, f) == Some((Value::Integer(r), functions)));
    lemma_division_remainder(l as int, r as int);
    let q = quotient_toward_zero(l as int, r as int);
    assert(magnitude(l as int) / magnitude(r as int) <= magnitude(l as int)) by (nonlinear_arith)
        requires
            magnitude(r as int) >= 1,
            magnitude(l as int) >= 0,
    ;
    if l == i64::MIN && r < 0 {
        assert(magnitude(r as int) >= 2);
        assert(magnitude(l as int) / magnitude(r as int) <= magnitude(l as int) / 2) by (nonlinear_arith)
            requires
                magnitude(r as int) >= 2,
                magnitude(l as int) >= 0,
        ;
    }
    assert(i64::MIN <= q <= i64::MAX);
    assert(infix_integer_value(l, "/"@, r) == Some(Value::Integer(q as i64)));
}

/// `-` negates an integer variable (one that can be negated in an `i64`)
/// and `!` negates a boolean one.
pub proof fn law_prefix_operators(a: Seq<char>, env: Bindings, functions: Store, fuel: nat)
    requires
        env.contains_key(a),
        fuel >= 2,
    ensures
        env[a] is Integer && env[a]->Integer_0 != i64::MIN ==>
            eval_expr_model(Expr::Prefix { operator: "-"@, right: Box::new(Expr::Identifier(a)) }, env, functions, fuel)
                == Some((Value::Integer((-(env[a]->Integer_0)) as i64), functions)),
        env[a] is Boolean ==>
            eval_expr_model(Expr::Prefix { operator: "!"@, right: Box::new(Expr::Identifier(a)) }, env, functions, fuel)
                == Some((Value::Boolean(!env[a]->Boolean_0), functions)),
{
    reveal_strlit("-");
    reveal_strlit("!");
    assert("-"@[0] == '-' && "!"@[0] == '!');
    assert("-"@ != "!"@);
    let f = (fuel - 1) as nat;
    assert(eval_expr_model(Expr::Identifier(a), env, functions, f) == Some((env[a], functions)));
}

/// ASCII decimal digits.
pub open spec fn ascii_digit(c: u8) -> bool {
    48 <= c && c <= 57
}

/// A number starts at a decimal digit and takes every digit that follows;
/// it is an integer token whose text is those digits.
pub proof fn law_numbers_take_digits(s: LexerState)
    requires
        valid_state(s),
        ascii_digit(byte_at(s.input, s.position as int)),
    ensures
        ({
            let (t, s1) = next_token_model(s);
            &&& s1.position > s.position
            &&& forall|i: int| s.position <= i < s1.position ==> ascii_digit(#[trigger] byte_at(s.input, i))
            &&& !ascii_digit(byte_at(s.input, s1.position as int))
            &&& t.literal == text_of(s.input, s.position as int, s1.position as int)
            &&& t.token_type == TokenType::Integer
        }),
{
    let dc = digits();
    assert(s.skip_while(spaces()) == s);
    lemma_skip_while_forward(s, dc);
    lemma_skip_while_forward(s.advanced(), dc);
    lemma_skip_while_all(s, dc);
    let s1 = s.skip_while(dc);
    assert(s.position < s.input.len());
    assert(s1 == s.advanced().skip_while(dc));
}

/// The keywords `func`, `val`, `true`, `false`, `if`, `else`, `return` and
/// `for` are read as their own kinds of token; every other word is a name.
pub proof fn law_keywords(word: Seq<char>)
    ensures
        keyword_type(seq!['f', 'u', 'n', 'c']) == TokenType::Function,
        keyword_type(seq!['v', 'a', 'l']) == TokenType::Val,
        keyword_type(seq!['t', 'r', 'u', 'e']) == TokenType::True,
        keyword_type(seq!['f', 'a', 'l', 's', 'e']) == TokenType::False,
        keyword_type(seq!['i', 'f']) == TokenType::If,
        keyword_type(seq!['e', 'l', 's', 'e']) == TokenType::Else,
        keyword_type(seq!['r', 'e', 't', 'u', 'r', 'n']) == TokenType::Return,
        keyword_type(seq!['f', 'o', 'r']) == TokenType::For,
        word != seq!['f', 'u', 'n', 'c'] && word != seq!['v', 'a', 'l'] && word != seq!['t', 'r', 'u', 'e']
            && word != seq!['f', 'a', 'l', 's', 'e'] && word != seq!['i', 'f'] && word != seq!['e', 'l', 's', 'e']
            && word != seq!['r', 'e', 't', 'u', 'r', 'n'] && word != seq!['f', 'o', 'r']
            ==> keyword_type(word) == TokenType::Identifier,
{
    reveal_strlit("func");
    reveal_strlit("val");
    reveal_strlit("true");
    reveal_strlit("false");
    reveal_strlit("if");
    reveal_strlit("else");
    reveal_strlit("return");
    reveal_strlit("for");
    assert("func"@ =~= seq!['f', 'u', 'n', 'c']);
    assert("val"@ =~= seq!['v', 'a', 'l']);
    assert("true"@ =~= seq!['t', 'r', 'u', 'e']);
    assert("false"@ =~= seq!['f', 'a', 'l', 's', 'e']);
    assert("if"@ =~= seq!['i', 'f']);
    assert("else"@ =~= seq!['e', 'l', 's', 'e']);
    assert("return"@ =~= seq!['r', 'e', 't', 'u', 'r', 'n']);
    assert("for"@ =~= seq!['f', 'o', 'r']);
}

} // verus!
