use vstd::prelude::*;
use crate::ast::{
    Expr, Stmt, Expression, Statement, Identifier, PrefixExpression, InfixExpression,
    IfStatement, ForStatement, FunctionExpression, CallExpression, ExpressionStatement, ValStatement,
    ReturnStatement, Program, exprs_model, stmts_model, names_model, lemma_exprs_model_push,
    lemma_stmts_model_push,
};
use crate::lexer::{Lexer, LexerState, next_token_model, valid_state, has_room, lemma_next_token_valid};
use crate::text::{parsed_u64, parse_u64};
use vstd::utf8::encode_utf8;
use crate::token::{Token, TokenType, TokenView};

verus! {

/// Binding strength of operators, from loosest to tightest.
#[derive(PartialEq, Eq, PartialOrd, Clone, Copy, Debug, Structural)]
pub enum Precedence {
    Lowest,
    Equals,
    LessGreater,
    Sum,
    Product,
    Prefix,
    Call,
    Index,
}

impl Precedence {
    /// The numeric level of a precedence: 1 for `Lowest` up to 8 for `Index`.
    #[verifier::allow_in_spec]
    pub fn level(self) -> u32
        returns
            match self {
                Precedence::Lowest => 1u32,
                Precedence::Equals => 2u32,
                Precedence::LessGreater => 3u32,
                Precedence::Sum => 4u32,
                Precedence::Product => 5u32,
                Precedence::Prefix => 6u32,
                Precedence::Call => 7u32,
                Precedence::Index => 8u32,
            },
    {
        match self {
            Precedence::Lowest => 1,
            Precedence::Equals => 2,
            Precedence::LessGreater => 3,
            Precedence::Sum => 4,
            Precedence::Product => 5,
            Precedence::Prefix => 6,
            Precedence::Call => 7,
            Precedence::Index => 8,
        }
    }
}

/// How tightly a token binds when it follows an expression.
pub open spec fn precedence_of(t: TokenType) -> Precedence {
    match t {
        TokenType::Equals | TokenType::NotEquals => Precedence::Equals,
        TokenType::GreaterThan | TokenType::LessThan | TokenType::GreaterThanOrEqual
        | TokenType::LessThanOrEqual => Precedence::LessGreater,
        TokenType::Plus | TokenType::Minus => Precedence::Sum,
        TokenType::Slash | TokenType::Asterisk => Precedence::Product,
        TokenType::LeftParenthesis => Precedence::Call,
        _ => Precedence::Lowest,
    }
}

pub fn get_precedence(token: &Token) -> (p: Precedence)
    ensures
        p == precedence_of(token.token_type),
{
    match token.token_type {
        TokenType::Equals => Precedence::Equals,
        TokenType::NotEquals => Precedence::Equals,
        TokenType::GreaterThan => Precedence::LessGreater,
        TokenType::LessThan => Precedence::LessGreater,
        TokenType::GreaterThanOrEqual => Precedence::LessGreater,
        TokenType::LessThanOrEqual => Precedence::LessGreater,
        TokenType::Plus => Precedence::Sum,
        TokenType::Minus => Precedence::Sum,
        TokenType::Slash => Precedence::Product,
        TokenType::Asterisk => Precedence::Product,
        TokenType::LeftParenthesis => Precedence::Call,
        _ => Precedence::Lowest,
    }
}

/// The name under which a token type is printed in error messages.
pub open spec fn token_type_label(t: TokenType) -> Seq<char> {
    match t {
        TokenType::Illegal => "Illegal"@,
        TokenType::Eof => "Eof"@,
        TokenType::Identifier => "Identifier"@,
        TokenType::Integer => "Integer"@,
        TokenType::String => "String"@,
        TokenType::Assign => "Assign"@,
        TokenType::Plus => "Plus"@,
        TokenType::Minus => "Minus"@,
        TokenType::Asterisk => "Asterisk"@,
        TokenType::Bang => "Bang"@,
        TokenType::Slash => "Slash"@,
        TokenType::Equals => "Equals"@,
        TokenType::NotEquals => "NotEquals"@,
        TokenType::GreaterThan => "GreaterThan"@,
        TokenType::LessThan => "LessThan"@,
        TokenType::GreaterThanOrEqual => "GreaterThanOrEqual"@,
        TokenType::LessThanOrEqual => "LessThanOrEqual"@,
        TokenType::LogicalAnd => "LogicalAnd"@,
        TokenType::LogicalOr => "LogicalOr"@,
        TokenType::Comma => "Comma"@,
        TokenType::Semicolon => "Semicolon"@,
        TokenType::LeftParenthesis => "LeftParenthesis"@,
        TokenType::RightParenthesis => "RightParenthesis"@,
        TokenType::LeftBrace => "LeftBrace"@,
        TokenType::RightBrace => "RightBrace"@,
        TokenType::LeftBracket => "LeftBracket"@,
        TokenType::RightBracket => "RightBracket"@,
        TokenType::Function => "Function"@,
        TokenType::Val => "Val"@,
        TokenType::True => "True"@,
        TokenType::False => "False"@,
        TokenType::Return => "Return"@,
        TokenType::Else => "Else"@,
        TokenType::If => "If"@,
        TokenType::For => "For"@,
    }
}

pub fn token_type_name(t: TokenType) -> (name: &'static str)
    ensures
        name@ == token_type_label(t),
{
    match t {
        TokenType::Illegal => "Illegal",
        TokenType::Eof => "Eof",
        TokenType::Identifier => "Identifier",
        TokenType::Integer => "Integer",
        TokenType::String => "String",
        TokenType::Assign => "Assign",
        TokenType::Plus => "Plus",
        TokenType::Minus => "Minus",
        TokenType::Asterisk => "Asterisk",
        TokenType::Bang => "Bang",
        TokenType::Slash => "Slash",
        TokenType::Equals => "Equals",
        TokenType::NotEquals => "NotEquals",
        TokenType::GreaterThan => "GreaterThan",
        TokenType::LessThan => "LessThan",
        TokenType::GreaterThanOrEqual => "GreaterThanOrEqual",
        TokenType::LessThanOrEqual => "LessThanOrEqual",
        TokenType::LogicalAnd => "LogicalAnd",
        TokenType::LogicalOr => "LogicalOr",
        TokenType::Comma => "Comma",
        TokenType::Semicolon => "Semicolon",
        TokenType::LeftParenthesis => "LeftParenthesis",
        TokenType::RightParenthesis => "RightParenthesis",
        TokenType::LeftBrace => "LeftBrace",
        TokenType::RightBrace => "RightBrace",
        TokenType::LeftBracket => "LeftBracket",
        TokenType::RightBracket => "RightBracket",
        TokenType::Function => "Function",
        TokenType::Val => "Val",
        TokenType::True => "True",
        TokenType::False => "False",
        TokenType::Return => "Return",
        TokenType::Else => "Else",
        TokenType::If => "If",
        TokenType::For => "For",
    }
}

/// The mathematical model of a parser: the lexer's state and the two tokens
/// that the parser looks at, the current one and the one after it.
pub struct ParserState {
    pub lexer: LexerState,
    pub current: TokenView,
    pub peek: TokenView,
}

/// What a parsing step yields: its result, how many tokens it moved past,
/// the error messages it recorded, and whether every integer literal it
/// read fits in a `u64` (one that does not is read as 0 and marks the parser).
pub struct Outcome<T> {
    pub value: T,
    pub consumed: nat,
    pub errors: Seq<Seq<char>>,
    pub fits: bool,
}

pub open spec fn outcome<T>(value: T, consumed: nat, errors: Seq<Seq<char>>, fits: bool) -> Outcome<T> {
    Outcome { value, consumed, errors, fits }
}

/// A step that yields `value` after moving past `consumed` tokens, with no
/// error message and no integer read.
pub open spec fn plain<T>(value: T, consumed: nat) -> Outcome<T> {
    Outcome { value, consumed, errors: Seq::empty(), fits: true }
}

/// Moving to the next token: the peeked token becomes the current one and
/// the lexer supplies a new peeked token. A lexer whose position counter has
/// no room left to move on (it only gets there after reading end-of-file
/// tokens for as long as a `usize` counts) is not asked again: the new
/// peeked token is an end-of-file token.
pub open spec fn advance(st: ParserState) -> ParserState {
    if has_room(st.lexer) {
        ParserState {
            lexer: next_token_model(st.lexer).1,
            current: st.peek,
            peek: next_token_model(st.lexer).0,
        }
    } else {
        ParserState {
            lexer: st.lexer,
            current: st.peek,
            peek: TokenView { token_type: TokenType::Eof, literal: Seq::empty() },
        }
    }
}

pub open spec fn advance_n(st: ParserState, n: nat) -> ParserState
    decreases n,
{
    if n == 0 {
        st
    } else {
        advance_n(advance(st), (n - 1) as nat)
    }
}

/// A measure of the work left: it falls with every token that the parser
/// moves past, until only end-of-file tokens remain.
pub open spec fn remaining(st: ParserState) -> nat {
    let rest: int = st.lexer.input.len() - st.lexer.position;
    (if rest >= 0 { 3 * rest } else { 0 }) as nat
        + (if st.peek.token_type != TokenType::Eof { 2nat } else { 0nat })
        + (if st.current.token_type != TokenType::Eof { 1nat } else { 0nat })
}

/// The parser states that the lexer can lead to.
pub open spec fn valid_parser_state(st: ParserState) -> bool {
    valid_state(st.lexer)
}

pub proof fn lemma_advance(st: ParserState)
    requires
        valid_parser_state(st),
    ensures
        valid_parser_state(advance(st)),
        advance(st).lexer.input == st.lexer.input,
        remaining(advance(st)) <= remaining(st),
        remaining(st) > 0 ==> remaining(advance(st)) < remaining(st),
{
    if has_room(st.lexer) {
        lemma_next_token_valid(st.lexer);
    }
}

pub proof fn lemma_advance_n(st: ParserState, n: nat)
    requires
        valid_parser_state(st),
    ensures
        valid_parser_state(advance_n(st, n)),
        advance_n(st, n).lexer.input == st.lexer.input,
        remaining(advance_n(st, n)) <= remaining(st),
        remaining(st) > 0 && n > 0 ==> remaining(advance_n(st, n)) < remaining(st),
    decreases n,
{
    if n > 0 {
        lemma_advance(st);
        lemma_advance_n(advance(st), (n - 1) as nat);
    }
}

pub proof fn lemma_advance_n_add(st: ParserState, a: nat, b: nat)
    ensures
        advance_n(advance_n(st, a), b) == advance_n(st, a + b),
    decreases a,
{
    if a > 0 {
        lemma_advance_n_add(advance(st), (a - 1) as nat, b);
    }
}

pub open spec fn none_expr(consumed: nat) -> Outcome<Option<Expr>> {
    plain(None, consumed)
}

pub open spec fn none_stmt(consumed: nat) -> Outcome<Option<Stmt>> {
    plain(None, consumed)
}

/// The precedence of the token after the current one.
pub open spec fn peek_binds_tighter(st: ParserState, precedence: Precedence) -> bool {
    st.peek.token_type != TokenType::Semicolon
        && precedence.level() < precedence_of(st.peek.token_type).level()
}

pub open spec fn parse_expression_model(st: ParserState, precedence: Precedence) -> Outcome<Option<Expr>>
    decreases remaining(st), 10nat,
{
    let p = parse_prefix_expression_model(st);
    match p.value {
        None => p,
        Some(left) => {
            let s1 = advance_n(st, p.consumed);
            proof {
                if valid_parser_state(st) {
                    lemma_advance_n(st, p.consumed);
                }
            }
            if valid_parser_state(st) {
                let l = expression_loop_model(s1, left, precedence);
                outcome(Some(l.value), p.consumed + l.consumed, p.errors + l.errors, p.fits && l.fits)
            } else {
                p
            }
        },
    }
}

/// Folds infix operators and calls into `left` while the next token binds
/// more tightly than `precedence`.
pub open spec fn expression_loop_model(st: ParserState, left: Expr, precedence: Precedence) -> Outcome<Expr>
    decreases remaining(st), 9nat,
{
    if valid_parser_state(st) && peek_binds_tighter(st, precedence) {
        let s1 = advance(st);
        proof {
            lemma_advance(st);
        }
        let r = parse_infix_expression_model(s1, left);
        let next = match r.value {
            Some(e) => e,
            None => left,
        };
        proof {
            lemma_advance_n(s1, r.consumed);
        }
        let l = expression_loop_model(advance_n(s1, r.consumed), next, precedence);
        outcome(l.value, 1 + r.consumed + l.consumed, r.errors + l.errors, r.fits && l.fits)
    } else {
        plain(left, 0)
    }
}

pub open spec fn parse_prefix_expression_model(st: ParserState) -> Outcome<Option<Expr>>
    decreases remaining(st), 9nat,
{
    match st.current.token_type {
        TokenType::Identifier => plain(Some(Expr::Identifier(st.current.literal)), 0),
        TokenType::Integer => outcome(
            Some(Expr::Integer(parsed_u64(st.current.literal).unwrap_or(0))),
            0,
            Seq::empty(),
            parsed_u64(st.current.literal) is Some,
        ),
        TokenType::String => plain(Some(Expr::Str(st.current.literal)), 0),
        TokenType::True => plain(Some(Expr::Boolean(true)), 0),
        TokenType::False => plain(Some(Expr::Boolean(false)), 0),
        TokenType::Bang | TokenType::Minus => parse_prefix_model(st),
        TokenType::LeftParenthesis => parse_grouped_model(st),
        TokenType::Function => parse_function_model(st),
        TokenType::LeftBracket => parse_array_model(st),
        _ => none_expr(0),
    }
}

/// A prefix operator and its operand. Once only end-of-file tokens are left
/// there is no operand to read.
pub open spec fn parse_prefix_model(st: ParserState) -> Outcome<Option<Expr>>
    decreases remaining(st), 8nat,
{
    let s1 = advance(st);
    if !valid_parser_state(st) || remaining(s1) == 0 {
        none_expr(1)
    } else {
        proof {
            lemma_advance(st);
        }
        let r = parse_expression_model(s1, Precedence::Prefix);
        let value = match r.value {
            Some(e) => Some(Expr::Prefix { operator: st.current.literal, right: Box::new(e) }),
            None => None,
        };
        outcome(value, 1 + r.consumed, r.errors, r.fits)
    }
}

/// An expression in parentheses.
pub open spec fn parse_grouped_model(st: ParserState) -> Outcome<Option<Expr>>
    decreases remaining(st), 8nat,
{
    let s1 = advance(st);
    if !valid_parser_state(st) || remaining(s1) == 0 {
        none_expr(1)
    } else {
        proof {
            lemma_advance(st);
        }
        let r = parse_expression_model(s1, Precedence::Lowest);
        match r.value {
            None => outcome(None, 1 + r.consumed, r.errors, r.fits),
            Some(e) => {
                if advance_n(s1, r.consumed).peek.token_type == TokenType::RightParenthesis {
                    outcome(Some(e), 2 + r.consumed, r.errors, r.fits)
                } else {
                    outcome(None, 1 + r.consumed, r.errors, r.fits)
                }
            },
        }
    }
}

/// `func name(parameters) { body }`.
pub open spec fn parse_function_model(st: ParserState) -> Outcome<Option<Expr>>
    decreases remaining(st), 8nat,
{
    if !valid_parser_state(st) || st.peek.token_type != TokenType::Identifier {
        none_expr(0)
    } else {
        let s1 = advance(st);
        let name = s1.current.literal;
        if s1.peek.token_type != TokenType::LeftParenthesis {
            none_expr(1)
        } else {
            let s2 = advance(s1);
            let ps = parse_function_parameters_model(s2);
            let s3 = advance_n(s2, ps.consumed);
            if s3.peek.token_type != TokenType::LeftBrace {
                none_expr(2 + ps.consumed)
            } else {
                let s4 = advance(s3);
                proof {
                    lemma_advance(st);
                    lemma_advance(s1);
                    lemma_advance_n(s2, ps.consumed);
                    lemma_advance(s3);
                }
                let b = parse_block_model(s4);
                outcome(
                    Some(Expr::Function { name, body: b.value, parameters: ps.value }),
                    3 + ps.consumed + b.consumed,
                    b.errors,
                    b.fits,
                )
            }
        }
    }
}

/// Parameter names: `)` or `name, ..., name)` after the opening parenthesis.
pub open spec fn parse_function_parameters_model(st: ParserState) -> Outcome<Seq<Seq<char>>> {
    if st.peek.token_type == TokenType::RightParenthesis {
        plain(Seq::empty(), 1)
    } else {
        let s1 = advance(st);
        let l = parameters_loop_model(s1, seq![s1.current.literal]);
        if advance_n(s1, l.consumed).peek.token_type == TokenType::RightParenthesis {
            plain(l.value, 2 + l.consumed)
        } else {
            plain(Seq::empty(), 1 + l.consumed)
        }
    }
}

pub open spec fn parameters_loop_model(st: ParserState, names: Seq<Seq<char>>) -> Outcome<Seq<Seq<char>>>
    decreases remaining(st),
{
    if valid_parser_state(st) && st.peek.token_type == TokenType::Comma {
        let s2 = advance(advance(st));
        proof {
            lemma_advance(st);
            lemma_advance(advance(st));
        }
        let l = parameters_loop_model(s2, names.push(s2.current.literal));
        plain(l.value, 2 + l.consumed)
    } else {
        plain(names, 0)
    }
}

/// A list of expressions after its opening bracket: `end` at once, or
/// `expression, ..., expression` and then `end`. `None` when the list is
/// malformed.
pub open spec fn parse_list_model(st: ParserState, end: TokenType) -> Outcome<Option<Seq<Expr>>>
    decreases remaining(st), 7nat,
{
    if st.peek.token_type == end {
        plain(Some(Seq::empty()), 1)
    } else if !valid_parser_state(st) || remaining(st) == 0 {
        plain(None, 1)
    } else {
        let s1 = advance(st);
        proof {
            lemma_advance(st);
        }
        let r = parse_expression_model(s1, Precedence::Lowest);
        match r.value {
            None => outcome(None, 1 + r.consumed, r.errors, r.fits),
            Some(e) => {
                let s2 = advance_n(s1, r.consumed);
                proof {
                    lemma_advance_n(s1, r.consumed);
                }
                let l = arguments_loop_model(s2, seq![e]);
                let used = 1 + r.consumed + l.consumed;
                let errors = r.errors + l.errors;
                let fits = r.fits && l.fits;
                match l.value {
                    None => outcome(None, used, errors, fits),
                    Some(items) => {
                        if advance_n(s2, l.consumed).peek.token_type == end {
                            outcome(Some(items), used + 1, errors, fits)
                        } else {
                            outcome(None, used, errors, fits)
                        }
                    },
                }
            },
        }
    }
}

/// Arguments of a call: `)` or `expression, ..., expression)`. A malformed
/// list yields no arguments.
pub open spec fn parse_call_arguments_model(st: ParserState) -> Outcome<Seq<Expr>>
    decreases remaining(st), 13nat,
{
    let l = parse_list_model(st, TokenType::RightParenthesis);
    let args = match l.value {
        Some(items) => items,
        None => Seq::empty(),
    };
    outcome(args, l.consumed, l.errors, l.fits)
}

/// An array literal: `[` then a list of expressions closed by `]`.
pub open spec fn parse_array_model(st: ParserState) -> Outcome<Option<Expr>>
    decreases remaining(st), 8nat,
{
    let l = parse_list_model(st, TokenType::RightBracket);
    let value = match l.value {
        Some(items) => Some(Expr::Array(items)),
        None => None,
    };
    outcome(value, l.consumed, l.errors, l.fits)
}

/// `, expression` repeated; `None` when an argument fails to parse.
pub open spec fn arguments_loop_model(st: ParserState, args: Seq<Expr>) -> Outcome<Option<Seq<Expr>>>
    decreases remaining(st), 12nat,
{
    if valid_parser_state(st) && st.peek.token_type == TokenType::Comma {
        let s2 = advance(advance(st));
        proof {
            lemma_advance(st);
            lemma_advance(advance(st));
        }
        let r = parse_expression_model(s2, Precedence::Lowest);
        match r.value {
            None => outcome(None, 2 + r.consumed, r.errors, r.fits),
            Some(e) => {
                proof {
                    lemma_advance_n(s2, r.consumed);
                }
                let l = arguments_loop_model(advance_n(s2, r.consumed), args.push(e));
                outcome(l.value, 2 + r.consumed + l.consumed, r.errors + l.errors, r.fits && l.fits)
            },
        }
    } else {
        plain(Some(args), 0)
    }
}

/// A call of the function named by `left`; only a name can be called.
pub open spec fn parse_call_expression_model(st: ParserState, left: Expr) -> Outcome<Option<Expr>>
    decreases remaining(st), 14nat,
{
    match left {
        Expr::Identifier(name) => {
            let a = parse_call_arguments_model(st);
            outcome(Some(Expr::Call { name, arguments: a.value }), a.consumed, a.errors, a.fits)
        },
        _ => none_expr(0),
    }
}

/// A binary operator and its right operand, bound at the operator's precedence.
pub open spec fn parse_infix_model(st: ParserState, left: Expr) -> Outcome<Option<Expr>>
    decreases remaining(st), 14nat,
{
    if !valid_parser_state(st) {
        none_expr(1)
    } else {
        let s1 = advance(st);
        proof {
            lemma_advance(st);
        }
        let r = parse_expression_model(s1, precedence_of(st.current.token_type));
        let value = match r.value {
            Some(right) => Some(Expr::Infix { left: Box::new(left), operator: st.current.literal, right: Box::new(right) }),
            None => None,
        };
        outcome(value, 1 + r.consumed, r.errors, r.fits)
    }
}

pub open spec fn is_binary_operator(t: TokenType) -> bool {
    ||| t == TokenType::Asterisk
    ||| t == TokenType::Slash
    ||| t == TokenType::Plus
    ||| t == TokenType::Minus
    ||| t == TokenType::Equals
    ||| t == TokenType::NotEquals
    ||| t == TokenType::GreaterThan
    ||| t == TokenType::LessThan
    ||| t == TokenType::GreaterThanOrEqual
    ||| t == TokenType::LessThanOrEqual
}

pub open spec fn parse_infix_expression_model(st: ParserState, left: Expr) -> Outcome<Option<Expr>>
    decreases remaining(st), 15nat,
{
    if is_binary_operator(st.current.token_type) {
        parse_infix_model(st, left)
    } else if st.current.token_type == TokenType::LeftParenthesis {
        parse_call_expression_model(st, left)
    } else {
        none_expr(0)
    }
}

/// The statements of a block, from after its `{` up to the matching `}` or
/// the end of the input.
pub open spec fn parse_block_model(st: ParserState) -> Outcome<Seq<Stmt>>
    decreases remaining(st), 18nat,
{
    if !valid_parser_state(st) {
        plain(Seq::empty(), 1)
    } else {
        let s1 = advance(st);
        proof {
            lemma_advance(st);
        }
        let l = block_loop_model(s1, Seq::empty());
        outcome(l.value, 1 + l.consumed, l.errors, l.fits)
    }
}

pub open spec fn block_loop_model(st: ParserState, statements: Seq<Stmt>) -> Outcome<Seq<Stmt>>
    decreases remaining(st), 17nat,
{
    if valid_parser_state(st) && st.current.token_type != TokenType::RightBrace
        && st.current.token_type != TokenType::Eof {
        let r = parse_statement_model(st);
        let kept = match r.value {
            Some(s) => statements.push(s),
            None => statements,
        };
        proof {
            lemma_advance_n(st, r.consumed + 1);
        }
        let l = block_loop_model(advance_n(st, r.consumed + 1), kept);
        outcome(l.value, r.consumed + 1 + l.consumed, r.errors + l.errors, r.fits && l.fits)
    } else {
        plain(statements, 0)
    }
}

pub open spec fn parse_statement_model(st: ParserState) -> Outcome<Option<Stmt>>
    decreases remaining(st), 16nat,
{
    match st.current.token_type {
        TokenType::Val => parse_val_model(st),
        TokenType::Return => parse_return_model(st),
        TokenType::If => parse_if_model(st),
        TokenType::For => parse_for_model(st),
        _ => parse_expression_statement_model(st),
    }
}

pub open spec fn missing_identifier_message() -> Seq<char> {
    "Expected Identifier but not found"@
}

pub open spec fn missing_assignment_message(found: TokenType) -> Seq<char> {
    "Expected Assignment operator but found "@ + token_type_label(found)
}

/// `val name = expression`.
pub open spec fn parse_val_model(st: ParserState) -> Outcome<Option<Stmt>>
    decreases remaining(st), 11nat,
{
    if st.peek.token_type != TokenType::Identifier {
        outcome(None, 0, seq![missing_identifier_message()], true)
    } else {
        let s1 = advance(st);
        let name = s1.current.literal;
        if s1.peek.token_type != TokenType::Assign {
            outcome(None, 1, seq![missing_assignment_message(s1.peek.token_type)], true)
        } else if !valid_parser_state(st) {
            none_stmt(3)
        } else {
            let s3 = advance(advance(s1));
            proof {
                lemma_advance(st);
                lemma_advance(s1);
                lemma_advance(advance(s1));
            }
            let r = parse_expression_model(s3, Precedence::Lowest);
            let value = match r.value {
                Some(e) => Some(Stmt::Val { name, value: e }),
                None => None,
            };
            outcome(value, 3 + r.consumed, r.errors, r.fits)
        }
    }
}

/// `return expression`.
pub open spec fn parse_return_model(st: ParserState) -> Outcome<Option<Stmt>>
    decreases remaining(st), 11nat,
{
    if !valid_parser_state(st) {
        none_stmt(1)
    } else {
        let s1 = advance(st);
        proof {
            lemma_advance(st);
        }
        let r = parse_expression_model(s1, Precedence::Lowest);
        let value = match r.value {
            Some(e) => Some(Stmt::Return { value: e }),
            None => None,
        };
        outcome(value, 1 + r.consumed, r.errors, r.fits)
    }
}

/// `if (condition) { ... }` with an optional `else { ... }`.
pub open spec fn parse_if_model(st: ParserState) -> Outcome<Option<Stmt>>
    decreases remaining(st), 11nat,
{
    if !valid_parser_state(st) || st.peek.token_type != TokenType::LeftParenthesis {
        none_stmt(0)
    } else {
        let s2 = advance(advance(st));
        proof {
            lemma_advance(st);
            lemma_advance(advance(st));
        }
        let r = parse_expression_model(s2, Precedence::Lowest);
        match r.value {
            None => outcome(None, 2 + r.consumed, r.errors, r.fits),
            Some(condition) => {
                let s3 = advance_n(s2, r.consumed);
                proof {
                    lemma_advance_n(s2, r.consumed);
                }
                if s3.peek.token_type != TokenType::RightParenthesis {
                    outcome(None, 2 + r.consumed, r.errors, r.fits)
                } else if advance(s3).peek.token_type != TokenType::LeftBrace {
                    outcome(None, 3 + r.consumed, r.errors, r.fits)
                } else {
                    let s5 = advance(advance(s3));
                    proof {
                        lemma_advance(s3);
                        lemma_advance(advance(s3));
                    }
                    let b = parse_block_model(s5);
                    let s6 = advance_n(s5, b.consumed);
                    let used = 4 + r.consumed + b.consumed;
                    if s6.peek.token_type == TokenType::Else {
                        proof {
                            lemma_advance_n(s5, b.consumed);
                            lemma_advance(s6);
                        }
                        if advance(s6).peek.token_type != TokenType::LeftBrace {
                            outcome(None, used + 1, r.errors + b.errors, r.fits && b.fits)
                        } else {
                            let s8 = advance(advance(s6));
                            proof {
                                lemma_advance(advance(s6));
                            }
                            let e = parse_block_model(s8);
                            outcome(
                                Some(Stmt::If { condition, consequence: b.value, alternative: e.value }),
                                used + 2 + e.consumed,
                                r.errors + b.errors + e.errors,
                                r.fits && b.fits && e.fits,
                            )
                        }
                    } else {
                        outcome(
                            Some(Stmt::If { condition, consequence: b.value, alternative: Seq::empty() }),
                            used,
                            r.errors + b.errors,
                            r.fits && b.fits,
                        )
                    }
                }
            },
        }
    }
}

/// The tokens that close the initialization of a `for` loop: none more when
/// the statement already ended at its `;`, else the `;` that follows it.
pub open spec fn after_initialization(s: ParserState) -> nat {
    if s.current.token_type == TokenType::Semicolon { 0 } else { 1 }
}

/// `for (initialization; condition; update) { ... }`.
pub open spec fn parse_for_model(st: ParserState) -> Outcome<Option<Stmt>>
    decreases remaining(st), 11nat,
{
    if !valid_parser_state(st) || st.peek.token_type != TokenType::LeftParenthesis {
        none_stmt(0)
    } else {
        let s2 = advance(advance(st));
        proof {
            lemma_advance(st);
            lemma_advance(advance(st));
        }
        let a = parse_statement_model(s2);
        match a.value {
            None => outcome(None, 2 + a.consumed, a.errors, a.fits),
            Some(initialization) => {
                let s3 = advance_n(s2, a.consumed);
                let k = after_initialization(s3);
                if k == 1 && s3.peek.token_type != TokenType::Semicolon {
                    outcome(None, 2 + a.consumed, a.errors, a.fits)
                } else {
                    let s4 = advance_n(s3, k + 1);
                    proof {
                        lemma_advance_n(s2, a.consumed);
                        lemma_advance_n(s3, k + 1);
                    }
                    let rest = for_condition_model(s4, initialization);
                    outcome(rest.value, 3 + a.consumed + k + rest.consumed, a.errors + rest.errors, a.fits && rest.fits)
                }
            },
        }
    }
}

/// The rest of a `for` loop after its initialization: the condition and
/// the `;` after it, with the first token of the condition as the current one.
pub open spec fn for_condition_model(st: ParserState, initialization: Stmt) -> Outcome<Option<Stmt>>
    decreases remaining(st), 11nat,
{
    let c = parse_expression_model(st, Precedence::Lowest);
    match c.value {
        None => outcome(None, c.consumed, c.errors, c.fits),
        Some(condition) => {
            let s1 = advance_n(st, c.consumed);
            if !valid_parser_state(st) || s1.peek.token_type != TokenType::Semicolon {
                outcome(None, c.consumed, c.errors, c.fits)
            } else {
                let s2 = advance(advance(s1));
                proof {
                    lemma_advance_n(st, c.consumed);
                    lemma_advance(s1);
                    lemma_advance(advance(s1));
                }
                let rest = for_update_model(s2, initialization, condition);
                outcome(rest.value, c.consumed + 2 + rest.consumed, c.errors + rest.errors, c.fits && rest.fits)
            }
        },
    }
}

/// The rest of a `for` loop after its condition: the update, `)` and the
/// body, with the first token of the update as the current one.
pub open spec fn for_update_model(st: ParserState, initialization: Stmt, condition: Expr) -> Outcome<Option<Stmt>>
    decreases remaining(st), 17nat,
{
    let u = parse_statement_model(st);
    match u.value {
        None => outcome(None, u.consumed, u.errors, u.fits),
        Some(update) => {
            let s1 = advance_n(st, u.consumed);
            if !valid_parser_state(st) || s1.peek.token_type != TokenType::RightParenthesis {
                outcome(None, u.consumed, u.errors, u.fits)
            } else if advance(s1).peek.token_type != TokenType::LeftBrace {
                outcome(None, u.consumed + 1, u.errors, u.fits)
            } else {
                let s3 = advance(advance(s1));
                proof {
                    lemma_advance_n(st, u.consumed);
                    lemma_advance(s1);
                    lemma_advance(advance(s1));
                }
                let b = parse_block_model(s3);
                outcome(
                    Some(Stmt::For {
                        initialization: Box::new(initialization),
                        condition,
                        update: Box::new(update),
                        body: b.value,
                    }),
                    u.consumed + 2 + b.consumed,
                    u.errors + b.errors,
                    u.fits && b.fits,
                )
            }
        },
    }
}

/// An expression used as a statement, with an optional `;` after it.
pub open spec fn parse_expression_statement_model(st: ParserState) -> Outcome<Option<Stmt>>
    decreases remaining(st), 11nat,
{
    let r = parse_expression_model(st, Precedence::Lowest);
    match r.value {
        None => outcome(None, r.consumed, r.errors, r.fits),
        Some(e) => {
            if advance_n(st, r.consumed).peek.token_type == TokenType::Semicolon {
                outcome(Some(Stmt::Expression { expression: e, has_semicolon: true }), r.consumed + 1, r.errors, r.fits)
            } else {
                outcome(Some(Stmt::Expression { expression: e, has_semicolon: false }), r.consumed, r.errors, r.fits)
            }
        },
    }
}

/// The statements of a whole program, up to the first end-of-file token
/// that the parser reaches as its current token.
pub open spec fn program_loop_model(st: ParserState, statements: Seq<Stmt>) -> Outcome<Seq<Stmt>>
    decreases remaining(st),
{
    if valid_parser_state(st) && st.current.token_type != TokenType::Eof {
        let r = parse_statement_model(st);
        let kept = match r.value {
            Some(s) => statements.push(s),
            None => statements,
        };
        proof {
            lemma_advance_n(st, r.consumed + 1);
        }
        let l = program_loop_model(advance_n(st, r.consumed + 1), kept);
        outcome(l.value, r.consumed + 1 + l.consumed, r.errors + l.errors, r.fits && l.fits)
    } else {
        plain(statements, 0)
    }
}

/// The model of an optional expression.
pub open spec fn opt_expr(e: Option<Expression>) -> Option<Expr> {
    match e {
        Some(e) => Some(e@),
        None => None,
    }
}

/// The model of an optional statement.
pub open spec fn opt_stmt(s: Option<Statement>) -> Option<Stmt> {
    match s {
        Some(s) => Some(s@),
        None => None,
    }
}

/// The token that a fresh parser holds before it has read anything.
pub open spec fn blank_token() -> TokenView {
    TokenView { token_type: TokenType::Illegal, literal: Seq::empty() }
}

/// The parser: a recursive-descent parser with precedence climbing for
/// binary operators. It reads its tokens from the lexer that it owns. An
/// integer literal beyond the range of `u64` is read as 0 and marks the
/// parser as overflowed.
pub struct Parser {
    lexer: Lexer,
    current_token: Token,
    peek_token: Token,
    pub errors: Vec<String>,
    overflow: bool,
}

impl View for Parser {
    type V = ParserState;

    closed spec fn view(&self) -> ParserState {
        ParserState { lexer: self.lexer@, current: self.current_token@, peek: self.peek_token@ }
    }
}

impl Parser {
    pub closed spec fn wf(&self) -> bool {
        self.lexer.wf()
    }

    /// Whether an integer literal beyond the range of `u64` has been read
    /// (it is read as 0).
    pub closed spec fn overflowed(&self) -> bool {
        self.overflow
    }

    /// The error messages recorded so far, as character sequences.
    pub closed spec fn error_texts(&self) -> Seq<Seq<char>> {
        self.errors@.map_values(|e: String| e@)
    }

    /// After a parsing step with outcome `o`, the parser has moved past
    /// `o.consumed` tokens from where it was in `before` and has recorded
    /// `o.errors`.
    pub open spec fn moved_by<T>(self, before: Parser, o: Outcome<T>) -> bool {
        &&& self.wf()
        &&& self@ == advance_n(before@, o.consumed)
        &&& self.error_texts() == before.error_texts() + o.errors
        &&& self.overflowed() == (before.overflowed() || !o.fits)
    }

    pub proof fn lemma_valid(&self)
        requires
            self.wf(),
        ensures
            valid_parser_state(self@),
    {
        self.lexer.lemma_wf();
    }

    /// A parser over `lexer`: it reads two tokens so that the first token of
    /// the input is the current one.
    pub fn new(lexer: Lexer) -> (parser: Self)
        requires
            lexer.wf(),
        ensures
            parser.wf(),
            parser@ == advance(advance(ParserState { lexer: lexer@, current: blank_token(), peek: blank_token() })),
            parser.error_texts() == Seq::<Seq<char>>::empty(),
            !parser.overflowed(),
    {
        let mut parser = Parser {
            lexer,
            current_token: Token::new(TokenType::Illegal, String::new()),
            peek_token: Token::new(TokenType::Illegal, String::new()),
            errors: Vec::new(),
            overflow: false,
        };
        parser.next_token();
        parser.next_token();
        assert(parser.error_texts() =~= Seq::<Seq<char>>::empty());
        parser
    }

    /// Moves to the next token: the peeked token becomes the current one and
    /// the lexer supplies the next peeked token (an end-of-file token once
    /// its position counter has no room left).
    pub fn next_token(&mut self)
        requires
            old(self).wf(),
        ensures
            final(self).wf(),
            final(self)@ == advance(old(self)@),
            final(self).error_texts() == old(self).error_texts(),
            final(self).overflowed() == old(self).overflowed(),
    {
        let mut token = if self.lexer.has_room() {
            self.lexer.next_token()
        } else {
            Token::new(TokenType::Eof, String::new())
        };
        std::mem::swap(&mut self.peek_token, &mut token);
        self.current_token = token;
    }

    /// Moves to the next token if it is of the type `expected`.
    pub fn expect_peek(&mut self, expected: TokenType) -> (found: bool)
        requires
            old(self).wf(),
        ensures
            found == (old(self)@.peek.token_type == expected),
            final(self).wf(),
            final(self)@ == (if found { advance(old(self)@) } else { old(self)@ }),
            final(self).error_texts() == old(self).error_texts(),
            final(self).overflowed() == old(self).overflowed(),
    {
        if self.peek_token.token_type == expected {
            self.next_token();
            true
        } else {
            false
        }
    }

    pub fn parse_identifier(&mut self) -> (r: Option<Expression>)
        ensures
            *final(self) == *old(self),
            opt_expr(r) == Some(Expr::Identifier(old(self)@.current.literal)),
    {
        Some(Expression::Identifier(Identifier { value: self.current_token.literal.clone() }))
    }

    /// The integer that the current token denotes; reading one that is not
    /// a `u64` numeral aborts the parse.
    pub fn parse_integer(&mut self) -> (r: Option<Expression>)
        requires
            parsed_u64(old(self)@.current.literal) is Some,
        ensures
            *final(self) == *old(self),
            opt_expr(r) == Some(Expr::Integer(parsed_u64(old(self)@.current.literal).unwrap())),
    {
        let integer = parse_u64(self.current_token.literal.as_str()).unwrap();
        Some(Expression::Integer(integer))
    }

    pub fn parse_string(&mut self) -> (r: Option<Expression>)
        ensures
            *final(self) == *old(self),
            opt_expr(r) == Some(Expr::Str(old(self)@.current.literal)),
    {
        Some(Expression::String(self.current_token.literal.clone()))
    }

    pub fn parse_boolean(&mut self) -> (r: Option<Expression>)
        ensures
            *final(self) == *old(self),
            opt_expr(r) == Some(Expr::Boolean(old(self)@.current.token_type == TokenType::True)),
    {
        let value = self.current_token.token_type == TokenType::True;
        Some(Expression::Boolean(value))
    }

    /// Parameter names of a function, after its opening parenthesis.
    pub fn parse_function_parameters(&mut self) -> (r: Vec<Identifier>)
        requires
            old(self).wf(),
        ensures
            final(self).moved_by(*old(self), parse_function_parameters_model(old(self)@)),
            names_model(r@) == parse_function_parameters_model(old(self)@).value,
    {
        let ghost st = self@;
        proof {
            self.lemma_valid();
            lemma_advance_n_one(st);
        }
        let mut identifiers: Vec<Identifier> = Vec::new();
        if self.expect_peek(TokenType::RightParenthesis) {
            assert(names_model(identifiers@) =~= Seq::<Seq<char>>::empty());
            return identifiers;
        }
        self.next_token();
        let ghost s1 = self@;
        proof {
            self.lemma_valid();
        }
        identifiers.push(Identifier { value: self.current_token.literal.clone() });
        let ghost l0 = parameters_loop_model(s1, seq![s1.current.literal]);
        let ghost mut k: nat = 0;
        proof {
            assert(names_model(identifiers@) =~= seq![s1.current.literal]);
        }
        while self.peek_token.token_type == TokenType::Comma
            invariant
                self.wf(),
                valid_parser_state(s1),
                self.error_texts() == old(self).error_texts(),
                self.overflowed() == old(self).overflowed(),
                self@ == advance_n(s1, k),
                parameters_loop_model(self@, names_model(identifiers@)).value == l0.value,
                k + parameters_loop_model(self@, names_model(identifiers@)).consumed == l0.consumed,
            decreases remaining(self@),
        {
            proof {
                self.lemma_valid();
                lemma_advance(self@);
                lemma_advance(advance(self@));
            }
            let ghost before = self@;
            let ghost old_ids = identifiers@;
            self.next_token();
            self.next_token();
            identifiers.push(Identifier { value: self.current_token.literal.clone() });
            proof {
                assert(names_model(identifiers@) =~= names_model(old_ids).push(self@.current.literal));
                lemma_advance_n_add(s1, k, 2);
                lemma_advance_n_one(before);
                lemma_advance_n_one(advance(before));
                lemma_advance_n_add(before, 1, 1);
                k = k + 2;
            }
        }
        proof {
            self.lemma_valid();
        }
        if !self.expect_peek(TokenType::RightParenthesis) {
            proof {
                lemma_advance_n_add(st, 1, k);
                assert(self.error_texts() =~= old(self).error_texts() + Seq::<Seq<char>>::empty());
            }
            let empty: Vec<Identifier> = Vec::new();
            assert(names_model(empty@) =~= Seq::<Seq<char>>::empty());
            return empty;
        }
        proof {
            lemma_advance_n_add(st, 1, k);
            lemma_advance_n_one(advance_n(st, 1 + k));
            lemma_advance_n_add(st, 1 + k, 1);
            assert(self.error_texts() =~= old(self).error_texts() + Seq::<Seq<char>>::empty());
        }
        identifiers
    }

    /// The error messages recorded so far (the `errors` field).
    pub fn error_messages(&self) -> (messages: &Vec<String>)
        ensures
            messages@.map_values(|e: String| e@) == self.error_texts(),
    {
        &self.errors
    }

    /// Whether an integer literal beyond the range of `u64` has been read.
    pub fn has_overflowed(&self) -> (b: bool)
        ensures
            b == self.overflowed(),
    {
        self.overflow
    }

    /// Whether only end-of-file tokens are left, as current token, as peeked
    /// token and in the lexer.
    fn at_end(&self) -> (done: bool)
        requires
            self.wf(),
        ensures
            done == (remaining(self@) == 0),
    {
        proof {
            self.lemma_valid();
        }
        self.current_token.token_type == TokenType::Eof && self.peek_token.token_type == TokenType::Eof
            && self.lexer.is_exhausted()
    }

    #[verifier::rlimit(100)]
    #[verifier::spinoff_prover]
    pub fn parse_expression(&mut self, precedence: Precedence) -> (r: Option<Expression>)
        requires
            old(self).wf(),
        ensures
            final(self).moved_by(*old(self), parse_expression_model(old(self)@, precedence)),
            opt_expr(r) == parse_expression_model(old(self)@, precedence).value,
        decreases remaining(old(self)@), 10nat,
    {
        let ghost st = self@;
        let ghost e0 = self.error_texts();
        proof {
            self.lemma_valid();
        }
        let ghost p = parse_prefix_expression_model(st);
        let prefix = self.parse_prefix_expression();
        let mut left = match prefix {
            Some(e) => e,
            None => {
                return None;
            },
        };
        let ghost s1 = self@;
        let ghost e1 = self.error_texts();
        let ghost o1 = self.overflowed();
        proof {
            lemma_advance_n(st, p.consumed);
        }
        let ghost l0 = expression_loop_model(s1, left@, precedence);
        let ghost mut k: nat = 0;
        let ghost mut errs: Seq<Seq<char>> = Seq::empty();
        proof {
            assert(errs + l0.errors =~= l0.errors);
            assert(e1 + errs =~= e1);
        }
        while self.peek_token.token_type != TokenType::Semicolon
            && precedence.level() < get_precedence(&self.peek_token).level()
            invariant
                self.wf(),
                valid_parser_state(s1),
                st == old(self)@,
                remaining(self@) <= remaining(st),
                self@ == advance_n(s1, k),
                self.error_texts() == e1 + errs,
                expression_loop_model(self@, left@, precedence).value == l0.value,
                k + expression_loop_model(self@, left@, precedence).consumed == l0.consumed,
                errs + expression_loop_model(self@, left@, precedence).errors == l0.errors,
                (self.overflowed() || !expression_loop_model(self@, left@, precedence).fits) == (o1 || !l0.fits),
            decreases remaining(self@),
        {
            proof {
                self.lemma_valid();
                lemma_advance(self@);
            }
            let ghost before = self@;
            let ghost before_left = left@;
            let ghost before_errors = self.error_texts();
            self.next_token();
            let ghost r = parse_infix_expression_model(self@, left@);
            let infix = self.parse_infix_expression(left.duplicate());
            match infix {
                Some(e) => {
                    left = e;
                },
                None => {},
            }
            proof {
                lemma_advance_n_one(before);
                lemma_advance_n_add(before, 1, r.consumed);
                lemma_advance_n_add(s1, k, 1 + r.consumed);
                lemma_advance_n(advance(before), r.consumed);
                let l_next = expression_loop_model(self@, left@, precedence);
                assert(expression_loop_model(before, before_left, precedence).errors == r.errors + l_next.errors);
                assert(errs + (r.errors + l_next.errors) =~= (errs + r.errors) + l_next.errors);
                assert(e1 + errs + r.errors =~= e1 + (errs + r.errors));
                k = k + 1 + r.consumed;
                errs = errs + r.errors;
            }
        }
        proof {
            lemma_advance_n_add(st, p.consumed, k);
            assert(errs =~= l0.errors);
            assert(e0 + p.errors + l0.errors =~= e0 + (p.errors + l0.errors));
        }
        Some(left)
    }

    pub fn parse_prefix_expression(&mut self) -> (r: Option<Expression>)
        requires
            old(self).wf(),
        ensures
            final(self).moved_by(*old(self), parse_prefix_expression_model(old(self)@)),
            opt_expr(r) == parse_prefix_expression_model(old(self)@).value,
        decreases remaining(old(self)@), 9nat,
    {
        proof {
            assert(self.error_texts() + Seq::<Seq<char>>::empty() =~= self.error_texts());
        }
        match self.current_token.token_type {
            TokenType::Identifier => self.parse_identifier(),
            TokenType::Integer => match parse_u64(self.current_token.literal.as_str()) {
                Some(n) => Some(Expression::Integer(n)),
                None => {
                    self.overflow = true;
                    Some(Expression::Integer(0))
                },
            },
            TokenType::String => self.parse_string(),
            TokenType::True => self.parse_boolean(),
            TokenType::False => self.parse_boolean(),
            TokenType::Bang => self.parse_prefix(),
            TokenType::Minus => self.parse_prefix(),
            TokenType::LeftParenthesis => self.parse_grouped_expression(),
            TokenType::Function => self.parse_function_expression(),
            TokenType::LeftBracket => self.parse_array_expression(),
            _ => None,
        }
    }

    /// A prefix operator and its operand.
    pub fn parse_prefix(&mut self) -> (r: Option<Expression>)
        requires
            old(self).wf(),
        ensures
            final(self).moved_by(*old(self), parse_prefix_model(old(self)@)),
            opt_expr(r) == parse_prefix_model(old(self)@).value,
        decreases remaining(old(self)@), 8nat,
    {
        let ghost st = self@;
        proof {
            self.lemma_valid();
            lemma_advance(st);
            lemma_advance_n_one(st);
            assert(self.error_texts() + Seq::<Seq<char>>::empty() =~= self.error_texts());
        }
        let operator = self.current_token.literal.clone();
        self.next_token();
        if self.at_end() {
            // only end-of-file tokens are left: there is no operand to read
            return None;
        }
        let ghost r = parse_expression_model(self@, Precedence::Prefix);
        let right = self.parse_expression(Precedence::Prefix);
        proof {
            lemma_advance_n_add(st, 1, r.consumed);
        }
        match right {
            Some(right) => Some(Expression::Prefix(PrefixExpression { operator, right: Box::new(right) })),
            None => None,
        }
    }

    /// An expression in parentheses.
    pub fn parse_grouped_expression(&mut self) -> (r: Option<Expression>)
        requires
            old(self).wf(),
        ensures
            final(self).moved_by(*old(self), parse_grouped_model(old(self)@)),
            opt_expr(r) == parse_grouped_model(old(self)@).value,
        decreases remaining(old(self)@), 8nat,
    {
        let ghost st = self@;
        proof {
            self.lemma_valid();
            lemma_advance(st);
            lemma_advance_n_one(st);
            assert(self.error_texts() + Seq::<Seq<char>>::empty() =~= self.error_texts());
        }
        self.next_token();
        if self.at_end() {
            // only end-of-file tokens are left: there is nothing to group
            return None;
        }
        let ghost r = parse_expression_model(self@, Precedence::Lowest);
        let expression = self.parse_expression(Precedence::Lowest);
        proof {
            lemma_advance_n_add(st, 1, r.consumed);
        }
        let expression = match expression {
            Some(e) => e,
            None => {
                return None;
            },
        };
        let ghost s2 = self@;
        if !self.expect_peek(TokenType::RightParenthesis) {
            return None;
        }
        proof {
            lemma_advance_n_one(s2);
            lemma_advance_n_add(st, 1 + r.consumed, 1);
        }
        Some(expression)
    }

    /// `func name(parameters) { body }`, with `func` as the current token.
    pub fn parse_function_expression(&mut self) -> (r: Option<Expression>)
        requires
            old(self).wf(),
        ensures
            final(self).moved_by(*old(self), parse_function_model(old(self)@)),
            opt_expr(r) == parse_function_model(old(self)@).value,
        decreases remaining(old(self)@), 8nat,
    {
        let ghost st = self@;
        proof {
            self.lemma_valid();
            lemma_advance(st);
            lemma_advance_n_one(st);
            assert(self.error_texts() + Seq::<Seq<char>>::empty() =~= self.error_texts());
        }
        if !self.expect_peek(TokenType::Identifier) {
            return None;
        }
        let name = Identifier { value: self.current_token.literal.clone() };
        let ghost s1 = self@;
        proof {
            lemma_advance(s1);
            lemma_advance_n_one(s1);
            lemma_advance_n_add(st, 1, 1);
        }
        if !self.expect_peek(TokenType::LeftParenthesis) {
            return None;
        }
        let ghost s2 = self@;
        let ghost ps = parse_function_parameters_model(s2);
        let parameters = self.parse_function_parameters();
        let ghost s3 = self@;
        proof {
            lemma_advance_n_add(st, 2, ps.consumed);
            lemma_advance_n(s2, ps.consumed);
            lemma_advance(s3);
            lemma_advance_n_one(s3);
            lemma_advance_n_add(st, 2 + ps.consumed, 1);
            assert(self.error_texts() =~= old(self).error_texts());
        }
        if !self.expect_peek(TokenType::LeftBrace) {
            return None;
        }
        let ghost s4 = self@;
        let ghost b = parse_block_model(s4);
        let block = self.parse_block_statement();
        proof {
            lemma_advance_n_add(st, 3 + ps.consumed, b.consumed);
        }
        Some(Expression::Function(FunctionExpression { name, body: block, parameters }))
    }

    /// A list of expressions closed by `end`, after its opening bracket.
    #[verifier::rlimit(100)]
    #[verifier::spinoff_prover]
    fn parse_expression_list(&mut self, end: TokenType) -> (r: Option<Vec<Expression>>)
        requires
            old(self).wf(),
        ensures
            final(self).moved_by(*old(self), parse_list_model(old(self)@, end)),
            match r {
                Some(items) => parse_list_model(old(self)@, end).value == Some(exprs_model(items@)),
                None => parse_list_model(old(self)@, end).value is None,
            },
        decreases remaining(old(self)@), 7nat,
    {
        let ghost st = self@;
        let ghost e0 = self.error_texts();
        proof {
            self.lemma_valid();
            lemma_advance(st);
            lemma_advance_n_one(st);
            assert(e0 + Seq::<Seq<char>>::empty() =~= e0);
        }
        let mut arguments: Vec<Expression> = Vec::new();
        if self.expect_peek(end) {
            proof {
                assert(exprs_model(arguments@) =~= Seq::<Expr>::empty());
            }
            return Some(arguments);
        }
        if self.at_end() {
            self.next_token();
            return None;
        }
        self.next_token();
        let ghost s1 = self@;
        let ghost r = parse_expression_model(s1, Precedence::Lowest);
        let first = self.parse_expression(Precedence::Lowest);
        match first {
            Some(e) => {
                arguments.push(e);
            },
            None => {
                return None;
            },
        }
        let ghost s2 = self@;
        let ghost e2 = self.error_texts();
        let ghost o2 = self.overflowed();
        proof {
            lemma_advance_n(s1, r.consumed);
            lemma_advance_n_add(st, 1, r.consumed);
            lemma_exprs_model_push(Seq::empty(), arguments@[0]);
            assert(arguments@ =~= seq![arguments@[0]]);
        }
        let ghost l0 = arguments_loop_model(s2, exprs_model(arguments@));
        let ghost m = parse_list_model(st, end);
        proof {
            assert(l0.value is None ==> m.value is None && m.consumed == 1 + r.consumed + l0.consumed
                && m.errors == r.errors + l0.errors && m.fits == (r.fits && l0.fits));
        }
        let ghost mut k: nat = 0;
        let ghost mut errs: Seq<Seq<char>> = Seq::empty();
        proof {
            assert(errs + l0.errors =~= l0.errors);
            assert(e2 + errs =~= e2);
        }
        while self.peek_token.token_type == TokenType::Comma
            invariant
                self.wf(),
                valid_parser_state(s2),
                st == old(self)@,
                remaining(self@) <= remaining(st),
                remaining(s2) <= remaining(st),
                self@ == advance_n(s2, k),
                self.error_texts() == e2 + errs,
                s2 == advance_n(st, 1 + r.consumed),
                e0 == old(self).error_texts(),
                e2 == e0 + r.errors,
                m == parse_list_model(st, end),
                l0.value is None ==> m.value is None && m.consumed == 1 + r.consumed + l0.consumed
                    && m.errors == r.errors + l0.errors && m.fits == (r.fits && l0.fits),
                o2 == (old(self).overflowed() || !r.fits),
                arguments_loop_model(self@, exprs_model(arguments@)).value == l0.value,
                k + arguments_loop_model(self@, exprs_model(arguments@)).consumed == l0.consumed,
                errs + arguments_loop_model(self@, exprs_model(arguments@)).errors == l0.errors,
                (self.overflowed() || !arguments_loop_model(self@, exprs_model(arguments@)).fits) == (o2 || !l0.fits),
            decreases remaining(self@),
        {
            proof {
                self.lemma_valid();
                lemma_advance(self@);
                lemma_advance(advance(self@));
            }
            let ghost before = self@;
            let ghost before_args = arguments@;
            self.next_token();
            self.next_token();
            let ghost r2 = parse_expression_model(self@, Precedence::Lowest);
            let expression = self.parse_expression(Precedence::Lowest);
            proof {
                lemma_advance_n_one(before);
                lemma_advance_n_one(advance(before));
                lemma_advance_n_add(before, 1, 1);
                lemma_advance_n_add(before, 2, r2.consumed);
                lemma_advance_n_add(s2, k, 2 + r2.consumed);
                lemma_advance_n(advance(advance(before)), r2.consumed);
            }
            match expression {
                Some(e) => {
                    arguments.push(e);
                    proof {
                        lemma_exprs_model_push(before_args, e);
                        let l_next = arguments_loop_model(self@, exprs_model(arguments@));
                        assert(errs + (r2.errors + l_next.errors) =~= (errs + r2.errors) + l_next.errors);
                        assert(e2 + errs + r2.errors =~= e2 + (errs + r2.errors));
                        k = k + 2 + r2.consumed;
                        errs = errs + r2.errors;
                    }
                },
                None => {
                    proof {
                        lemma_advance_n_add(st, 1 + r.consumed, k + 2 + r2.consumed);
                        assert(l0.errors == errs + r2.errors);
                        assert(e0 + r.errors + errs + r2.errors =~= e0 + (r.errors + l0.errors));
                    }
                    return None;
                },
            }
        }
        proof {
            self.lemma_valid();
            lemma_advance_n_add(st, 1 + r.consumed, k);
            assert(errs =~= l0.errors);
            assert(e0 + r.errors + l0.errors =~= e0 + (r.errors + l0.errors));
        }
        let ghost s3 = self@;
        if !self.expect_peek(end) {
            return None;
        }
        proof {
            lemma_advance_n_one(s3);
            lemma_advance_n_add(st, 1 + r.consumed + k, 1);
        }
        Some(arguments)
    }

    /// The arguments of a call, after its opening parenthesis; a malformed
    /// list yields no arguments.
    pub fn parse_call_arguments(&mut self) -> (r: Vec<Expression>)
        requires
            old(self).wf(),
        ensures
            final(self).moved_by(*old(self), parse_call_arguments_model(old(self)@)),
            exprs_model(r@) == parse_call_arguments_model(old(self)@).value,
        decreases remaining(old(self)@), 13nat,
    {
        match self.parse_expression_list(TokenType::RightParenthesis) {
            Some(items) => items,
            None => {
                let empty: Vec<Expression> = Vec::new();
                proof {
                    assert(exprs_model(empty@) =~= Seq::<Expr>::empty());
                }
                empty
            },
        }
    }

    /// An array literal, with `[` as the current token.
    pub fn parse_array_expression(&mut self) -> (r: Option<Expression>)
        requires
            old(self).wf(),
        ensures
            final(self).moved_by(*old(self), parse_array_model(old(self)@)),
            opt_expr(r) == parse_array_model(old(self)@).value,
        decreases remaining(old(self)@), 8nat,
    {
        match self.parse_expression_list(TokenType::RightBracket) {
            Some(items) => Some(Expression::Array(items)),
            None => None,
        }
    }

    /// A call of the function named by `left`, with `(` as the current token.
    pub fn parse_call_expression(&mut self, left: Expression) -> (r: Option<Expression>)
        requires
            old(self).wf(),
        ensures
            final(self).moved_by(*old(self), parse_call_expression_model(old(self)@, left@)),
            opt_expr(r) == parse_call_expression_model(old(self)@, left@).value,
        decreases remaining(old(self)@), 14nat,
    {
        proof {
            assert(self.error_texts() + Seq::<Seq<char>>::empty() =~= self.error_texts());
        }
        let identifier = match left {
            Expression::Identifier(identifier) => identifier,
            _ => {
                return None;
            },
        };
        let arguments = self.parse_call_arguments();
        Some(Expression::Call(CallExpression { name: identifier, arguments }))
    }

    /// A binary operator, the current token, and its right operand.
    pub fn parse_infix(&mut self, left: Expression) -> (r: Option<Expression>)
        requires
            old(self).wf(),
        ensures
            final(self).moved_by(*old(self), parse_infix_model(old(self)@, left@)),
            opt_expr(r) == parse_infix_model(old(self)@, left@).value,
        decreases remaining(old(self)@), 14nat,
    {
        let ghost st = self@;
        proof {
            self.lemma_valid();
            lemma_advance(st);
            lemma_advance_n_one(st);
        }
        let operator = self.current_token.literal.clone();
        let precedence = get_precedence(&self.current_token);
        self.next_token();
        let ghost r = parse_expression_model(self@, precedence);
        let right = self.parse_expression(precedence);
        proof {
            lemma_advance_n_add(st, 1, r.consumed);
        }
        match right {
            Some(right) => Some(Expression::Infix(InfixExpression {
                left: Box::new(left),
                operator,
                right: Box::new(right),
            })),
            None => None,
        }
    }

    pub fn parse_infix_expression(&mut self, left: Expression) -> (r: Option<Expression>)
        requires
            old(self).wf(),
        ensures
            final(self).moved_by(*old(self), parse_infix_expression_model(old(self)@, left@)),
            opt_expr(r) == parse_infix_expression_model(old(self)@, left@).value,
        decreases remaining(old(self)@), 15nat,
    {
        proof {
            assert(self.error_texts() + Seq::<Seq<char>>::empty() =~= self.error_texts());
        }
        match self.current_token.token_type {
            TokenType::Asterisk => self.parse_infix(left),
            TokenType::Slash => self.parse_infix(left),
            TokenType::Plus => self.parse_infix(left),
            TokenType::Minus => self.parse_infix(left),
            TokenType::Equals => self.parse_infix(left),
            TokenType::NotEquals => self.parse_infix(left),
            TokenType::GreaterThan => self.parse_infix(left),
            TokenType::LessThan => self.parse_infix(left),
            TokenType::GreaterThanOrEqual => self.parse_infix(left),
            TokenType::LessThanOrEqual => self.parse_infix(left),
            TokenType::LeftParenthesis => self.parse_call_expression(left),
            _ => None,
        }
    }

    /// The statements of a block, with `{` as the current token.
    #[verifier::rlimit(100)]
    #[verifier::spinoff_prover]
    pub fn parse_block_statement(&mut self) -> (r: Vec<Statement>)
        requires
            old(self).wf(),
        ensures
            final(self).moved_by(*old(self), parse_block_model(old(self)@)),
            stmts_model(r@) == parse_block_model(old(self)@).value,
        decreases remaining(old(self)@), 18nat,
    {
        let ghost st = self@;
        let ghost e0 = self.error_texts();
        let ghost o0 = self.overflowed();
        proof {
            self.lemma_valid();
            lemma_advance(st);
            lemma_advance_n_one(st);
        }
        let mut statements: Vec<Statement> = Vec::new();
        self.next_token();
        let ghost s1 = self@;
        let ghost l0 = block_loop_model(s1, Seq::empty());
        let ghost mut k: nat = 0;
        let ghost mut errs: Seq<Seq<char>> = Seq::empty();
        proof {
            assert(stmts_model(statements@) =~= Seq::<Stmt>::empty());
            assert(errs + l0.errors =~= l0.errors);
            assert(e0 + errs =~= e0);
        }
        while self.current_token.token_type != TokenType::RightBrace
            && self.current_token.token_type != TokenType::Eof
            invariant
                self.wf(),
                valid_parser_state(s1),
                s1 == advance(st),
                st == old(self)@,
                remaining(self@) <= remaining(st),
                self@ == advance_n(s1, k),
                self.error_texts() == e0 + errs,
                block_loop_model(self@, stmts_model(statements@)).value == l0.value,
                k + block_loop_model(self@, stmts_model(statements@)).consumed == l0.consumed,
                errs + block_loop_model(self@, stmts_model(statements@)).errors == l0.errors,
                (self.overflowed() || !block_loop_model(self@, stmts_model(statements@)).fits) == (o0 || !l0.fits),
            decreases remaining(self@),
        {
            proof {
                self.lemma_valid();
            }
            let ghost before = self@;
            let ghost before_statements = statements@;
            let ghost r = parse_statement_model(before);
            let statement = self.parse_statement();
            match statement {
                Some(s) => {
                    statements.push(s);
                    proof {
                        lemma_stmts_model_push(before_statements, s);
                    }
                },
                None => {
                    proof {
                        assert(statements@ == before_statements);
                    }
                },
            }
            proof {
                lemma_advance_n(before, r.consumed);
                lemma_advance_n_one(self@);
            }
            let ghost mid = self@;
            self.next_token();
            proof {
                lemma_advance_n_add(before, r.consumed, 1);
                lemma_advance_n_add(s1, k, r.consumed + 1);
                lemma_advance_n(before, r.consumed + 1);
                let l_next = block_loop_model(self@, stmts_model(statements@));
                assert(errs + (r.errors + l_next.errors) =~= (errs + r.errors) + l_next.errors);
                assert(e0 + errs + r.errors =~= e0 + (errs + r.errors));
                k = k + r.consumed + 1;
                errs = errs + r.errors;
            }
        }
        proof {
            lemma_advance_n_add(st, 1, k);
            assert(errs =~= l0.errors);
        }
        statements
    }

    pub fn parse_statement(&mut self) -> (r: Option<Statement>)
        requires
            old(self).wf(),
        ensures
            final(self).moved_by(*old(self), parse_statement_model(old(self)@)),
            opt_stmt(r) == parse_statement_model(old(self)@).value,
        decreases remaining(old(self)@), 16nat,
    {
        match self.current_token.token_type {
            TokenType::Val => self.parse_let_statement(),
            TokenType::Return => self.parse_return_statement(),
            TokenType::If => self.parse_if_statement(),
            TokenType::For => self.parse_for_statement(),
            _ => self.parse_expression_statement(),
        }
    }

    /// `val name = expression`, with `val` as the current token.
    pub fn parse_let_statement(&mut self) -> (r: Option<Statement>)
        requires
            old(self).wf(),
        ensures
            final(self).moved_by(*old(self), parse_val_model(old(self)@)),
            opt_stmt(r) == parse_val_model(old(self)@).value,
        decreases remaining(old(self)@), 11nat,
    {
        let ghost st = self@;
        let ghost e0 = self.error_texts();
        proof {
            self.lemma_valid();
            lemma_advance(st);
            lemma_advance_n_one(st);
        }
        if !self.expect_peek(TokenType::Identifier) {
            let message = String::from_str("Expected Identifier but not found");
            self.errors.push(message);
            proof {
                assert(self.error_texts() =~= e0 + seq![message@]);
            }
            return None;
        }
        let name = self.current_token.literal.clone();
        let ghost s1 = self@;
        proof {
            lemma_advance(s1);
        }
        if !self.expect_peek(TokenType::Assign) {
            let mut message = String::from_str("Expected Assignment operator but found ");
            message.append(token_type_name(self.peek_token.token_type));
            self.errors.push(message);
            proof {
                assert(self.error_texts() =~= e0 + seq![message@]);
            }
            return None;
        }
        proof {
            lemma_advance(advance(s1));
            assert(e0 + Seq::<Seq<char>>::empty() =~= e0);
        }
        self.next_token();
        let ghost s3 = self@;
        proof {
            lemma_advance_n_one(s1);
            lemma_advance_n_one(advance(s1));
            lemma_advance_n_add(st, 1, 1);
            lemma_advance_n_add(st, 2, 1);
        }
        let ghost r = parse_expression_model(s3, Precedence::Lowest);
        let expression = self.parse_expression(Precedence::Lowest);
        proof {
            lemma_advance_n_add(st, 3, r.consumed);
        }
        match expression {
            Some(value) => Some(Statement::Val(ValStatement { value, name: Identifier { value: name } })),
            None => None,
        }
    }

    /// `return expression`, with `return` as the current token.
    pub fn parse_return_statement(&mut self) -> (r: Option<Statement>)
        requires
            old(self).wf(),
        ensures
            final(self).moved_by(*old(self), parse_return_model(old(self)@)),
            opt_stmt(r) == parse_return_model(old(self)@).value,
        decreases remaining(old(self)@), 11nat,
    {
        let ghost st = self@;
        proof {
            self.lemma_valid();
            lemma_advance(st);
            lemma_advance_n_one(st);
        }
        self.next_token();
        let ghost r = parse_expression_model(self@, Precedence::Lowest);
        let return_value = self.parse_expression(Precedence::Lowest);
        proof {
            lemma_advance_n_add(st, 1, r.consumed);
        }
        match return_value {
            Some(return_value) => Some(Statement::Return(ReturnStatement { return_value })),
            None => None,
        }
    }

    /// `if (condition) { ... } else { ... }`, with `if` as the current token.
    #[verifier::rlimit(100)]
    #[verifier::spinoff_prover]
    pub fn parse_if_statement(&mut self) -> (r: Option<Statement>)
        requires
            old(self).wf(),
        ensures
            final(self).moved_by(*old(self), parse_if_model(old(self)@)),
            opt_stmt(r) == parse_if_model(old(self)@).value,
        decreases remaining(old(self)@), 11nat,
    {
        let ghost st = self@;
        let ghost e0 = self.error_texts();
        proof {
            self.lemma_valid();
            lemma_advance(st);
            lemma_advance(advance(st));
            lemma_advance_n_one(st);
            lemma_advance_n_one(advance(st));
            lemma_advance_n_add(st, 1, 1);
            assert(e0 + Seq::<Seq<char>>::empty() =~= e0);
        }
        if !self.expect_peek(TokenType::LeftParenthesis) {
            return None;
        }
        self.next_token();
        let ghost s2 = self@;
        let ghost r = parse_expression_model(s2, Precedence::Lowest);
        let condition = self.parse_expression(Precedence::Lowest);
        proof {
            lemma_advance_n_add(st, 2, r.consumed);
            lemma_advance_n(s2, r.consumed);
        }
        let condition = match condition {
            Some(c) => c,
            None => {
                return None;
            },
        };
        let ghost s3 = self@;
        proof {
            lemma_advance(s3);
            lemma_advance(advance(s3));
            lemma_advance_n_one(s3);
            lemma_advance_n_one(advance(s3));
            lemma_advance_n_add(st, 2 + r.consumed, 1);
            lemma_advance_n_add(st, 3 + r.consumed, 1);
        }
        if !self.expect_peek(TokenType::RightParenthesis) {
            return None;
        }
        if !self.expect_peek(TokenType::LeftBrace) {
            return None;
        }
        let ghost s5 = self@;
        let ghost b = parse_block_model(s5);
        let consequence = self.parse_block_statement();
        let ghost s6 = self@;
        proof {
            lemma_advance_n_add(st, 4 + r.consumed, b.consumed);
            lemma_advance_n(s5, b.consumed);
            lemma_advance(s6);
            lemma_advance(advance(s6));
            lemma_advance_n_one(s6);
            lemma_advance_n_one(advance(s6));
        }
        let mut alternative: Vec<Statement> = Vec::new();
        if self.peek_token.token_type == TokenType::Else {
            self.next_token();
            proof {
                lemma_advance_n_add(st, 4 + r.consumed + b.consumed, 1);
            }
            if !self.expect_peek(TokenType::LeftBrace) {
                proof {
                    assert(e0 + r.errors + b.errors =~= e0 + (r.errors + b.errors));
                }
                return None;
            }
            proof {
                lemma_advance_n_add(st, 5 + r.consumed + b.consumed, 1);
            }
            let ghost s8 = self@;
            let ghost e = parse_block_model(s8);
            alternative = self.parse_block_statement();
            proof {
                lemma_advance_n_add(st, 6 + r.consumed + b.consumed, e.consumed);
                assert(e0 + r.errors + b.errors + e.errors =~= e0 + (r.errors + b.errors + e.errors));
            }
        } else {
            proof {
                assert(stmts_model(alternative@) =~= Seq::<Stmt>::empty());
                assert(e0 + r.errors + b.errors =~= e0 + (r.errors + b.errors));
            }
        }
        Some(Statement::If(IfStatement { condition: Box::new(condition), consequence, alternative }))
    }

    /// `for (initialization; condition; update) { ... }`, with `for` as the
    /// current token.
    #[verifier::rlimit(100)]
    #[verifier::spinoff_prover]
    pub fn parse_for_statement(&mut self) -> (r: Option<Statement>)
        requires
            old(self).wf(),
        ensures
            final(self).moved_by(*old(self), parse_for_model(old(self)@)),
            opt_stmt(r) == parse_for_model(old(self)@).value,
        decreases remaining(old(self)@), 11nat,
    {
        let ghost st = self@;
        let ghost e0 = self.error_texts();
        proof {
            self.lemma_valid();
            lemma_advance(st);
            lemma_advance(advance(st));
            lemma_advance_n_one(st);
            lemma_advance_n_one(advance(st));
            lemma_advance_n_add(st, 1, 1);
            assert(e0 + Seq::<Seq<char>>::empty() =~= e0);
        }
        if !self.expect_peek(TokenType::LeftParenthesis) {
            return None;
        }
        self.next_token();
        let ghost s2 = self@;
        let ghost a = parse_statement_model(s2);
        let initialization = self.parse_statement();
        proof {
            lemma_advance_n_add(st, 2, a.consumed);
            lemma_advance_n(s2, a.consumed);
        }
        let initialization = match initialization {
            Some(s) => s,
            None => {
                return None;
            },
        };
        let ghost s3 = self@;
        let ghost k = after_initialization(s3);
        proof {
            lemma_advance(s3);
            lemma_advance_n_one(s3);
            lemma_advance_n_add(st, 2 + a.consumed, 1);
        }
        if self.current_token.token_type != TokenType::Semicolon {
            if !self.expect_peek(TokenType::Semicolon) {
                return None;
            }
        }
        let ghost s3k = self@;
        proof {
            assert(s3k == advance_n(s3, k));
            lemma_advance_n(s3, k);
            lemma_advance_n_add(st, 2 + a.consumed, k);
            lemma_advance_n_add(s3, k, 1);
            lemma_advance_n_one(s3k);
            lemma_advance(s3k);
            lemma_advance_n_add(st, 2 + a.consumed + k, 1);
        }
        self.next_token();
        let ghost s4 = self@;
        let ghost rest = for_condition_model(s4, initialization@);
        let r = self.parse_for_condition(initialization);
        proof {
            lemma_advance_n_add(st, 3 + a.consumed + k, rest.consumed);
            assert(e0 + a.errors + rest.errors =~= e0 + (a.errors + rest.errors));
        }
        r
    }

    /// The condition of a `for` loop and what follows it.
    #[verifier::rlimit(100)]
    #[verifier::spinoff_prover]
    fn parse_for_condition(&mut self, initialization: Statement) -> (r: Option<Statement>)
        requires
            old(self).wf(),
        ensures
            final(self).moved_by(*old(self), for_condition_model(old(self)@, initialization@)),
            opt_stmt(r) == for_condition_model(old(self)@, initialization@).value,
        decreases remaining(old(self)@), 11nat,
    {
        let ghost st = self@;
        let ghost e0 = self.error_texts();
        proof {
            self.lemma_valid();
        }
        let ghost c = parse_expression_model(st, Precedence::Lowest);
        let condition = self.parse_expression(Precedence::Lowest);
        proof {
            lemma_advance_n(st, c.consumed);
        }
        let condition = match condition {
            Some(e) => e,
            None => {
                return None;
            },
        };
        let ghost s1 = self@;
        proof {
            lemma_advance(s1);
            lemma_advance(advance(s1));
            lemma_advance_n_one(s1);
            lemma_advance_n_one(advance(s1));
            lemma_advance_n_add(st, c.consumed, 1);
            lemma_advance_n_add(st, c.consumed + 1, 1);
        }
        if !self.expect_peek(TokenType::Semicolon) {
            return None;
        }
        self.next_token();
        let ghost s2 = self@;
        let ghost rest = for_update_model(s2, initialization@, condition@);
        let r = self.parse_for_update(initialization, condition);
        proof {
            lemma_advance_n_add(st, c.consumed + 2, rest.consumed);
            assert(e0 + c.errors + rest.errors =~= e0 + (c.errors + rest.errors));
        }
        r
    }

    /// The update and the body of a `for` loop.
    #[verifier::rlimit(100)]
    #[verifier::spinoff_prover]
    fn parse_for_update(&mut self, initialization: Statement, condition: Expression) -> (r: Option<Statement>)
        requires
            old(self).wf(),
        ensures
            final(self).moved_by(*old(self), for_update_model(old(self)@, initialization@, condition@)),
            opt_stmt(r) == for_update_model(old(self)@, initialization@, condition@).value,
        decreases remaining(old(self)@), 17nat,
    {
        let ghost st = self@;
        let ghost e0 = self.error_texts();
        proof {
            self.lemma_valid();
        }
        let ghost u = parse_statement_model(st);
        let update = self.parse_statement();
        proof {
            lemma_advance_n(st, u.consumed);
        }
        let update = match update {
            Some(s) => s,
            None => {
                return None;
            },
        };
        let ghost s1 = self@;
        proof {
            lemma_advance(s1);
            lemma_advance(advance(s1));
            lemma_advance_n_one(s1);
            lemma_advance_n_one(advance(s1));
            lemma_advance_n_add(st, u.consumed, 1);
            lemma_advance_n_add(st, u.consumed + 1, 1);
        }
        if !self.expect_peek(TokenType::RightParenthesis) {
            return None;
        }
        if !self.expect_peek(TokenType::LeftBrace) {
            return None;
        }
        let ghost s3 = self@;
        let ghost b = parse_block_model(s3);
        let body = self.parse_block_statement();
        proof {
            lemma_advance_n_add(st, u.consumed + 2, b.consumed);
            assert(e0 + u.errors + b.errors =~= e0 + (u.errors + b.errors));
        }
        Some(Statement::For(ForStatement {
            initialization: Box::new(initialization),
            condition,
            update: Box::new(update),
            body,
        }))
    }

    /// An expression as a statement, with an optional `;` after it.
    pub fn parse_expression_statement(&mut self) -> (r: Option<Statement>)
        requires
            old(self).wf(),
        ensures
            final(self).moved_by(*old(self), parse_expression_statement_model(old(self)@)),
            opt_stmt(r) == parse_expression_statement_model(old(self)@).value,
        decreases remaining(old(self)@), 11nat,
    {
        let ghost st = self@;
        let ghost r = parse_expression_model(st, Precedence::Lowest);
        let expression = self.parse_expression(Precedence::Lowest);
        let expression = match expression {
            Some(e) => e,
            None => {
                return None;
            },
        };
        let ghost s1 = self@;
        let mut has_semicolon = false;
        if self.peek_token.token_type == TokenType::Semicolon {
            self.next_token();
            has_semicolon = true;
            proof {
                lemma_advance_n_one(s1);
                lemma_advance_n_add(st, r.consumed, 1);
            }
        }
        Some(Statement::Expression(ExpressionStatement { expression, has_semicolon }))
    }

    /// The statements of the whole input, up to the end-of-file token.
    pub fn parse_program(&mut self) -> (program: Program)
        requires
            old(self).wf(),
        ensures
            final(self).moved_by(*old(self), program_loop_model(old(self)@, Seq::empty())),
            stmts_model(program.statements@) == program_loop_model(old(self)@, Seq::empty()).value,
    {
        let ghost st = self@;
        let ghost e0 = self.error_texts();
        let ghost o0 = self.overflowed();
        let mut program = Program { statements: Vec::new() };
        let ghost l0 = program_loop_model(st, Seq::empty());
        let ghost mut k: nat = 0;
        let ghost mut errs: Seq<Seq<char>> = Seq::empty();
        proof {
            self.lemma_valid();
            assert(stmts_model(program.statements@) =~= Seq::<Stmt>::empty());
            assert(errs + l0.errors =~= l0.errors);
            assert(e0 + errs =~= e0);
        }
        while self.current_token.token_type != TokenType::Eof
            invariant
                self.wf(),
                valid_parser_state(st),
                self@ == advance_n(st, k),
                self.error_texts() == e0 + errs,
                program_loop_model(self@, stmts_model(program.statements@)).value == l0.value,
                k + program_loop_model(self@, stmts_model(program.statements@)).consumed == l0.consumed,
                errs + program_loop_model(self@, stmts_model(program.statements@)).errors == l0.errors,
                (self.overflowed() || !program_loop_model(self@, stmts_model(program.statements@)).fits) == (o0 || !l0.fits),
            decreases remaining(self@),
        {
            proof {
                self.lemma_valid();
            }
            let ghost before = self@;
            let ghost before_statements = program.statements@;
            let ghost r = parse_statement_model(before);
            let statement = self.parse_statement();
            match statement {
                Some(s) => {
                    program.statements.push(s);
                    proof {
                        lemma_stmts_model_push(before_statements, s);
                    }
                },
                None => {},
            }
            proof {
                lemma_advance_n(before, r.consumed);
                lemma_advance_n_one(self@);
            }
            self.next_token();
            proof {
                lemma_advance_n_add(before, r.consumed, 1);
                lemma_advance_n_add(st, k, r.consumed + 1);
                lemma_advance_n(before, r.consumed + 1);
                let l_next = program_loop_model(self@, stmts_model(program.statements@));
                assert(errs + (r.errors + l_next.errors) =~= (errs + r.errors) + l_next.errors);
                assert(e0 + errs + r.errors =~= e0 + (errs + r.errors));
                k = k + r.consumed + 1;
                errs = errs + r.errors;
            }
        }
        proof {
            assert(errs =~= l0.errors);
        }
        program
    }
}

/// The parser state right after `Parser::new` on a lexer over `input`.
pub open spec fn start_parser_state(input: Seq<u8>) -> ParserState {
    advance(advance(ParserState { lexer: LexerState::start(input), current: blank_token(), peek: blank_token() }))
}

/// Parses a whole source text. `None` when the parse reads an integer
/// literal that does not fit in a `u64`.
pub fn parse_source(input: String) -> (r: Option<Program>)
    requires
        encode_utf8(input@).len() + 4 < usize::MAX,
    ensures
        r is Some <==> program_loop_model(start_parser_state(encode_utf8(input@)), Seq::empty()).fits,
        r matches Some(program) ==> stmts_model(program.statements@)
            == program_loop_model(start_parser_state(encode_utf8(input@)), Seq::empty()).value,
{
    let mut parser = Parser::new(Lexer::new(input));
    let program = parser.parse_program();
    if parser.has_overflowed() {
        None
    } else {
        Some(program)
    }
}

pub proof fn lemma_advance_n_one(st: ParserState)
    ensures
        advance_n(st, 1) == advance(st),
{
    assert(advance_n(advance(st), 0) == advance(st));
}

} // verus!
