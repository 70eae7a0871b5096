use vstd::prelude::*;
use crate::ast::{Expr, Stmt};
use crate::eval::{Bindings, Store, eval_expr_model, eval_stmt_model, eval_block_model};
use crate::lexer::{
    LexerState, next_token_model, valid_state, has_room, mk_token, token_shaped, lemma_next_token_valid,
    lemma_next_token_shaped,
};
use crate::object::Value;
use crate::stream::{
    token_at, lexed, no_nul, lemma_eof_past_end, lemma_stays_past_end, lemma_lexed_add,
    lemma_lexed_input, lemma_before_eof, all_spaces, lemma_leading_spaces,
};
use crate::parser::{
    ParserState, program_loop_model, advance_n, valid_parser_state, remaining, lemma_advance_n,
    lemma_advance_n_add,
};
use crate::token::TokenType;

verus! {

/// Once the input is exhausted, the lexer yields an end-of-file token and
/// moves on by one position, staying past the end.
pub proof fn law_exhausted_lexer_yields_eof(s: LexerState)
    requires
        valid_state(s),
        has_room(s),
        s.position >= s.input.len(),
    ensures
        next_token_model(s) == (mk_token(TokenType::Eof, Seq::<char>::empty()), s.advanced()),
        s.advanced().position == s.position + 1,
{
    lemma_next_token_valid(s);
}

/// Before the end of the input, every token moves the lexer forward.
pub proof fn law_lexer_moves_forward(s: LexerState)
    requires
        valid_state(s),
        s.position < s.input.len(),
    ensures
        next_token_model(s).1.position > s.position,
        valid_state(next_token_model(s).1),
{
    lemma_next_token_valid(s);
}

/// The text of every integer token is a non-empty string of decimal digits.
pub proof fn law_integer_tokens_are_digits(s: LexerState)
    requires
        valid_state(s),
    ensures
        token_shaped(next_token_model(s).0),
{
    lemma_next_token_shaped(s);
}

/// A variable reads back the value that `val` bound to it.
pub proof fn law_val_then_read(name: Seq<char>, value: Expr, env: Bindings, functions: Store, fuel: nat, later: nat)
    requires
        eval_stmt_model(Stmt::Val { name, value }, env, functions, fuel) is Some,
        later > 0,
    ensures
        ({
            let (v, env2, fs2) = eval_stmt_model(Stmt::Val { name, value }, env, functions, fuel).unwrap();
            &&& v == Value::Null
            &&& eval_expr_model(Expr::Identifier(name), env2, fs2, later)
                == Some((eval_expr_model(value, env, functions, (fuel - 1) as nat).unwrap().0, fs2))
        }),
{
}

/// Evaluating a function definition yields the function and makes it
/// callable by its name.
pub proof fn law_definition_registers_function(
    name: Seq<char>,
    body: Seq<Stmt>,
    parameters: Seq<Seq<char>>,
    env: Bindings,
    functions: Store,
    fuel: nat,
)
    requires
        fuel > 0,
    ensures
        ({
            let f = Value::Function { name, parameters, body };
            eval_expr_model(Expr::Function { name, body, parameters }, env, functions, fuel)
                == Some((f, functions.define(name, f)))
        }),
{
}

/// A `return` ends a block: the statements after it are not run, and the
/// block yields the returned value wrapped as a return value.
pub proof fn law_return_ends_block(value: Expr, rest: Seq<Stmt>, env: Bindings, functions: Store, fuel: nat)
    requires
        eval_expr_model(value, env, functions, fuel) is Some,
    ensures
        ({
            let (v, fs) = eval_expr_model(value, env, functions, fuel).unwrap();
            eval_block_model(seq![Stmt::Return { value }] + rest, 0, Value::Null, env, functions, fuel + 1)
                == Some((Value::Return(Box::new(v)), env, fs))
        }),
{
    let s = seq![Stmt::Return { value }] + rest;
    assert(s[0] == Stmt::Return { value });
    let (v, fs) = eval_expr_model(value, env, functions, fuel).unwrap();
    assert(eval_stmt_model(Stmt::Return { value }, env, functions, fuel + 1) == Some((Value::Return(Box::new(v)), env, fs)));
}

/// A program is read to its end: after the statements of a program have
/// been parsed, the current token is the end-of-file token.
pub proof fn law_program_reads_to_end(st: ParserState, statements: Seq<Stmt>)
    requires
        valid_parser_state(st),
    ensures
        advance_n(st, program_loop_model(st, statements).consumed).current.token_type == TokenType::Eof,
    decreases remaining(st),
{
    if st.current.token_type != TokenType::Eof {
        let r = crate::parser::parse_statement_model(st);
        let kept = match r.value {
            Some(s) => statements.push(s),
            None => statements,
        };
        let next = advance_n(st, r.consumed + 1);
        lemma_advance_n(st, r.consumed + 1);
        law_program_reads_to_end(next, kept);
        lemma_advance_n_add(st, r.consumed + 1, program_loop_model(next, kept).consumed);
    }
}

/// In an input without NUL bytes, the first end-of-file token is followed
/// only by end-of-file tokens, each with no text.
pub proof fn law_eof_is_final(s: LexerState, k: nat, m: nat)
    requires
        no_nul(s.input),
        token_at(s, k).token_type == TokenType::Eof,
        k <= m,
    ensures
        token_at(s, m) == mk_token(TokenType::Eof, Seq::<char>::empty()),
{
    lemma_lexed_input(s, k);
    lemma_eof_past_end(lexed(s, k));
    if m > k {
        let after = lexed(s, k + 1);
        lemma_stays_past_end(after, (m - k - 1) as nat);
        lemma_lexed_add(s, k + 1, (m - k - 1) as nat);
    }
}

/// Before the first end-of-file token, each token moves the lexer forward
/// by at least one byte, so at most as many tokens come before it as there
/// are bytes left to read.
pub proof fn law_tokens_before_eof_are_bounded(s: LexerState, k: nat)
    requires
        valid_state(s),
        s.position <= s.input.len(),
        forall|j: nat| j < k ==> (#[trigger] token_at(s, j)).token_type != TokenType::Eof,
    ensures
        k <= s.input.len() - s.position,
        lexed(s, k).position >= s.position + k,
{
    lemma_before_eof(s, k);
}

/// Whitespace before the first token does not change the tokens: an input
/// read with some ASCII whitespace in front yields the same tokens.
pub proof fn law_leading_whitespace_changes_nothing(w: Seq<u8>, t: Seq<u8>, k: nat)
    requires
        all_spaces(w),
    ensures
        token_at(LexerState::start(w + t), k) == token_at(LexerState::start(t), k),
{
    lemma_leading_spaces(w, t, k);
}

} // verus!
