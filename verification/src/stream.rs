use vstd::prelude::*;
use crate::lexer::{
    LexerState, next_token_model, valid_state, mk_token, spaces, comment_chars, string_chars,
    identifier_chars, digits, is_whitespace, lemma_next_token_valid, lemma_skip_while_forward,
};
use crate::text::byte_at;
use crate::token::{TokenType, TokenView};

verus! {

/// The lexer state after `k` tokens have been read from `s`.
pub open spec fn lexed(s: LexerState, k: nat) -> LexerState
    decreases k,
{
    if k == 0 {
        s
    } else {
        next_token_model(lexed(s, (k - 1) as nat)).1
    }
}

/// The token that the `k`-th call (counting from 0) of the lexer yields
/// from `s`.
pub open spec fn token_at(s: LexerState, k: nat) -> TokenView {
    next_token_model(lexed(s, k)).0
}

/// No byte of `b` is NUL.
pub open spec fn no_nul(b: Seq<u8>) -> bool {
    forall|i: int| 0 <= i < b.len() ==> #[trigger] b[i] != 0
}

/// The bytes that a lexer in state `s` has still to read.
pub open spec fn rest_of(s: LexerState) -> Seq<u8> {
    if s.position <= s.input.len() {
        s.input.subrange(s.position as int, s.input.len() as int)
    } else {
        Seq::empty()
    }
}

/// Reading a token leaves the input as it is.
pub proof fn lemma_next_input(s: LexerState)
    ensures
        next_token_model(s).1.input == s.input,
    decreases s.input.len() - s.position,
{
    let s0 = s.skip_while(spaces());
    lemma_skip_while_forward(s, spaces());
    let c = s0.ch();
    let a = s0.advanced();
    lemma_skip_while_forward(a, crate::lexer::string_chars());
    lemma_skip_while_forward(s0, crate::lexer::identifier_chars());
    lemma_skip_while_forward(s0, crate::lexer::digits());
    if c == 96 && s0.position < s0.input.len() {
        let s1 = a.skip_while(crate::lexer::comment_chars());
        lemma_skip_while_forward(a, crate::lexer::comment_chars());
        let s2 = if s1.ch() == 96 { s1.advanced() } else { s1 };
        lemma_next_input(s2);
    }
}

pub proof fn lemma_lexed_input(s: LexerState, k: nat)
    ensures
        lexed(s, k).input == s.input,
    decreases k,
{
    if k > 0 {
        lemma_lexed_input(s, (k - 1) as nat);
        lemma_next_input(lexed(s, (k - 1) as nat));
    }
}

/// Past the end of its input the lexer yields an end-of-file token with no
/// text and moves on by one position.
pub proof fn lemma_past_end(s: LexerState)
    requires
        s.position >= s.input.len(),
    ensures
        next_token_model(s) == (mk_token(TokenType::Eof, Seq::<char>::empty()), s.advanced()),
        s.advanced().position > s.input.len(),
        s.advanced().input == s.input,
{
    assert(s.skip_while(spaces()) == s);
}

/// Without a NUL byte, an end-of-file token leaves the lexer past the end.
pub proof fn lemma_eof_past_end(s: LexerState)
    requires
        no_nul(s.input),
        next_token_model(s).0.token_type == TokenType::Eof,
    ensures
        next_token_model(s).0 == mk_token(TokenType::Eof, Seq::<char>::empty()),
        next_token_model(s).1.position > s.input.len(),
        next_token_model(s).1.input == s.input,
    decreases s.input.len() - s.position,
{
    let s0 = s.skip_while(spaces());
    lemma_skip_while_forward(s, spaces());
    let c = s0.ch();
    if c == 96 && s0.position < s0.input.len() {
        let a = s0.advanced();
        let s1 = a.skip_while(crate::lexer::comment_chars());
        lemma_skip_while_forward(a, crate::lexer::comment_chars());
        let s2 = if s1.ch() == 96 { s1.advanced() } else { s1 };
        lemma_eof_past_end(s2);
    } else if c == 0 {
        if s0.position < s0.input.len() {
            assert(s0.input[s0.position as int] != 0);
        }
    }
}

/// Once past the end, every further token is an end-of-file token with no
/// text.
pub proof fn lemma_stays_past_end(s: LexerState, k: nat)
    requires
        s.position >= s.input.len(),
    ensures
        token_at(s, k) == mk_token(TokenType::Eof, Seq::<char>::empty()),
        lexed(s, k).position >= s.input.len(),
        lexed(s, k).input == s.input,
    decreases k,
{
    if k > 0 {
        lemma_stays_past_end(s, (k - 1) as nat);
        lemma_past_end(lexed(s, (k - 1) as nat));
    }
    lemma_past_end(lexed(s, k));
}

/// Reading tokens one after the other: the state after `j + k` tokens is
/// the state after `k` tokens read from the state after `j`.
pub proof fn lemma_lexed_add(s: LexerState, j: nat, k: nat)
    ensures
        lexed(lexed(s, j), k) == lexed(s, j + k),
    decreases k,
{
    if k > 0 {
        lemma_lexed_add(s, j, (k - 1) as nat);
    }
}

/// Before the first end-of-file token every token starts inside the input
/// and moves the lexer forward.
pub proof fn lemma_before_eof(s: LexerState, k: nat)
    requires
        valid_state(s),
        s.position <= s.input.len(),
        forall|j: nat| j < k ==> (#[trigger] token_at(s, j)).token_type != TokenType::Eof,
    ensures
        valid_state(lexed(s, k)),
        lexed(s, k).input == s.input,
        lexed(s, k).position >= s.position + k,
        k > 0 ==> s.position + k <= s.input.len(),
        lexed(s, k).position <= s.input.len() + 1,
    decreases k,
{
    if k > 0 {
        let j = (k - 1) as nat;
        lemma_before_eof(s, j);
        let t = lexed(s, j);
        assert(token_at(s, j).token_type != TokenType::Eof);
        if t.position >= t.input.len() {
            lemma_past_end(t);
        }
        lemma_next_token_valid(t);
    }
}

/// Two states with the same bytes left to read see the same bytes ahead.
pub proof fn lemma_rest_bytes(a: LexerState, b: LexerState, i: int)
    requires
        rest_of(a) == rest_of(b),
        i >= 0,
    ensures
        byte_at(a.input, a.position + i) == byte_at(b.input, b.position + i),
        (a.position < a.input.len()) == (b.position < b.input.len()),
{
    let r = rest_of(a);
    if a.position < a.input.len() {
        assert(r.len() > 0);
    }
    if b.position < b.input.len() {
        assert(rest_of(b).len() > 0);
    }
    if i < r.len() {
        assert(r[i] == rest_of(b)[i]);
    }
}

pub proof fn lemma_rest_advanced(a: LexerState, b: LexerState)
    requires
        rest_of(a) == rest_of(b),
    ensures
        rest_of(a.advanced()) == rest_of(b.advanced()),
{
    lemma_rest_bytes(a, b, 0);
    if a.position < a.input.len() {
        assert(rest_of(a.advanced()) =~= rest_of(a).subrange(1, rest_of(a).len() as int));
        assert(rest_of(b.advanced()) =~= rest_of(b).subrange(1, rest_of(b).len() as int));
    } else {
        assert(rest_of(a.advanced()) =~= Seq::<u8>::empty());
        assert(rest_of(b.advanced()) =~= Seq::<u8>::empty());
    }
}

pub proof fn lemma_rest_skip(a: LexerState, b: LexerState, keep: spec_fn(u8) -> bool)
    requires
        rest_of(a) == rest_of(b),
    ensures
        rest_of(a.skip_while(keep)) == rest_of(b.skip_while(keep)),
        a.skip_while(keep).position - a.position == b.skip_while(keep).position - b.position,
    decreases a.input.len() - a.position,
{
    lemma_rest_bytes(a, b, 0);
    if keep(a.ch()) && a.position < a.input.len() {
        lemma_rest_advanced(a, b);
        lemma_rest_skip(a.advanced(), b.advanced(), keep);
    }
}

pub proof fn lemma_rest_text(a: LexerState, b: LexerState, d: nat)
    requires
        rest_of(a) == rest_of(b),
        a.position + d <= a.input.len(),
        b.position <= b.input.len(),
    ensures
        crate::text::text_of(a.input, a.position as int, (a.position + d) as int)
            == crate::text::text_of(b.input, b.position as int, (b.position + d) as int),
{
    lemma_rest_bytes(a, b, 0);
    assert(rest_of(b).len() == b.input.len() - b.position);
    if d > 0 {
        assert(rest_of(a).len() == rest_of(b).len());
        assert(a.input.subrange(a.position as int, (a.position + d) as int) =~= rest_of(a).subrange(0, d as int));
        assert(b.input.subrange(b.position as int, (b.position + d) as int) =~= rest_of(b).subrange(0, d as int));
    } else {
        assert(a.input.subrange(a.position as int, (a.position + d) as int) =~= Seq::<u8>::empty());
        assert(b.input.subrange(b.position as int, (b.position + d) as int) =~= Seq::<u8>::empty());
    }
}

/// The next token depends only on the bytes left to read.
#[verifier::rlimit(100)]
#[verifier::spinoff_prover]
pub proof fn lemma_rest_token(a: LexerState, b: LexerState)
    requires
        rest_of(a) == rest_of(b),
    ensures
        next_token_model(a).0 == next_token_model(b).0,
        rest_of(next_token_model(a).1) == rest_of(next_token_model(b).1),
    decreases a.input.len() - a.position,
{
    let a0 = a.skip_while(spaces());
    let b0 = b.skip_while(spaces());
    lemma_rest_skip(a, b, spaces());
    lemma_skip_while_forward(a, spaces());
    lemma_skip_while_forward(b, spaces());
    lemma_rest_bytes(a0, b0, 0);
    lemma_rest_bytes(a0, b0, 1);
    lemma_rest_advanced(a0, b0);
    lemma_rest_advanced(a0.advanced(), b0.advanced());
    let c = a0.ch();
    let aa = a0.advanced();
    let ba = b0.advanced();
    if c == 96 && a0.position < a0.input.len() {
        let cc = comment_chars();
        lemma_rest_skip(aa, ba, cc);
        lemma_skip_while_forward(aa, cc);
        let a1 = aa.skip_while(cc);
        let b1 = ba.skip_while(cc);
        lemma_rest_bytes(a1, b1, 0);
        lemma_rest_advanced(a1, b1);
        let a2 = if a1.ch() == 96 { a1.advanced() } else { a1 };
        let b2 = if b1.ch() == 96 { b1.advanced() } else { b1 };
        lemma_rest_token(a2, b2);
    } else if c == 34 {
        let sc = string_chars();
        lemma_rest_skip(aa, ba, sc);
        lemma_skip_while_forward(aa, sc);
        lemma_skip_while_forward(ba, sc);
        let a2 = aa.skip_while(sc);
        let b2 = ba.skip_while(sc);
        lemma_rest_text(aa, ba, (a2.position - aa.position) as nat);
        lemma_rest_advanced(a2, b2);
    } else if c != 0 && crate::lexer::is_letter(c) {
        let ic = identifier_chars();
        lemma_rest_skip(a0, b0, ic);
        lemma_skip_while_forward(a0, ic);
        lemma_skip_while_forward(b0, ic);
        let a2 = a0.skip_while(ic);
        lemma_rest_text(a0, b0, (a2.position - a0.position) as nat);
    } else if c != 0 && crate::lexer::is_digit(c) {
        let dc = digits();
        lemma_rest_skip(a0, b0, dc);
        lemma_skip_while_forward(a0, dc);
        lemma_skip_while_forward(b0, dc);
        let a2 = a0.skip_while(dc);
        lemma_rest_text(a0, b0, (a2.position - a0.position) as nat);
    }
}

pub proof fn lemma_rest_tokens(a: LexerState, b: LexerState, k: nat)
    requires
        rest_of(a) == rest_of(b),
    ensures
        token_at(a, k) == token_at(b, k),
        rest_of(lexed(a, k)) == rest_of(lexed(b, k)),
    decreases k,
{
    if k > 0 {
        lemma_rest_tokens(a, b, (k - 1) as nat);
        lemma_rest_token(lexed(a, (k - 1) as nat), lexed(b, (k - 1) as nat));
    }
    lemma_rest_token(lexed(a, k), lexed(b, k));
}

/// Every byte of `w` is ASCII whitespace.
pub open spec fn all_spaces(w: Seq<u8>) -> bool {
    forall|i: int| 0 <= i < w.len() ==> is_whitespace(#[trigger] w[i])
}

/// The state `n` bytes on from `s`.
pub open spec fn advanced_by(s: LexerState, n: nat) -> LexerState
    decreases n,
{
    if n == 0 {
        s
    } else {
        advanced_by(s, (n - 1) as nat).advanced()
    }
}

proof fn lemma_advanced_by(s: LexerState, n: nat)
    ensures
        advanced_by(s, n).position == s.position + n,
        advanced_by(s, n).input == s.input,
    decreases n,
{
    if n > 0 {
        lemma_advanced_by(s, (n - 1) as nat);
    }
}

/// Skipping whitespace from the start of a whitespace prefix ends where
/// skipping from its end does.
proof fn lemma_skip_prefix(s: LexerState, w: Seq<u8>, n: nat)
    requires
        all_spaces(w),
        s.position == 0,
        w.len() <= s.input.len(),
        s.input.subrange(0, w.len() as int) == w,
        n <= w.len(),
    ensures
        advanced_by(s, n).skip_while(spaces()) == advanced_by(s, w.len()).skip_while(spaces()),
    decreases w.len() - n,
{
    if n < w.len() {
        lemma_advanced_by(s, n);
        let t = advanced_by(s, n);
        assert(w[n as int] == s.input[n as int]);
        assert(is_whitespace(t.ch()));
        assert(advanced_by(s, n + 1) == t.advanced());
        lemma_skip_prefix(s, w, n + 1);
    }
}

proof fn lemma_lexed_same_after_first(a: LexerState, b: LexerState, k: nat)
    requires
        next_token_model(a) == next_token_model(b),
        k > 0,
    ensures
        lexed(a, k) == lexed(b, k),
    decreases k,
{
    assert(lexed(a, 0) == a);
    assert(lexed(b, 0) == b);
    if k > 1 {
        lemma_lexed_same_after_first(a, b, (k - 1) as nat);
    }
}

/// Leading whitespace does not change the tokens.
pub proof fn lemma_leading_spaces(w: Seq<u8>, t: Seq<u8>, k: nat)
    requires
        all_spaces(w),
    ensures
        token_at(LexerState::start(w + t), k) == token_at(LexerState::start(t), k),
{
    let a = LexerState::start(w + t);
    let b = LexerState::start(t);
    let aw = advanced_by(a, w.len());
    assert((w + t).subrange(0, w.len() as int) =~= w);
    lemma_skip_prefix(a, w, 0);
    lemma_advanced_by(a, w.len());
    assert(a.skip_while(spaces()) == aw.skip_while(spaces()));
    assert(next_token_model(a) == next_token_model(aw));
    assert(rest_of(aw) =~= t);
    assert(rest_of(b) =~= t);
    lemma_rest_tokens(aw, b, k);
    if k > 0 {
        lemma_lexed_same_after_first(a, aw, k);
    }
}

} // verus!
