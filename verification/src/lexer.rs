use vstd::prelude::*;
use vstd::utf8::*;
use vstd::string::StringSliceAdditionalSpecFns;
use crate::text::{byte_at, text_of, substring, lemma_boundary_after_ascii, lemma_boundary_at_ascii, lemma_decode_ascii, is_decimal};
use crate::token::{Token, TokenType, TokenView, string_of_char};

verus! {

/// ASCII letters, as `u8::is_ascii_alphabetic` classifies them.
#[verifier::allow_in_spec]
pub fn is_letter(c: u8) -> bool
    returns
        (97 <= c && c <= 122) || (65 <= c && c <= 90),
{
    (97 <= c && c <= 122) || (65 <= c && c <= 90)
}

/// ASCII digits, as `u8::is_ascii_digit` classifies them.
#[verifier::allow_in_spec]
pub fn is_digit(c: u8) -> bool
    returns
        48 <= c && c <= 57,
{
    48 <= c && c <= 57
}

/// ASCII whitespace, as `u8::is_ascii_whitespace` classifies it:
/// space, tab, line feed, form feed and carriage return.
#[verifier::allow_in_spec]
pub fn is_whitespace(c: u8) -> bool
    returns
        c == 32 || c == 9 || c == 10 || c == 12 || c == 13,
{
    c == 32 || c == 9 || c == 10 || c == 12 || c == 13
}

/// Bytes that continue an identifier: letters and the underscore.
pub open spec fn is_identifier_byte(c: u8) -> bool {
    is_letter(c) || c == 95
}

/// Bytes inside a string literal: anything but the closing quote and NUL.
pub open spec fn is_string_byte(c: u8) -> bool {
    c != 34 && c != 0
}

/// Bytes inside a comment: anything but the closing backtick and NUL.
pub open spec fn is_comment_byte(c: u8) -> bool {
    c != 96 && c != 0
}

/// The byte classes that the lexer skips over, as predicates.
pub open spec fn spaces() -> spec_fn(u8) -> bool {
    |c: u8| is_whitespace(c)
}

pub open spec fn identifier_chars() -> spec_fn(u8) -> bool {
    |c: u8| is_identifier_byte(c)
}

pub open spec fn digits() -> spec_fn(u8) -> bool {
    |c: u8| is_digit(c)
}

pub open spec fn string_chars() -> spec_fn(u8) -> bool {
    |c: u8| is_string_byte(c)
}

pub open spec fn comment_chars() -> spec_fn(u8) -> bool {
    |c: u8| is_comment_byte(c)
}

/// The kind of token that an identifier-shaped word stands for.
pub open spec fn keyword_type(word: Seq<char>) -> TokenType {
    if word == "func"@ {
        TokenType::Function
    } else if word == "val"@ {
        TokenType::Val
    } else if word == "true"@ {
        TokenType::True
    } else if word == "false"@ {
        TokenType::False
    } else if word == "if"@ {
        TokenType::If
    } else if word == "else"@ {
        TokenType::Else
    } else if word == "return"@ {
        TokenType::Return
    } else if word == "for"@ {
        TokenType::For
    } else {
        TokenType::Identifier
    }
}

/// The mathematical model of a lexer: the UTF-8 bytes of its input, the
/// position of the byte under examination, and the line and column counters.
pub struct LexerState {
    pub input: Seq<u8>,
    pub position: nat,
    pub line: nat,
    pub column: nat,
}

pub open spec fn mk_token(token_type: TokenType, literal: Seq<char>) -> TokenView {
    TokenView { token_type, literal }
}

impl LexerState {
    /// The state of a lexer that has just been given `input`: at its first
    /// byte, on line 1 (line 2 when that byte is a newline).
    pub open spec fn start(input: Seq<u8>) -> LexerState {
        let newline = byte_at(input, 0) == 10;
        LexerState {
            input,
            position: 0,
            line: if newline { 2 } else { 1 },
            column: if newline { 0 } else { 1 },
        }
    }

    /// The byte under examination; 0 once the input is exhausted.
    pub open spec fn ch(self) -> u8 {
        byte_at(self.input, self.position as int)
    }

    /// The byte after the one under examination; 0 past the end.
    pub open spec fn peek(self) -> u8 {
        byte_at(self.input, self.position + 1int)
    }

    /// Moves to the next byte, counting lines and columns. Past the end of
    /// the input the byte read is 0 and the position and column go on
    /// counting.
    pub open spec fn advanced(self) -> LexerState {
        let p = self.position + 1;
        let c = byte_at(self.input, p as int);
        LexerState {
            input: self.input,
            position: p,
            line: if c == 10 { self.line + 1 } else { self.line },
            column: if c == 10 { 0 } else { self.column + 1 },
        }
    }

    /// Advances over every byte that satisfies `keep`.
    pub open spec fn skip_while(self, keep: spec_fn(u8) -> bool) -> LexerState
        decreases self.input.len() - self.position,
    {
        if keep(self.ch()) && self.position < self.input.len() {
            self.advanced().skip_while(keep)
        } else {
            self
        }
    }

    /// The text between this state's position and `end`'s.
    pub open spec fn text_to(self, end: LexerState) -> Seq<char> {
        text_of(self.input, self.position as int, end.position as int)
    }
}

/// The next token of the input and the lexer state after it.
pub open spec fn next_token_model(s: LexerState) -> (TokenView, LexerState)
    decreases s.input.len() - s.position,
{
    let s0 = s.skip_while(spaces());
    let c = s0.ch();
    if c == 96 && s0.position < s0.input.len() {
        // a comment in backticks is skipped
        let s1 = s0.advanced().skip_while(comment_chars());
        let s2 = if s1.ch() == 96 { s1.advanced() } else { s1 };
        proof {
            lemma_skip_while_forward(s, spaces());
            lemma_skip_while_forward(s0.advanced(), comment_chars());
        }
        next_token_model(s2)
    } else if c == 61 {
        if s0.peek() == 61 {
            (mk_token(TokenType::Equals, "=="@), s0.advanced().advanced())
        } else {
            (mk_token(TokenType::Assign, "="@), s0.advanced())
        }
    } else if c == 33 {
        if s0.peek() == 61 {
            (mk_token(TokenType::NotEquals, "!="@), s0.advanced().advanced())
        } else {
            (mk_token(TokenType::Bang, "!"@), s0.advanced())
        }
    } else if c == 59 {
        (mk_token(TokenType::Semicolon, ";"@), s0.advanced())
    } else if c == 40 {
        (mk_token(TokenType::LeftParenthesis, "("@), s0.advanced())
    } else if c == 41 {
        (mk_token(TokenType::RightParenthesis, ")"@), s0.advanced())
    } else if c == 44 {
        (mk_token(TokenType::Comma, ","@), s0.advanced())
    } else if c == 43 {
        (mk_token(TokenType::Plus, "+"@), s0.advanced())
    } else if c == 45 {
        (mk_token(TokenType::Minus, "-"@), s0.advanced())
    } else if c == 42 {
        (mk_token(TokenType::Asterisk, "*"@), s0.advanced())
    } else if c == 47 {
        (mk_token(TokenType::Slash, "/"@), s0.advanced())
    } else if c == 123 {
        (mk_token(TokenType::LeftBrace, "{"@), s0.advanced())
    } else if c == 125 {
        (mk_token(TokenType::RightBrace, "}"@), s0.advanced())
    } else if c == 91 {
        (mk_token(TokenType::LeftBracket, "["@), s0.advanced())
    } else if c == 93 {
        (mk_token(TokenType::RightBracket, "]"@), s0.advanced())
    } else if c == 38 {
        (mk_token(TokenType::LogicalAnd, "&&"@), s0.advanced().advanced())
    } else if c == 124 {
        (mk_token(TokenType::LogicalOr, "||"@), s0.advanced().advanced())
    } else if c == 62 {
        if s0.peek() == 61 {
            (mk_token(TokenType::GreaterThanOrEqual, ">="@), s0.advanced().advanced())
        } else {
            (mk_token(TokenType::GreaterThan, ">"@), s0.advanced())
        }
    } else if c == 60 {
        if s0.peek() == 61 {
            (mk_token(TokenType::LessThanOrEqual, "<="@), s0.advanced().advanced())
        } else {
            (mk_token(TokenType::LessThan, "<"@), s0.advanced())
        }
    } else if c == 34 {
        let s1 = s0.advanced();
        let s2 = s1.skip_while(string_chars());
        (mk_token(TokenType::String, s1.text_to(s2)), s2.advanced())
    } else if c == 0 {
        (mk_token(TokenType::Eof, Seq::empty()), s0.advanced())
    } else if is_letter(c) {
        let s1 = s0.skip_while(identifier_chars());
        let word = s0.text_to(s1);
        (mk_token(keyword_type(word), word), s1)
    } else if is_digit(c) {
        let s1 = s0.skip_while(digits());
        (mk_token(TokenType::Integer, s0.text_to(s1)), s1)
    } else {
        (mk_token(TokenType::Illegal, seq![c as char]), s0.advanced())
    }
}

/// `skip_while` only moves forward, stays within the input, and stops on a
/// byte that `keep` refuses (or at the end); the byte just before where it
/// stops, if it moved, satisfied `keep`.
pub proof fn lemma_skip_while_forward(s: LexerState, keep: spec_fn(u8) -> bool)
    ensures
        s.skip_while(keep).input == s.input,
        s.skip_while(keep).position >= s.position,
        s.position <= s.input.len() ==> s.skip_while(keep).position <= s.input.len(),
        s.skip_while(keep).position == s.position || s.skip_while(keep) == s.advanced().skip_while(keep),
        s.skip_while(keep).position > s.position ==> keep(byte_at(s.input, s.skip_while(keep).position - 1)),
        s.skip_while(keep).position < s.input.len() ==> !keep(s.skip_while(keep).ch()),
    decreases s.input.len() - s.position,
{
    if keep(s.ch()) && s.position < s.input.len() {
        lemma_skip_while_forward(s.advanced(), keep);
    }
}

/// The kind of token for a word that was read as an identifier.
pub fn lookup_keyword(word: &String) -> (token_type: TokenType)
    ensures
        token_type == keyword_type(word@),
{
    if *word == String::from_str("func") {
        TokenType::Function
    } else if *word == String::from_str("val") {
        TokenType::Val
    } else if *word == String::from_str("true") {
        TokenType::True
    } else if *word == String::from_str("false") {
        TokenType::False
    } else if *word == String::from_str("if") {
        TokenType::If
    } else if *word == String::from_str("else") {
        TokenType::Else
    } else if *word == String::from_str("return") {
        TokenType::Return
    } else if *word == String::from_str("for") {
        TokenType::For
    } else {
        TokenType::Identifier
    }
}

/// A token whose text is fixed.
fn fixed_token(token_type: TokenType, text: &str) -> (token: Token)
    ensures
        token@ == mk_token(token_type, text@),
{
    Token::new(token_type, String::from_str(text))
}

/// The lexer: it turns the bytes of a program text into tokens.
pub struct Lexer {
    input: String,
    position: usize,
    read_position: usize,
    ch: u8,
    line: usize,
    column: usize,
}

impl View for Lexer {
    type V = LexerState;

    closed spec fn view(&self) -> LexerState {
        LexerState {
            input: encode_utf8(self.input@),
            position: self.position as nat,
            line: self.line as nat,
            column: self.column as nat,
        }
    }
}

/// A lexer state that a lexer can be in: within its input, and with room for
/// its counters.
pub open spec fn valid_state(s: LexerState) -> bool {
    &&& valid_utf8(s.input)
    &&& s.input.len() + 4 < usize::MAX
    &&& s.position + 3 < usize::MAX
    &&& s.line + s.column <= s.position + 2
}

/// The counters of a lexer in state `s` can still move on by a token.
pub open spec fn has_room(s: LexerState) -> bool {
    s.position + 4 < usize::MAX
}

/// Every byte that `skip_while` passes over satisfies `keep`.
pub proof fn lemma_skip_while_all(s: LexerState, keep: spec_fn(u8) -> bool)
    ensures
        forall|i: int|
            s.position <= i < s.skip_while(keep).position ==> keep(#[trigger] byte_at(s.input, i)),
    decreases s.input.len() - s.position,
{
    if keep(s.ch()) && s.position < s.input.len() {
        lemma_skip_while_all(s.advanced(), keep);
    }
}

/// Tokens as the lexer makes them: the text of an integer token is a string
/// of decimal digits.
pub open spec fn token_shaped(t: TokenView) -> bool {
    t.token_type == TokenType::Integer ==> is_decimal(t.literal)
}

pub proof fn lemma_next_token_shaped(s: LexerState)
    requires
        valid_state(s),
    ensures
        token_shaped(next_token_model(s).0),
    decreases s.input.len() - s.position,
{
    let s0 = s.skip_while(spaces());
    lemma_skip_while_forward(s, spaces());
    lemma_skip_while_valid(s, spaces());
    let c = s0.ch();
    if c == 96 && s0.position < s0.input.len() {
        lemma_advanced_valid(s0);
        let a = s0.advanced();
        let s1 = a.skip_while(comment_chars());
        lemma_skip_while_forward(a, comment_chars());
        lemma_skip_while_valid(a, comment_chars());
        lemma_advanced_valid(s1);
        let s2 = if s1.ch() == 96 { s1.advanced() } else { s1 };
        lemma_next_token_shaped(s2);
    } else if c != 0 && !is_letter(c) && is_digit(c) && c != 61 && c != 33 && c != 34 {
        let s1 = s0.skip_while(digits());
        lemma_skip_while_forward(s0, digits());
        lemma_skip_while_all(s0, digits());
        let b = s.input.subrange(s0.position as int, s1.position as int);
        assert forall|i: int| 0 <= i < b.len() implies b[i] < 0x80 by {
            assert(is_digit(byte_at(s.input, s0.position + i)));
        }
        lemma_decode_ascii(b);
        let t = s0.text_to(s1);
        assert forall|i: int| 0 <= i < t.len() implies '0' <= #[trigger] t[i] <= '9' by {
            assert(is_digit(byte_at(s.input, s0.position + i)));
        }
    }
}

/// Moving one byte forward keeps a lexer state valid.
pub proof fn lemma_advanced_valid(s: LexerState)
    requires
        valid_state(s),
        s.position < s.input.len() || has_room(s),
    ensures
        valid_state(s.advanced()),
        s.advanced().input == s.input,
        s.advanced().position == s.position + 1,
{
}

/// Skipping bytes keeps a lexer state valid.
pub proof fn lemma_skip_while_valid(s: LexerState, keep: spec_fn(u8) -> bool)
    requires
        valid_state(s),
    ensures
        valid_state(s.skip_while(keep)),
    decreases s.input.len() - s.position,
{
    if keep(s.ch()) && s.position < s.input.len() {
        lemma_advanced_valid(s);
        lemma_skip_while_valid(s.advanced(), keep);
    }
}

/// Lexing a token from a valid state leads to a valid state further on; at
/// the end of the input only end-of-file tokens remain and the state stays.
pub proof fn lemma_next_token_valid(s: LexerState)
    requires
        valid_state(s),
        has_room(s),
    ensures
        valid_state(next_token_model(s).1),
        next_token_model(s).1.input == s.input,
        next_token_model(s).1.position > s.position,
        s.position < s.input.len() ==> next_token_model(s).1.position <= s.input.len() + 1,
        s.position >= s.input.len() ==> next_token_model(s) == (mk_token(TokenType::Eof, Seq::<char>::empty()), s.advanced()),
    decreases s.input.len() - s.position,
{
    let ws = spaces();
    let s0 = s.skip_while(ws);
    lemma_skip_while_forward(s, ws);
    lemma_skip_while_valid(s, ws);
    lemma_advanced_valid(s0);
    let a = s0.advanced();
    if s0.position < s0.input.len() {
        lemma_advanced_valid(a);
    }
    let c = s0.ch();
    if c == 96 && s0.position < s0.input.len() {
        let cm = comment_chars();
        let s1 = a.skip_while(cm);
        lemma_skip_while_forward(a, cm);
        lemma_skip_while_valid(a, cm);
        lemma_advanced_valid(s1);
        let s2 = if s1.ch() == 96 { s1.advanced() } else { s1 };
        lemma_next_token_valid(s2);
    } else if c == 34 {
        let sb = string_chars();
        lemma_skip_while_forward(a, sb);
        lemma_skip_while_valid(a, sb);
        lemma_advanced_valid(a.skip_while(sb));
    } else if c == 0 {
    } else if is_letter(c) {
        let ib = identifier_chars();
        lemma_skip_while_forward(s0, ib);
        lemma_skip_while_forward(a, ib);
        lemma_skip_while_valid(s0, ib);
    } else if is_digit(c) {
        let db = digits();
        lemma_skip_while_forward(s0, db);
        lemma_skip_while_forward(a, db);
        lemma_skip_while_valid(s0, db);
    }
}

impl Lexer {
    pub closed spec fn wf(&self) -> bool {
        &&& valid_state(self@)
        &&& self.read_position == self.position + 1
        &&& self.ch == self@.ch()
    }

    pub proof fn lemma_wf(&self)
        requires
            self.wf(),
        ensures
            valid_state(self@),
    {
    }

    pub fn new(input: String) -> (lexer: Self)
        requires
            encode_utf8(input@).len() + 4 < usize::MAX,
        ensures
            lexer.wf(),
            lexer@ == LexerState::start(encode_utf8(input@)),
    {
        proof {
            encode_utf8_valid_utf8(input@);
        }
        let n = input.as_str().len();
        let bytes = input.as_str().as_bytes();
        let ch: u8 = if n == 0 { 0 } else { bytes[0] };
        let newline = ch == 10;
        Self {
            input,
            position: 0,
            read_position: 1,
            ch,
            line: if newline { 2 } else { 1 },
            column: if newline { 0 } else { 1 },
        }
    }

    pub fn read_char(&mut self)
        requires
            old(self).wf(),
            has_room(old(self)@),
        ensures
            final(self).wf(),
            final(self)@ == old(self)@.advanced(),
    {
        let n = self.input.as_str().len();
        if self.read_position >= n {
            self.ch = 0;
        } else {
            self.ch = self.input.as_str().as_bytes()[self.read_position];
        }
        self.position = self.read_position;
        self.read_position = self.read_position + 1;
        if self.ch == 10 {
            self.line = self.line + 1;
            self.column = 0;
        } else {
            self.column = self.column + 1;
        }
    }

    pub fn peek_char(&self) -> (c: u8)
        requires
            self.wf(),
        ensures
            c == self@.peek(),
    {
        let n = self.input.as_str().len();
        if self.read_position >= n {
            0
        } else {
            self.input.as_str().as_bytes()[self.read_position]
        }
    }

    /// Reads an identifier: letters and underscores from the current byte on.
    pub fn read_identifier(&mut self) -> (word: String)
        requires
            old(self).wf(),
            is_char_boundary(old(self)@.input, old(self)@.position as int),
        ensures
            final(self).wf(),
            final(self)@ == old(self)@.skip_while(identifier_chars()),
            word@ == old(self)@.text_to(final(self)@),
    {
        let start = self.position;
        let ghost s = self@;
        while is_letter(self.ch) || self.ch == 95
            invariant
                self.wf(),
                self@.input == s.input,
                start == s.position,
                self@.position >= start,
                self@.skip_while(identifier_chars()) == s.skip_while(identifier_chars()),
                self@.position > start ==> is_identifier_byte(byte_at(s.input, self@.position - 1)),
            decreases self@.input.len() - self@.position,
        {
            self.read_char();
        }
        proof {
            if self.position > start {
                lemma_boundary_after_ascii(s.input, self.position - 1);
            }
        }
        substring(self.input.as_str(), start, self.position)
    }

    /// Reads a number: the decimal digits from the current byte on.
    pub fn read_number(&mut self) -> (number: String)
        requires
            old(self).wf(),
            is_char_boundary(old(self)@.input, old(self)@.position as int),
        ensures
            final(self).wf(),
            final(self)@ == old(self)@.skip_while(digits()),
            number@ == old(self)@.text_to(final(self)@),
    {
        let start = self.position;
        let ghost s = self@;
        while is_digit(self.ch)
            invariant
                self.wf(),
                self@.input == s.input,
                start == s.position,
                self@.position >= start,
                self@.skip_while(digits()) == s.skip_while(digits()),
                self@.position > start ==> is_digit(byte_at(s.input, self@.position - 1)),
            decreases self@.input.len() - self@.position,
        {
            self.read_char();
        }
        proof {
            if self.position > start {
                lemma_boundary_after_ascii(s.input, self.position - 1);
            }
        }
        substring(self.input.as_str(), start, self.position)
    }

    /// Reads the body of a string literal: moves past the opening quote and
    /// reads up to the closing quote or the end of the input.
    pub fn read_string(&mut self) -> (body: String)
        requires
            old(self).wf(),
            is_char_boundary(old(self)@.input, old(self)@.advanced().position as int),
        ensures
            final(self).wf(),
            final(self)@ == old(self)@.advanced().skip_while(string_chars()),
            body@ == old(self)@.advanced().text_to(final(self)@),
    {
        self.read_char();
        let start = self.position;
        let ghost s = self@;
        while self.ch != 34 && self.ch != 0
            invariant
                self.wf(),
                self@.position <= self@.input.len(),
                self@.input == s.input,
                start == s.position,
                self@.position >= start,
                self@.skip_while(string_chars()) == s.skip_while(string_chars()),
            decreases self@.input.len() - self@.position,
        {
            self.read_char();
        }
        proof {
            lemma_boundary_at_ascii(s.input, self.position as int);
        }
        substring(self.input.as_str(), start, self.position)
    }

    fn skip_whitespace(&mut self)
        requires
            old(self).wf(),
        ensures
            final(self).wf(),
            final(self)@ == old(self)@.skip_while(spaces()),
    {
        let ghost s = self@;
        while is_whitespace(self.ch)
            invariant
                self.wf(),
                self@.skip_while(spaces()) == s.skip_while(spaces()),
            decreases self@.input.len() - self@.position,
        {
            self.read_char();
        }
    }

    /// Produces the next token and moves past it. Comments in backticks and
    /// whitespace are skipped; once the input is exhausted every further
    /// token is an end-of-file token.
    pub fn next_token(&mut self) -> (token: Token)
        requires
            old(self).wf(),
            has_room(old(self)@),
        ensures
            final(self).wf(),
            (token@, final(self)@) == next_token_model(old(self)@),
        decreases old(self)@.input.len() - old(self)@.position,
    {
        let ghost s = self@;
        proof {
            lemma_skip_while_forward(s, spaces());
        }
        self.skip_whitespace();
        proof {
            assert(self@.position <= self@.input.len() || self@.position == s.position);
            assert(has_room(self@));
        }
        let token = match self.ch {
            // '='
            61 => {
                if self.peek_char() == 61 {
                    self.read_char();
                    fixed_token(TokenType::Equals, "==")
                } else {
                    fixed_token(TokenType::Assign, "=")
                }
            },
            // '!'
            33 => {
                if self.peek_char() == 61 {
                    self.read_char();
                    fixed_token(TokenType::NotEquals, "!=")
                } else {
                    fixed_token(TokenType::Bang, "!")
                }
            },
            // ';'
            59 => fixed_token(TokenType::Semicolon, ";"),
            // '('
            40 => fixed_token(TokenType::LeftParenthesis, "("),
            // ')'
            41 => fixed_token(TokenType::RightParenthesis, ")"),
            // ','
            44 => fixed_token(TokenType::Comma, ","),
            // '+'
            43 => fixed_token(TokenType::Plus, "+"),
            // '-'
            45 => fixed_token(TokenType::Minus, "-"),
            // '*'
            42 => fixed_token(TokenType::Asterisk, "*"),
            // '/'
            47 => fixed_token(TokenType::Slash, "/"),
            // '`'
            96 => {
                self.read_char();
                let ghost a = self@;
                proof {
                    lemma_skip_while_forward(a, comment_chars());
                }
                while self.ch != 96 && self.ch != 0
                    invariant
                        self.wf(),
                        self@.skip_while(comment_chars()) == a.skip_while(comment_chars()),
                    decreases self@.input.len() - self@.position,
                {
                    self.read_char();
                }
                if self.ch == 96 {
                    self.read_char();
                }
                return self.next_token();
            },
            // '{'
            123 => fixed_token(TokenType::LeftBrace, "{"),
            // '}'
            125 => fixed_token(TokenType::RightBrace, "}"),
            // '['
            91 => fixed_token(TokenType::LeftBracket, "["),
            // ']'
            93 => fixed_token(TokenType::RightBracket, "]"),
            // '&'
            38 => {
                self.read_char();
                fixed_token(TokenType::LogicalAnd, "&&")
            },
            // '|'
            124 => {
                self.read_char();
                fixed_token(TokenType::LogicalOr, "||")
            },
            // '>'
            62 => {
                if self.peek_char() == 61 {
                    self.read_char();
                    fixed_token(TokenType::GreaterThanOrEqual, ">=")
                } else {
                    fixed_token(TokenType::GreaterThan, ">")
                }
            },
            // '<'
            60 => {
                if self.peek_char() == 61 {
                    self.read_char();
                    fixed_token(TokenType::LessThanOrEqual, "<=")
                } else {
                    fixed_token(TokenType::LessThan, "<")
                }
            },
            // '"'
            34 => {
                proof {
                    lemma_boundary_after_ascii(self@.input, self@.position as int);
                }
                let ghost before = self@;
                let body = self.read_string();
                proof {
                    lemma_skip_while_forward(before.advanced(), string_chars());
                }
                Token::new(TokenType::String, body)
            },
            0 => Token::new(TokenType::Eof, String::new()),
            _ => {
                if is_letter(self.ch) {
                    proof {
                        lemma_boundary_at_ascii(self@.input, self@.position as int);
                    }
                    let word = self.read_identifier();
                    let token_type = lookup_keyword(&word);
                    return Token::new(token_type, word);
                } else if is_digit(self.ch) {
                    proof {
                        lemma_boundary_at_ascii(self@.input, self@.position as int);
                    }
                    let number = self.read_number();
                    return Token::new(TokenType::Integer, number);
                } else {
                    Token::new(TokenType::Illegal, string_of_char(self.ch as char))
                }
            },
        };
        proof {
            assert(self@.position <= self@.input.len() || self@.position == s.position);
        }
        self.read_char();
        token
    }

    /// Whether the whole input has been read.
    pub fn is_exhausted(&self) -> (done: bool)
        requires
            self.wf(),
        ensures
            done == (self@.position >= self@.input.len()),
    {
        self.position >= self.input.as_str().len()
    }

    /// Whether the counters can still move on by a token.
    pub fn has_room(&self) -> (room: bool)
        requires
            self.wf(),
        ensures
            room == has_room(self@),
    {
        self.position < usize::MAX - 4
    }

    /// The current byte.
    pub fn current_char(&self) -> (c: u8)
        requires
            self.wf(),
        ensures
            c == self@.ch(),
    {
        self.ch
    }
}

} // verus!
