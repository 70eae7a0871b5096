use dhakal_lang::lexer::Lexer;
use dhakal_lang::token::TokenType;

fn tokens(input: &str) -> Vec<(TokenType, String)> {
    let mut lexer = Lexer::new(input.to_string());
    let mut out = Vec::new();
    loop {
        let token = lexer.next_token();
        let done = token.token_type == TokenType::Eof;
        out.push((token.token_type, token.literal));
        if done {
            break;
        }
    }
    out
}

fn t(token_type: TokenType, literal: &str) -> (TokenType, String) {
    (token_type, literal.to_string())
}

#[test]
fn lexes_a_val_statement() {
    assert_eq!(
        tokens("val x = 5;"),
        vec![
            t(TokenType::Val, "val"),
            t(TokenType::Identifier, "x"),
            t(TokenType::Assign, "="),
            t(TokenType::Integer, "5"),
            t(TokenType::Semicolon, ";"),
            t(TokenType::Eof, ""),
        ]
    );
}

#[test]
fn lexes_operators_and_delimiters() {
    assert_eq!(
        tokens("== != >= <= > < ! = + - * / ( ) { } [ ] , ;"),
        vec![
            t(TokenType::Equals, "=="),
            t(TokenType::NotEquals, "!="),
            t(TokenType::GreaterThanOrEqual, ">="),
            t(TokenType::LessThanOrEqual, "<="),
            t(TokenType::GreaterThan, ">"),
            t(TokenType::LessThan, "<"),
            t(TokenType::Bang, "!"),
            t(TokenType::Assign, "="),
            t(TokenType::Plus, "+"),
            t(TokenType::Minus, "-"),
            t(TokenType::Asterisk, "*"),
            t(TokenType::Slash, "/"),
            t(TokenType::LeftParenthesis, "("),
            t(TokenType::RightParenthesis, ")"),
            t(TokenType::LeftBrace, "{"),
            t(TokenType::RightBrace, "}"),
            t(TokenType::LeftBracket, "["),
            t(TokenType::RightBracket, "]"),
            t(TokenType::Comma, ","),
            t(TokenType::Semicolon, ";"),
            t(TokenType::Eof, ""),
        ]
    );
}

#[test]
fn lexes_keywords() {
    assert_eq!(
        tokens("func val true false if else return for funcs"),
        vec![
            t(TokenType::Function, "func"),
            t(TokenType::Val, "val"),
            t(TokenType::True, "true"),
            t(TokenType::False, "false"),
            t(TokenType::If, "if"),
            t(TokenType::Else, "else"),
            t(TokenType::Return, "return"),
            t(TokenType::For, "for"),
            t(TokenType::Identifier, "funcs"),
            t(TokenType::Eof, ""),
        ]
    );
}

#[test]
fn logical_operators_take_the_next_byte() {
    assert_eq!(
        tokens("a && b || c &x"),
        vec![
            t(TokenType::Identifier, "a"),
            t(TokenType::LogicalAnd, "&&"),
            t(TokenType::Identifier, "b"),
            t(TokenType::LogicalOr, "||"),
            t(TokenType::Identifier, "c"),
            t(TokenType::LogicalAnd, "&&"),
            t(TokenType::Eof, ""),
        ]
    );
}

#[test]
fn skips_comments_and_whitespace() {
    assert_eq!(
        tokens("  `a comment`\n\t42 `unterminated"),
        vec![t(TokenType::Integer, "42"), t(TokenType::Eof, "")]
    );
}

#[test]
fn lexes_strings() {
    assert_eq!(
        tokens("\"hello world\" \"héllo\" \"open"),
        vec![
            t(TokenType::String, "hello world"),
            t(TokenType::String, "héllo"),
            t(TokenType::String, "open"),
            t(TokenType::Eof, ""),
        ]
    );
}

#[test]
fn identifiers_take_letters_and_underscores() {
    assert_eq!(
        tokens("a_b _c x1"),
        vec![
            t(TokenType::Identifier, "a_b"),
            t(TokenType::Illegal, "_"),
            t(TokenType::Identifier, "c"),
            t(TokenType::Identifier, "x"),
            t(TokenType::Integer, "1"),
            t(TokenType::Eof, ""),
        ]
    );
}

#[test]
fn illegal_bytes_are_tokens_of_their_own() {
    assert_eq!(
        tokens("@ é"),
        vec![
            t(TokenType::Illegal, "@"),
            t(TokenType::Illegal, "\u{c3}"),
            t(TokenType::Illegal, "\u{a9}"),
            t(TokenType::Eof, ""),
        ]
    );
}

#[test]
fn end_of_input_repeats() {
    let mut lexer = Lexer::new("x".to_string());
    assert_eq!(lexer.next_token().token_type, TokenType::Identifier);
    for _ in 0..5 {
        let token = lexer.next_token();
        assert_eq!(token.token_type, TokenType::Eof);
        assert_eq!(token.literal, "");
    }
}

#[test]
fn a_nul_byte_reads_as_end_of_file() {
    assert_eq!(
        tokens("a\0b"),
        vec![t(TokenType::Identifier, "a"), t(TokenType::Eof, "")]
    );
    let mut lexer = Lexer::new("a\0b".to_string());
    lexer.next_token();
    assert_eq!(lexer.next_token().token_type, TokenType::Eof);
    let after = lexer.next_token();
    assert_eq!(after.token_type, TokenType::Identifier);
    assert_eq!(after.literal, "b");
}

#[test]
fn reads_and_peeks_bytes() {
    let mut lexer = Lexer::new("ab".to_string());
    assert_eq!(lexer.current_char(), b'a');
    assert_eq!(lexer.peek_char(), b'b');
    lexer.read_char();
    assert_eq!(lexer.current_char(), b'b');
    assert_eq!(lexer.peek_char(), 0);
    lexer.read_char();
    assert_eq!(lexer.current_char(), 0);
    assert!(lexer.is_exhausted());
    lexer.read_char();
    assert_eq!(lexer.current_char(), 0);
}

#[test]
fn reads_words_numbers_and_strings() {
    let mut lexer = Lexer::new("abc_d 123x \"s t\"".to_string());
    assert_eq!(lexer.read_identifier(), "abc_d");
    lexer.read_char();
    assert_eq!(lexer.read_number(), "123");
    assert_eq!(lexer.current_char(), b'x');
    lexer.read_char();
    lexer.read_char();
    assert_eq!(lexer.read_string(), "s t");
    assert_eq!(lexer.current_char(), b'"');
}

#[test]
fn numbers_are_digit_runs() {
    assert_eq!(
        tokens("007 12.5"),
        vec![
            t(TokenType::Integer, "007"),
            t(TokenType::Integer, "12"),
            t(TokenType::Illegal, "."),
            t(TokenType::Integer, "5"),
            t(TokenType::Eof, ""),
        ]
    );
}

#[test]
fn leading_whitespace_changes_no_token() {
    assert_eq!(tokens(" \t\n\r\x0c val x = \"a b\" `c` 12;"), tokens("val x = \"a b\" `c` 12;"));
}

#[test]
fn no_more_tokens_than_bytes_come_before_end_of_file() {
    let source = "a+b*(c)";
    let all = tokens(source);
    assert_eq!(all.len() - 1, 7);
    assert!(all.len() - 1 <= source.len());
    let mut lexer = Lexer::new("ab cd".to_string());
    let mut count = 0;
    while lexer.next_token().token_type != TokenType::Eof {
        count += 1;
    }
    assert_eq!(count, 2);
    for _ in 0..3 {
        let token = lexer.next_token();
        assert_eq!(token.token_type, TokenType::Eof);
        assert_eq!(token.literal, "");
        assert_eq!(lexer.current_char(), 0);
    }
}
