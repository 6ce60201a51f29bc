use interpreter::lexer::{self, Token};

fn lex(src: &str) -> Vec<Token<'_>> {
    lexer::new(src).get_tokens()
}

#[test]
fn lex_let_statement() {
    assert_eq!(
        lex("let x = 5;"),
        vec![
            Token::Let,
            Token::Identifier(b"x"),
            Token::EqualSign,
            Token::Number(5),
            Token::Semicolon,
            Token::EOF
        ]
    );
}

#[test]
fn lex_punctuators() {
    assert_eq!(
        lex("=+-!*/<>,;(){}"),
        vec![
            Token::EqualSign,
            Token::PlusSign,
            Token::MinusSign,
            Token::BangSign,
            Token::AsteriskSign,
            Token::SlashSign,
            Token::LT,
            Token::GT,
            Token::Comma,
            Token::Semicolon,
            Token::Lparen,
            Token::Rparen,
            Token::Lbrace,
            Token::Rbrace,
            Token::EOF
        ]
    );
}

#[test]
fn lex_two_byte_operators() {
    assert_eq!(
        lex("== != = ! =!"),
        vec![
            Token::EQ,
            Token::NotEQ,
            Token::EqualSign,
            Token::BangSign,
            Token::EqualSign,
            Token::BangSign,
            Token::EOF
        ]
    );
}

#[test]
fn lex_keywords() {
    assert_eq!(
        lex("fn let true false if else return"),
        vec![
            Token::Function,
            Token::Let,
            Token::True,
            Token::False,
            Token::If,
            Token::Else,
            Token::Return,
            Token::EOF
        ]
    );
}

#[test]
fn lex_keyword_prefix_is_identifier() {
    assert_eq!(
        lex("lets iff fn_"),
        vec![
            Token::Identifier(b"lets"),
            Token::Identifier(b"iff"),
            Token::Identifier(b"fn_"),
            Token::EOF
        ]
    );
}

#[test]
fn lex_empty_input() {
    assert_eq!(lex(""), vec![Token::EOF]);
}

#[test]
fn lex_whitespace_only() {
    assert_eq!(lex(" \t\r\n  "), vec![Token::EOF]);
}

#[test]
fn lex_last_token_is_eof() {
    for src in ["", "x", "1 + ", "@@@", "let", "((", "9999999999999999999999"] {
        let toks = lex(src);
        assert_eq!(toks.last(), Some(&Token::EOF));
        assert_eq!(toks.iter().filter(|t| **t == Token::EOF).count(), 1);
    }
}

#[test]
fn lex_identifier_round_trip() {
    assert_eq!(lex("foo_Bar"), vec![Token::Identifier(b"foo_Bar"), Token::EOF]);
}

#[test]
fn lex_number_round_trip() {
    assert_eq!(
        lex("9223372036854775807"),
        vec![Token::Number(9223372036854775807), Token::EOF]
    );
    assert_eq!(lex("0"), vec![Token::Number(0), Token::EOF]);
    assert_eq!(lex("007"), vec![Token::Number(7), Token::EOF]);
}

#[test]
fn lex_largest_number() {
    assert_eq!(lex("18446744073709551615"), vec![Token::Number(u64::MAX), Token::EOF]);
}

#[test]
fn lex_number_overflow_is_illegal() {
    assert_eq!(lex("18446744073709551616"), vec![Token::Illegal, Token::EOF]);
}

#[test]
fn lex_illegal_bytes() {
    assert_eq!(lex("@"), vec![Token::Illegal, Token::EOF]);
    assert_eq!(lex("a[b"), vec![
        Token::Identifier(b"a"),
        Token::Illegal,
        Token::Identifier(b"b"),
        Token::EOF
    ]);
    assert_eq!(lex("^`\\"), vec![Token::Illegal, Token::Illegal, Token::Illegal, Token::EOF]);
}

#[test]
fn lex_number_then_identifier() {
    assert_eq!(
        lex("12ab"),
        vec![Token::Number(12), Token::Identifier(b"ab"), Token::EOF]
    );
}
