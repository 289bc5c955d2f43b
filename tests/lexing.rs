use rptc::lexer::{eol, Cursor, KeywordKind, Token, TokenKind};

fn kinds(tokens: &[Token]) -> Vec<&TokenKind> {
    tokens.iter().map(|t| &t.kind).collect()
}

#[test]
fn tokenize_literal() {
    let tokens = Cursor::tokenize("123");
    assert_eq!(tokens.len(), 1);
    assert_eq!(tokens[0].kind, TokenKind::Literal("123".to_string()));
    assert_eq!(tokens[0].len, 3);
}

#[test]
fn tokenize_ident() {
    let tokens = Cursor::tokenize("abc");
    assert_eq!(tokens.len(), 1);
    assert_eq!(tokens[0].kind, TokenKind::Ident("abc".to_string()));
    assert_eq!(tokens[0].len, 3);
}

#[test]
fn tokenize_keyword_fn() {
    let tokens = Cursor::tokenize("fn");
    assert_eq!(tokens.len(), 1);
    assert_eq!(tokens[0].kind, TokenKind::Keyword(KeywordKind::Fn));
    assert_eq!(tokens[0].len, 2);
}

#[test]
fn keyword_if_and_longer_words() {
    let tokens = Cursor::tokenize("if iff f_1");
    assert_eq!(
        kinds(&tokens),
        vec![
            &TokenKind::Keyword(KeywordKind::If),
            &TokenKind::Whitespace,
            &TokenKind::Ident("iff".to_string()),
            &TokenKind::Whitespace,
            &TokenKind::Ident("f_1".to_string()),
        ]
    );
}

#[test]
fn lengths_add_up_to_the_text() {
    let source = "fn foo(a, b) { a + 12 } # note\n\tx = \"q é $";
    let tokens = Cursor::tokenize(source);
    let total: usize = tokens.iter().map(|t| t.len).sum();
    assert_eq!(total, source.chars().count());
    assert!(tokens.iter().all(|t| t.len >= 1));
}

#[test]
fn empty_text_has_no_tokens() {
    assert!(Cursor::tokenize("").is_empty());
}

#[test]
fn relexing_gives_the_same_tokens() {
    let source = "if (x < 1) { y = 2 } # done";
    let a = Cursor::tokenize(source);
    let b = Cursor::tokenize(source);
    assert_eq!(a.len(), b.len());
    for (x, y) in a.iter().zip(b.iter()) {
        assert_eq!(x.kind, y.kind);
        assert_eq!(x.len, y.len);
    }
}

#[test]
fn whitespace_is_not_collapsed() {
    let tokens = Cursor::tokenize(" \t\n");
    assert_eq!(tokens.len(), 3);
    assert!(tokens.iter().all(|t| t.kind == TokenKind::Whitespace && t.len == 1));
}

#[test]
fn unicode_whitespace_is_whitespace() {
    let tokens = Cursor::tokenize("\u{a0}\u{2003}");
    assert_eq!(kinds(&tokens), vec![&TokenKind::Whitespace, &TokenKind::Whitespace]);
}

#[test]
fn comment_runs_to_the_end_of_the_line() {
    let tokens = Cursor::tokenize("# hi there\nx");
    assert_eq!(
        kinds(&tokens),
        vec![
            &TokenKind::Comment("# hi there".to_string()),
            &TokenKind::Whitespace,
            &TokenKind::Ident("x".to_string()),
        ]
    );
    assert_eq!(tokens[0].len, 10);
}

#[test]
fn comment_at_the_end_of_the_text() {
    let tokens = Cursor::tokenize("#end");
    assert_eq!(kinds(&tokens), vec![&TokenKind::Comment("#end".to_string())]);
}

#[test]
fn literal_stops_at_quote_or_whitespace() {
    let tokens = Cursor::tokenize("12ab\"x y");
    assert_eq!(
        kinds(&tokens),
        vec![
            &TokenKind::Literal("12ab".to_string()),
            &TokenKind::Literal("\"x".to_string()),
            &TokenKind::Whitespace,
            &TokenKind::Ident("y".to_string()),
        ]
    );
}

#[test]
fn literal_takes_operators_that_touch_it() {
    let tokens = Cursor::tokenize("1+2");
    assert_eq!(kinds(&tokens), vec![&TokenKind::Literal("1+2".to_string())]);
}

#[test]
fn operators_punctuation_and_unknown() {
    let tokens = Cursor::tokenize("+-*/<(){}=,$é");
    assert_eq!(
        kinds(&tokens),
        vec![
            &TokenKind::Operator('+'),
            &TokenKind::Operator('-'),
            &TokenKind::Operator('*'),
            &TokenKind::Operator('/'),
            &TokenKind::Operator('<'),
            &TokenKind::OpenParen,
            &TokenKind::CloseParen,
            &TokenKind::OpenBrace,
            &TokenKind::CloseBrace,
            &TokenKind::Equals,
            &TokenKind::Comma,
            &TokenKind::Unknown,
            &TokenKind::Unknown,
        ]
    );
}

#[test]
fn identifier_stops_at_a_non_word_character() {
    let tokens = Cursor::tokenize("ab(c");
    assert_eq!(
        kinds(&tokens),
        vec![
            &TokenKind::Ident("ab".to_string()),
            &TokenKind::OpenParen,
            &TokenKind::Ident("c".to_string()),
        ]
    );
}

#[test]
fn cursor_reads_one_token_at_a_time() {
    let mut cursor = Cursor::new("ab 7");
    let first = cursor.advance().unwrap();
    assert_eq!(first.kind, TokenKind::Ident("ab".to_string()));
    assert_eq!(first.len, 2);
    let second = cursor.advance().unwrap();
    assert_eq!(second.kind, TokenKind::Whitespace);
    let third = cursor.advance().unwrap();
    assert_eq!(third.kind, TokenKind::Literal("7".to_string()));
    assert_eq!(third.len, 1);
    assert!(cursor.advance().is_none());
    assert!(cursor.advance().is_none());
}

#[test]
fn inner_accessors() {
    let lit = Token { kind: TokenKind::Literal("42".to_string()), len: 2 };
    assert_eq!(lit.inner_int(), Some(42));
    assert_eq!(lit.inner_string(), Some("42".to_string()));
    assert_eq!(lit.inner_keyword(), None);
    assert_eq!(lit.inner_operator(), None);

    let ident = Token { kind: TokenKind::Ident("x1".to_string()), len: 2 };
    assert_eq!(ident.inner_int(), None);
    assert_eq!(ident.inner_string(), Some("x1".to_string()));

    let comment = Token { kind: TokenKind::Comment("# c".to_string()), len: 3 };
    assert_eq!(comment.inner_string(), Some("# c".to_string()));

    let kw = Token { kind: TokenKind::Keyword(KeywordKind::If), len: 2 };
    assert_eq!(kw.inner_keyword(), Some(KeywordKind::If));
    assert_eq!(kw.inner_string(), None);

    let op = Token { kind: TokenKind::Operator('*'), len: 1 };
    assert_eq!(op.inner_operator(), Some('*'));
    assert_eq!(op.inner_int(), None);
}

#[test]
fn inner_int_rejects_what_is_no_number() {
    let bad = Token { kind: TokenKind::Literal("12ab".to_string()), len: 4 };
    assert_eq!(bad.inner_int(), None);
    let quoted = Token { kind: TokenKind::Literal("\"5".to_string()), len: 2 };
    assert_eq!(quoted.inner_int(), None);
    let empty = Token { kind: TokenKind::Literal(String::new()), len: 0 };
    assert_eq!(empty.inner_int(), None);
    let max = usize::MAX.to_string();
    let largest = Token { kind: TokenKind::Literal(max.clone()), len: max.len() };
    assert_eq!(largest.inner_int(), Some(usize::MAX));
    let over = format!("{}0", max);
    let too_big = Token { kind: TokenKind::Literal(over), len: max.len() + 1 };
    assert_eq!(too_big.inner_int(), None);
    let zeros = Token { kind: TokenKind::Literal("007".to_string()), len: 3 };
    assert_eq!(zeros.inner_int(), Some(7));
}

#[test]
fn eol_is_only_newline() {
    assert!(eol('\n'));
    assert!(!eol('\r'));
    assert!(!eol(' '));
}

#[test]
fn token_kind_equality() {
    assert_eq!(TokenKind::Ident("a".to_string()), TokenKind::Ident("a".to_string()));
    assert_ne!(TokenKind::Ident("a".to_string()), TokenKind::Literal("a".to_string()));
    assert_ne!(TokenKind::Ident("a".to_string()), TokenKind::Ident("b".to_string()));
    assert_ne!(TokenKind::Operator('+'), TokenKind::Operator('-'));
    assert_ne!(TokenKind::Keyword(KeywordKind::Fn), TokenKind::Keyword(KeywordKind::If));
    assert_eq!(TokenKind::Comma, TokenKind::Comma);
}
