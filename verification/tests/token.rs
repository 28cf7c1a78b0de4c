use parsing_basics::lexer::{Span, Token, TokenKind};

#[test]
fn token_kind_display() {
    assert_eq!(TokenKind::Plus.to_string(), "+");
    assert_eq!(TokenKind::Leq.to_string(), "<=");
    assert_eq!(TokenKind::KeywordLet.to_string(), "let");
    assert_eq!(TokenKind::Error.to_string(), "<?>");
    assert_eq!(TokenKind::Comment.to_string(), "// Comment");
}

#[test]
fn token_kind_display_of_sentinels_and_names() {
    assert_eq!(TokenKind::Eof.to_string(), "<EOF>");
    assert_eq!(TokenKind::Whitespace.to_string(), "<WS>");
    assert_eq!(TokenKind::String.to_string(), "String");
    assert_eq!(TokenKind::Int.to_string(), "Int");
    assert_eq!(TokenKind::Float.to_string(), "Float");
    assert_eq!(TokenKind::Identifier.to_string(), "Identifier");
    assert_eq!(TokenKind::Ampersand.as_str(), "&");
    assert_eq!(TokenKind::Bar.as_str(), "|");
}

#[test]
fn token_display_is_that_of_its_kind() {
    let token = Token { kind: TokenKind::KeywordStruct, span: Span { start: 4, end: 10 } };
    assert_eq!(token.to_string(), "struct");
}

#[test]
fn token_len_and_text() {
    let token = Token { kind: TokenKind::Identifier, span: Span { start: 4, end: 7 } };
    assert_eq!(token.len(), 3);
    assert_eq!(token.text("let abc = 1;"), "abc");
    let empty = Token { kind: TokenKind::Eof, span: Span { start: 5, end: 5 } };
    assert_eq!(empty.len(), 0);
    assert_eq!(empty.text("12345"), "");
}

#[test]
fn token_text_of_non_ascii() {
    let input = "a\u{e9}\u{4e2d}b";
    let token = Token { kind: TokenKind::Error, span: Span { start: 1, end: 6 } };
    assert_eq!(token.text(input), "\u{e9}\u{4e2d}");
}

#[test]
fn span_from_range_and_back() {
    let span = Span::from(3..4);
    assert_eq!(span, Span { start: 3, end: 4 });
    let range: std::ops::Range<usize> = span.into();
    assert_eq!(range, 3..4);
    assert_eq!(Span::default(), Span { start: 0, end: 0 });
}
