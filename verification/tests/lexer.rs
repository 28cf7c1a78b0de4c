use parsing_basics::lexer::generated::LogosToken;
use parsing_basics::lexer::rules::{
    get_rules, longest_match, unambiguous_single_char, Matcher, Rule,
};
use parsing_basics::lexer::{closing_token, CustomLexer, Lexer, Span, Token, TokenKind};
use parsing_basics::parser::TokenIter;

fn lex(input: &str) -> Vec<Token> {
    Lexer::new(input).tokenize()
}

fn shape(input: &str) -> Vec<(TokenKind, u32, u32)> {
    lex(input).into_iter().map(|t| (t.kind, t.span.start, t.span.end)).collect()
}

const SAMPLES: [&str; 14] = [
    "",
    " ",
    "let x = 1;",
    "{$$$$$$$+",
    "$$$",
    "\"open string",
    "// no newline",
    "// comment\nx",
    "a\u{a0}\u{2003}b",
    "\u{e9}+\u{4e2d}\u{6587}",
    "1.5e10 .5 1. 1e 27.3e-2",
    "if ifx _a a_1 & | && ||",
    "\"a\\\"b\\\\\" \"bad\\n\"",
    "\u{1F600}\t\u{3000}fn\u{85}",
];

#[test]
fn concatenated_token_texts_are_the_input() {
    for input in SAMPLES {
        let mut text = String::new();
        for token in lex(input) {
            text.push_str(token.text(input));
        }
        assert_eq!(text, input);
    }
}

#[test]
fn spans_follow_one_another() {
    for input in SAMPLES {
        let tokens = lex(input);
        assert_eq!(tokens[0].span.start, 0);
        for pair in tokens.windows(2) {
            assert_eq!(pair[0].span.end, pair[1].span.start);
            assert!(pair[0].span.start < pair[0].span.end);
        }
    }
}

#[test]
fn exactly_one_eof_and_it_is_last() {
    for input in SAMPLES {
        let tokens = lex(input);
        let eofs = tokens.iter().filter(|t| t.kind == TokenKind::Eof).count();
        assert_eq!(eofs, 1);
        let last = tokens[tokens.len() - 1];
        let end = input.len() as u32;
        assert_eq!(last, Token { kind: TokenKind::Eof, span: Span { start: end, end } });
    }
}

#[test]
fn reading_on_after_eof_yields_nothing() {
    let mut lexer = Lexer::new("+");
    assert_eq!(lexer.next().map(|t| t.kind), Some(TokenKind::Plus));
    assert_eq!(lexer.next().map(|t| t.kind), Some(TokenKind::Eof));
    assert_eq!(lexer.next(), None);
    assert_eq!(lexer.next(), None);
    assert_eq!(lexer.tokenize(), vec![]);
}

#[test]
fn tokenize_hands_out_what_is_left() {
    let mut lexer = Lexer::new("a b");
    assert_eq!(lexer.next().map(|t| t.kind), Some(TokenKind::Identifier));
    assert_eq!(
        lexer.tokenize().iter().map(|t| t.kind).collect::<Vec<_>>(),
        vec![TokenKind::Whitespace, TokenKind::Identifier, TokenKind::Eof]
    );
}

#[test]
fn only_unrecognized_characters() {
    assert_eq!(shape("$$$"), vec![(TokenKind::Error, 0, 3), (TokenKind::Eof, 3, 3)]);
    assert_eq!(shape("\u{e9}"), vec![(TokenKind::Error, 0, 2), (TokenKind::Eof, 2, 2)]);
}

#[test]
fn error_token_is_never_followed_by_another() {
    for input in SAMPLES {
        for pair in lex(input).windows(2) {
            assert!(!(pair[0].kind == TokenKind::Error && pair[1].kind == TokenKind::Error));
        }
    }
}

#[test]
fn error_run_ends_where_a_rule_matches_again() {
    assert_eq!(
        shape("\u{e9}+\u{4e2d}\u{6587}"),
        vec![
            (TokenKind::Error, 0, 2),
            (TokenKind::Plus, 2, 3),
            (TokenKind::Error, 3, 9),
            (TokenKind::Eof, 9, 9),
        ]
    );
}

#[test]
fn keyword_wins_over_identifier_of_equal_length() {
    assert_eq!(shape("if"), vec![(TokenKind::KeywordIf, 0, 2), (TokenKind::Eof, 2, 2)]);
    assert_eq!(shape("else"), vec![(TokenKind::KeywordElse, 0, 4), (TokenKind::Eof, 4, 4)]);
}

#[test]
fn longer_identifier_wins_over_keyword() {
    assert_eq!(shape("ifx"), vec![(TokenKind::Identifier, 0, 3), (TokenKind::Eof, 3, 3)]);
    assert_eq!(shape("letter"), vec![(TokenKind::Identifier, 0, 6), (TokenKind::Eof, 6, 6)]);
    assert_eq!(shape("fn_"), vec![(TokenKind::Identifier, 0, 3), (TokenKind::Eof, 3, 3)]);
}

#[test]
fn integers_and_floats() {
    assert_eq!(shape("42"), vec![(TokenKind::Int, 0, 2), (TokenKind::Eof, 2, 2)]);
    assert_eq!(shape("4.2"), vec![(TokenKind::Float, 0, 3), (TokenKind::Eof, 3, 3)]);
    assert_eq!(shape(".5"), vec![(TokenKind::Float, 0, 2), (TokenKind::Eof, 2, 2)]);
    assert_eq!(shape("1e5"), vec![(TokenKind::Float, 0, 3), (TokenKind::Eof, 3, 3)]);
    assert_eq!(shape("1.5E+10"), vec![(TokenKind::Float, 0, 7), (TokenKind::Eof, 7, 7)]);
    assert_eq!(shape("27.3e-2"), vec![(TokenKind::Float, 0, 7), (TokenKind::Eof, 7, 7)]);
    assert_eq!(
        shape("1."),
        vec![(TokenKind::Int, 0, 1), (TokenKind::Dot, 1, 2), (TokenKind::Eof, 2, 2)]
    );
    assert_eq!(
        shape("1e"),
        vec![(TokenKind::Int, 0, 1), (TokenKind::Identifier, 1, 2), (TokenKind::Eof, 2, 2)]
    );
    assert_eq!(
        shape("1e+"),
        vec![
            (TokenKind::Int, 0, 1),
            (TokenKind::Identifier, 1, 2),
            (TokenKind::Plus, 2, 3),
            (TokenKind::Eof, 3, 3),
        ]
    );
    assert_eq!(
        shape("1.2.3"),
        vec![(TokenKind::Float, 0, 3), (TokenKind::Float, 3, 5), (TokenKind::Eof, 5, 5)]
    );
}

#[test]
fn non_ascii_digits_are_no_digits() {
    // ARABIC-INDIC DIGIT ONE
    assert_eq!(shape("\u{661}"), vec![(TokenKind::Error, 0, 2), (TokenKind::Eof, 2, 2)]);
    // it does not continue an identifier
    assert_eq!(
        shape("x\u{661}"),
        vec![(TokenKind::Identifier, 0, 1), (TokenKind::Error, 1, 3), (TokenKind::Eof, 3, 3)]
    );
    // nor an integer, nor the fraction or the exponent of a float
    assert_eq!(
        shape("1\u{661}"),
        vec![(TokenKind::Int, 0, 1), (TokenKind::Error, 1, 3), (TokenKind::Eof, 3, 3)]
    );
    assert_eq!(
        shape("1.\u{661}"),
        vec![
            (TokenKind::Int, 0, 1),
            (TokenKind::Dot, 1, 2),
            (TokenKind::Error, 2, 4),
            (TokenKind::Eof, 4, 4),
        ]
    );
    assert_eq!(
        shape("1.5e\u{661}"),
        vec![
            (TokenKind::Float, 0, 3),
            (TokenKind::Identifier, 3, 4),
            (TokenKind::Error, 4, 6),
            (TokenKind::Eof, 6, 6),
        ]
    );
    // FULLWIDTH DIGIT ONE and a fullwidth letter
    assert_eq!(
        shape("a\u{ff11}\u{ff41}"),
        vec![(TokenKind::Identifier, 0, 1), (TokenKind::Error, 1, 7), (TokenKind::Eof, 7, 7)]
    );
}

#[test]
fn closing_token_comes_once() {
    assert_eq!(
        closing_token(false, 7),
        Some(Token { kind: TokenKind::Eof, span: Span { start: 7, end: 7 } })
    );
    assert_eq!(closing_token(true, 7), None);
}

#[test]
fn each_token_starts_where_the_one_before_ended() {
    for input in SAMPLES {
        let mut lexer = Lexer::new(input);
        let mut cursor: u32 = 0;
        while let Some(token) = lexer.next() {
            assert_eq!(token.span.start, cursor);
            cursor = token.span.end;
        }
        assert_eq!(cursor as usize, input.len());
    }
}

#[test]
fn whitespace_token_is_never_followed_by_another() {
    for input in SAMPLES {
        for pair in lex(input).windows(2) {
            assert!(
                !(pair[0].kind == TokenKind::Whitespace && pair[1].kind == TokenKind::Whitespace)
            );
        }
    }
}

#[test]
fn at_most_one_token_for_each_byte_and_the_eof() {
    for input in SAMPLES {
        assert!(lex(input).len() <= input.len() + 1);
    }
    assert_eq!(lex("+-*").len(), 4);
}

#[test]
fn identifiers() {
    assert_eq!(shape("a_1"), vec![(TokenKind::Identifier, 0, 3), (TokenKind::Eof, 3, 3)]);
    assert_eq!(
        shape("_a"),
        vec![(TokenKind::Underscore, 0, 1), (TokenKind::Identifier, 1, 2), (TokenKind::Eof, 2, 2)]
    );
    assert_eq!(
        shape("x.y"),
        vec![
            (TokenKind::Identifier, 0, 1),
            (TokenKind::Dot, 1, 2),
            (TokenKind::Identifier, 2, 3),
            (TokenKind::Eof, 3, 3),
        ]
    );
}

#[test]
fn string_literals() {
    assert_eq!(shape("\"\""), vec![(TokenKind::String, 0, 2), (TokenKind::Eof, 2, 2)]);
    assert_eq!(
        shape("\"a\\\"b\\\\\""),
        vec![(TokenKind::String, 0, 8), (TokenKind::Eof, 8, 8)]
    );
    assert_eq!(
        shape("\"\u{e9}\n\""),
        vec![(TokenKind::String, 0, 5), (TokenKind::Eof, 5, 5)]
    );
    // the first quote that is not escaped ends the literal
    assert_eq!(
        shape("\"a\"b\""),
        vec![
            (TokenKind::String, 0, 3),
            (TokenKind::Identifier, 3, 4),
            (TokenKind::Error, 4, 5),
            (TokenKind::Eof, 5, 5),
        ]
    );
}

#[test]
fn unterminated_string_falls_through_to_error_recovery() {
    assert_eq!(
        shape("\"abc"),
        vec![(TokenKind::Error, 0, 1), (TokenKind::Identifier, 1, 4), (TokenKind::Eof, 4, 4)]
    );
    // a backslash before anything but a quote or a backslash
    assert_eq!(
        shape("\"a\\n\""),
        vec![
            (TokenKind::Error, 0, 1),
            (TokenKind::Identifier, 1, 2),
            (TokenKind::Error, 2, 3),
            (TokenKind::Identifier, 3, 4),
            (TokenKind::Error, 4, 5),
            (TokenKind::Eof, 5, 5),
        ]
    );
}

#[test]
fn line_comments() {
    assert_eq!(
        shape("// c\nx"),
        vec![(TokenKind::Comment, 0, 5), (TokenKind::Identifier, 5, 6), (TokenKind::Eof, 6, 6)]
    );
    assert_eq!(
        shape("//x"),
        vec![
            (TokenKind::Slash, 0, 1),
            (TokenKind::Slash, 1, 2),
            (TokenKind::Identifier, 2, 3),
            (TokenKind::Eof, 3, 3),
        ]
    );
    assert_eq!(shape("//\n"), vec![(TokenKind::Comment, 0, 3), (TokenKind::Eof, 3, 3)]);
}

#[test]
fn whitespace_runs_are_one_token() {
    assert_eq!(shape(" \t\r\n\u{c} "), vec![(TokenKind::Whitespace, 0, 6), (TokenKind::Eof, 6, 6)]);
    assert_eq!(
        shape("a\u{a0}\u{2003}b"),
        vec![
            (TokenKind::Identifier, 0, 1),
            (TokenKind::Whitespace, 1, 6),
            (TokenKind::Identifier, 6, 7),
            (TokenKind::Eof, 7, 7),
        ]
    );
    for c in ['\u{85}', '\u{1680}', '\u{2000}', '\u{200a}', '\u{2028}', '\u{2029}', '\u{202f}',
        '\u{205f}', '\u{3000}', '\u{b}'] {
        let input = c.to_string();
        let len = input.len() as u32;
        assert_eq!(
            shape(&input),
            vec![(TokenKind::Whitespace, 0, len), (TokenKind::Eof, len, len)]
        );
    }
    // ZERO WIDTH SPACE and the byte order mark are no whitespace
    for c in ['\u{200b}', '\u{feff}', '\u{2060}'] {
        let input = c.to_string();
        let len = input.len() as u32;
        assert_eq!(shape(&input), vec![(TokenKind::Error, 0, len), (TokenKind::Eof, len, len)]);
    }
}

#[test]
fn whitespace_agrees_with_char_is_whitespace() {
    let mut code: u32 = 0;
    while code < 0x11000 {
        if let Some(c) = char::from_u32(code) {
            let input = c.to_string();
            let first = lex(&input)[0];
            assert_eq!(first.kind == TokenKind::Whitespace, c.is_whitespace(), "U+{:04X}", code);
        }
        code += 1;
    }
}

#[test]
fn lone_ampersand_and_bar_are_errors() {
    assert_eq!(shape("&"), vec![(TokenKind::Error, 0, 1), (TokenKind::Eof, 1, 1)]);
    assert_eq!(shape("|"), vec![(TokenKind::Error, 0, 1), (TokenKind::Eof, 1, 1)]);
    assert_eq!(
        shape("&&&"),
        vec![(TokenKind::And, 0, 2), (TokenKind::Error, 2, 3), (TokenKind::Eof, 3, 3)]
    );
}

#[test]
fn two_character_operators() {
    assert_eq!(
        shape("==!=<=>=<>=!"),
        vec![
            (TokenKind::Eqq, 0, 2),
            (TokenKind::Neq, 2, 4),
            (TokenKind::Leq, 4, 6),
            (TokenKind::Geq, 6, 8),
            (TokenKind::LAngle, 8, 9),
            (TokenKind::Geq, 9, 11),
            (TokenKind::Bang, 11, 12),
            (TokenKind::Eof, 12, 12),
        ]
    );
}

#[test]
fn next_token_reads_from_the_given_text() {
    let mut lexer = CustomLexer::new("");
    let token = lexer.next_token("let x");
    assert_eq!(token, Token { kind: TokenKind::KeywordLet, span: Span { start: 0, end: 3 } });
    let token = lexer.next_token(" x");
    assert_eq!(token, Token { kind: TokenKind::Whitespace, span: Span { start: 3, end: 4 } });
    let token = lexer.next_token("$$x");
    assert_eq!(token, Token { kind: TokenKind::Error, span: Span { start: 4, end: 6 } });
    let token = lexer.next_token("$");
    assert_eq!(token, Token { kind: TokenKind::Error, span: Span { start: 6, end: 7 } });
}

#[test]
fn rules_are_listed_by_priority() {
    let rules = get_rules();
    assert_eq!(rules.len(), 37);
    assert_eq!(rules[0].kind, TokenKind::Whitespace);
    let kinds: Vec<TokenKind> = rules.iter().map(|rule| rule.kind).collect();
    let position = |kind: TokenKind| kinds.iter().position(|k| *k == kind).unwrap();
    assert!(position(TokenKind::KeywordIf) < position(TokenKind::Identifier));
    assert!(position(TokenKind::KeywordStruct) < position(TokenKind::Identifier));
    assert!(position(TokenKind::Int) < position(TokenKind::Float));
    assert!(position(TokenKind::Underscore) < position(TokenKind::Identifier));
    assert!(!kinds.contains(&TokenKind::Eof));
    assert!(!kinds.contains(&TokenKind::Error));
    assert!(!kinds.contains(&TokenKind::Ampersand));
    assert!(!kinds.contains(&TokenKind::Bar));
}

#[test]
fn rule_matches_at_an_offset() {
    let input = "x = \"s\" 12.5 // c\n".as_bytes();
    let string = Rule { kind: TokenKind::String, matcher: Matcher::String };
    assert_eq!(string.matches(input, 4), Some(3));
    assert_eq!(string.matches(input, 0), None);
    let float = Rule { kind: TokenKind::Float, matcher: Matcher::Float };
    assert_eq!(float.matches(input, 8), Some(4));
    let int = Rule { kind: TokenKind::Int, matcher: Matcher::Int };
    assert_eq!(int.matches(input, 8), Some(2));
    let comment = Rule { kind: TokenKind::Comment, matcher: Matcher::Comment };
    assert_eq!(comment.matches(input, 13), Some(5));
    let keyword = Rule { kind: TokenKind::KeywordLet, matcher: Matcher::Keyword("let") };
    assert_eq!(keyword.matches("letter".as_bytes(), 0), Some(3));
    assert_eq!(keyword.matches("le".as_bytes(), 0), None);
    assert_eq!(keyword.matches("alet".as_bytes(), 1), Some(3));
    let nothing = Rule { kind: TokenKind::KeywordLet, matcher: Matcher::Keyword("") };
    assert_eq!(nothing.matches("let".as_bytes(), 0), None);
    let pair = Rule { kind: TokenKind::Eqq, matcher: Matcher::TwoChars(b'=', b'=') };
    assert_eq!(pair.matches("a==".as_bytes(), 1), Some(2));
    assert_eq!(pair.matches("a==".as_bytes(), 2), None);
    let single = Rule { kind: TokenKind::Eq, matcher: Matcher::SingleChar(b'=') };
    assert_eq!(single.matches("a==".as_bytes(), 2), Some(1));
    assert_eq!(single.matches("a==".as_bytes(), 3), None);
    let identifier = Rule { kind: TokenKind::Identifier, matcher: Matcher::Identifier };
    assert_eq!(identifier.matches("ab_9-".as_bytes(), 0), Some(4));
    assert_eq!(identifier.matches("9a".as_bytes(), 0), None);
    let whitespace = Rule { kind: TokenKind::Whitespace, matcher: Matcher::Whitespace };
    assert_eq!(whitespace.matches(" \u{2003}\tx".as_bytes(), 0), Some(5));
}

#[test]
fn longest_match_prefers_length_then_priority() {
    let rules = get_rules();
    assert_eq!(longest_match(&rules, "if".as_bytes(), 0), Some((2, TokenKind::KeywordIf)));
    assert_eq!(longest_match(&rules, "ifx".as_bytes(), 0), Some((3, TokenKind::Identifier)));
    assert_eq!(longest_match(&rules, "12".as_bytes(), 0), Some((2, TokenKind::Int)));
    assert_eq!(longest_match(&rules, "12.5".as_bytes(), 0), Some((4, TokenKind::Float)));
    assert_eq!(longest_match(&rules, "==".as_bytes(), 0), Some((2, TokenKind::Eqq)));
    assert_eq!(longest_match(&rules, "=".as_bytes(), 0), Some((1, TokenKind::Eq)));
    assert_eq!(longest_match(&rules, "$".as_bytes(), 0), None);
    assert_eq!(longest_match(&rules, "".as_bytes(), 0), None);
    // with the order turned round, the identifier rule comes first and wins the tie
    let reversed: Vec<Rule> = rules.iter().rev().copied().collect();
    assert_eq!(longest_match(&reversed, "if".as_bytes(), 0), Some((2, TokenKind::Identifier)));
    assert_eq!(longest_match(&reversed, "12".as_bytes(), 0), Some((2, TokenKind::Float)));
}

#[test]
fn unambiguous_single_characters() {
    assert_eq!(unambiguous_single_char(b'+'), Some(TokenKind::Plus));
    assert_eq!(unambiguous_single_char(b'-'), Some(TokenKind::Minus));
    assert_eq!(unambiguous_single_char(b'*'), Some(TokenKind::Times));
    assert_eq!(unambiguous_single_char(b'^'), Some(TokenKind::Pow));
    assert_eq!(unambiguous_single_char(b','), Some(TokenKind::Comma));
    assert_eq!(unambiguous_single_char(b'['), Some(TokenKind::LSquare));
    assert_eq!(unambiguous_single_char(b']'), Some(TokenKind::RSquare));
    assert_eq!(unambiguous_single_char(b'{'), Some(TokenKind::LBrace));
    assert_eq!(unambiguous_single_char(b'}'), Some(TokenKind::RBrace));
    assert_eq!(unambiguous_single_char(b'('), Some(TokenKind::LParen));
    assert_eq!(unambiguous_single_char(b')'), Some(TokenKind::RParen));
    assert_eq!(unambiguous_single_char(b':'), Some(TokenKind::Colon));
    assert_eq!(unambiguous_single_char(b';'), Some(TokenKind::SemiColon));
    for ambiguous in [b'=', b'!', b'<', b'>', b'/', b'.', b'_', b'&', b'|', b'a', b'1', b' '] {
        assert_eq!(unambiguous_single_char(ambiguous), None);
    }
}

#[test]
fn every_single_byte_is_lexed_as_the_rules_say() {
    let rules = get_rules();
    let mut byte: u8 = 0;
    while byte < 0x80 {
        let input = (byte as char).to_string();
        let first = lex(&input)[0];
        match longest_match(&rules, input.as_bytes(), 0) {
            Some((len, kind)) => {
                assert_eq!(first, Token { kind, span: Span { start: 0, end: len } })
            }
            None => assert_eq!(first.kind, TokenKind::Error),
        }
        byte += 1;
    }
}

#[test]
fn token_filter_drops_whitespace_and_comments() {
    let input = " a // c\n + $ \t";
    let mut filtered = TokenIter::new(input);
    let mut kinds = Vec::new();
    while let Some(token) = filtered.next() {
        kinds.push((token.kind, token.text(input).to_string()));
    }
    assert_eq!(
        kinds,
        vec![
            (TokenKind::Identifier, "a".to_string()),
            (TokenKind::Plus, "+".to_string()),
            (TokenKind::Error, "$".to_string()),
            (TokenKind::Eof, "".to_string()),
        ]
    );
    assert_eq!(filtered.next(), None);
    assert_eq!(filtered.next(), None);
}

#[test]
fn token_classes_make_their_kinds() {
    assert_eq!(LogosToken::Dot.kind(), TokenKind::Dot);
    assert_eq!(LogosToken::Semi.kind(), TokenKind::SemiColon);
    assert_eq!(LogosToken::Under.kind(), TokenKind::Underscore);
    assert_eq!(LogosToken::LineComment.kind(), TokenKind::Comment);
    assert_eq!(LogosToken::Ident.kind(), TokenKind::Identifier);
    assert_eq!(LogosToken::KwStruct.kind(), TokenKind::KeywordStruct);
    assert_eq!(LogosToken::WS.kind(), TokenKind::Whitespace);
    assert_eq!(LogosToken::Error.kind(), TokenKind::Error);
    assert_eq!(LogosToken::Eqq.kind(), TokenKind::Eqq);
    assert_eq!(LogosToken::Geq.kind(), TokenKind::Geq);
}

#[test]
fn tokenize_is_total_on_texts_that_spans_can_count() {
    for input in SAMPLES {
        assert_eq!(parsing_basics::lexer::tokenize(input), Some(lex(input)));
        let mut lexer = CustomLexer::try_new(input).unwrap();
        assert_eq!(lexer.tokenize(), lex(input));
    }
}
