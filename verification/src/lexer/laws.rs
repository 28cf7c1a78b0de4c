//! What holds of the tokens of every text.
use super::rules::{
    is_winner, lemma_match_ends_ascii, lemma_starts_on, lemma_table_kinds, lemma_table_matchers,
    lemma_table_starts, lexeme, rule_table, whitespace_len, whitespace_width, winner,
};
use super::token::{Token, TokenKind};
use super::{
    eof_token, error_scan, first_token, lemma_error_scan_bounds, lemma_first_token_len,
    tokens_from, tokens_of,
};
use vstd::prelude::*;
use vstd::utf8::{
    is_char_boundary, is_char_boundary_iff_not_is_continuation_byte,
    is_char_boundary_start_end_of_seq, is_continuation_byte, length_of_first_scalar,
    pop_first_scalar, valid_utf8, valid_utf8_split,
};

verus! {

/// The texts of `tokens`, one after the other.
pub open spec fn texts(tokens: Seq<Token>, s: Seq<u8>) -> Seq<u8>
    decreases tokens.len(),
{
    if tokens.len() == 0 {
        Seq::empty()
    } else {
        tokens[0].span.of(s) + texts(tokens.drop_first(), s)
    }
}

/// Token `k` is non-empty, is no `Eof`, and ends where the next one starts.
pub open spec fn linked(tokens: Seq<Token>, k: int) -> bool {
    &&& tokens[k].span.start < tokens[k].span.end
    &&& tokens[k].span.end == tokens[k + 1].span.start
    &&& tokens[k].kind != TokenKind::Eof
}

/// The spans of `tokens` follow one another without a gap from offset `at`
/// to the end of `s`: every token but the last is non-empty and is no `Eof`,
/// and the last is the empty `Eof` at the end of `s`.
pub open spec fn chained(tokens: Seq<Token>, s: Seq<u8>, at: int) -> bool {
    &&& tokens.len() >= 1
    &&& tokens[0].span.start == at
    &&& forall|k: int| 0 <= k < tokens.len() - 1 ==> #[trigger] linked(tokens, k)
    &&& tokens.last() == eof_token(s.len() as int)
}

/// If token `k` is an `Error`, the next one is not.
pub open spec fn recovered(tokens: Seq<Token>, k: int) -> bool {
    tokens[k].kind == TokenKind::Error ==> tokens[k + 1].kind != TokenKind::Error
}

/// The first token of a text is no `Eof`.
pub proof fn lemma_first_token_kind(s: Seq<u8>)
    ensures
        first_token(s).1 != TokenKind::Eof,
        first_token(s).1 == TokenKind::Error <==> lexeme(rule_table(), s, 0) is None,
{
    match winner(rule_table(), s, 0) {
        Some(k) => {
            assert(is_winner(rule_table(), s, 0, k));
            lemma_table_kinds(k);
        },
        None => {},
    }
}

/// The tokens from `at` on follow one another without a gap up to the end
/// of the text, where the only `Eof` stands.
pub proof fn lemma_tokens_chained(s: Seq<u8>, at: int)
    requires
        0 <= at <= s.len() <= u32::MAX,
    ensures
        chained(tokens_from(s, at), s, at),
    decreases s.len() - at,
{
    if at < s.len() {
        let rest = s.skip(at);
        lemma_first_token_len(rest);
        lemma_first_token_kind(rest);
        let (len, kind) = first_token(rest);
        lemma_tokens_chained(s, at + len);
        let head = seq![
            Token { kind, span: super::token::Span { start: at as u32, end: (at + len) as u32 } },
        ];
        let tail = tokens_from(s, at + len);
        let tokens = tokens_from(s, at);
        assert(tokens == head + tail);
        assert forall|k: int| 0 <= k < tokens.len() - 1 implies #[trigger] linked(tokens, k) by {
            if k > 0 {
                assert(linked(tail, k - 1));
                assert(tokens[k] == tail[k - 1]);
                assert(tokens[k + 1] == tail[k]);
            } else {
                assert(tokens[1] == tail[0]);
            }
        }
        assert(tokens.last() == tail.last());
    }
}

/// Put together in order, the texts of the tokens from `at` on are the text
/// from `at` on.
pub proof fn lemma_texts_from(s: Seq<u8>, at: int)
    requires
        0 <= at <= s.len() <= u32::MAX,
    ensures
        texts(tokens_from(s, at), s) == s.skip(at),
    decreases s.len() - at,
{
    let tokens = tokens_from(s, at);
    if at < s.len() {
        let rest = s.skip(at);
        lemma_first_token_len(rest);
        let (len, kind) = first_token(rest);
        lemma_texts_from(s, at + len);
        let tail = tokens_from(s, at + len);
        assert(tokens.drop_first() =~= tail);
        assert(tokens[0].span.of(s) + s.skip(at + len) =~= s.skip(at));
    } else {
        assert(tokens.drop_first() =~= Seq::<Token>::empty());
        assert(texts(tokens.drop_first(), s) =~= Seq::<u8>::empty());
        assert(tokens[0].span.of(s) + Seq::<u8>::empty() =~= s.skip(at));
    }
}

/// Coverage: put together in order, the texts of all the tokens of a text,
/// whitespace, comments and errors included, are the text itself.
pub proof fn lemma_tokens_cover(s: Seq<u8>)
    requires
        s.len() <= u32::MAX,
    ensures
        texts(tokens_of(s), s) == s,
{
    lemma_texts_from(s, 0);
    assert(s.skip(0) =~= s);
}

/// Single end of file: the tokens of a text hold exactly one `Eof`, which is
/// the last of them, is empty and stands at the end of the text. Every other
/// token is non-empty and starts where the one before it ended.
pub proof fn lemma_single_eof(s: Seq<u8>)
    requires
        s.len() <= u32::MAX,
    ensures
        chained(tokens_of(s), s, 0),
        tokens_of(s).last().kind == TokenKind::Eof,
        forall|k: int|
            0 <= k < tokens_of(s).len() - 1 ==> (#[trigger] tokens_of(s)[k]).kind
                != TokenKind::Eof,
{
    lemma_tokens_chained(s, 0);
    assert forall|k: int| 0 <= k < tokens_of(s).len() - 1 implies (#[trigger] tokens_of(
        s,
    )[k]).kind != TokenKind::Eof by {
        assert(linked(tokens_of(s), k));
    }
}

/// Where a run of unmatched bytes ends before the end of the text, a rule
/// matches; and none matches inside the run.
pub proof fn lemma_error_scan_minimal(s: Seq<u8>, k: int)
    requires
        0 <= k <= s.len(),
    ensures
        error_scan(s, k) < s.len() ==> lexeme(rule_table(), s.skip(error_scan(s, k)), 0) is Some,
        forall|j: int|
            k <= j < error_scan(s, k) ==> lexeme(rule_table(), #[trigger] s.skip(j), 0) is None,
    decreases s.len() - k,
{
    if k < s.len() && lexeme(rule_table(), s.skip(k), 0) is None {
        lemma_error_scan_minimal(s, k + 1);
    }
}

/// Error recovery: an `Error` token is never followed by another. What
/// follows it is a token that a rule matched, or the closing `Eof`.
pub proof fn lemma_no_adjacent_errors(s: Seq<u8>, at: int)
    requires
        0 <= at <= s.len() <= u32::MAX,
    ensures
        forall|k: int|
            0 <= k < tokens_from(s, at).len() - 1 ==> #[trigger] recovered(tokens_from(s, at), k),
    decreases s.len() - at,
{
    let tokens = tokens_from(s, at);
    if at < s.len() {
        let rest = s.skip(at);
        lemma_first_token_len(rest);
        lemma_first_token_kind(rest);
        let (len, kind) = first_token(rest);
        let tail = tokens_from(s, at + len);
        lemma_no_adjacent_errors(s, at + len);
        assert forall|k: int| 0 <= k < tokens.len() - 1 implies #[trigger] recovered(
            tokens,
            k,
        ) by {
            if k > 0 {
                assert(recovered(tail, k - 1));
                assert(tokens[k] == tail[k - 1]);
                assert(tokens[k + 1] == tail[k]);
            } else {
                assert(tokens[1] == tail[0]);
                if at + len < s.len() {
                    lemma_error_scan_minimal(rest, 1);
                    assert(rest.skip(len) =~= s.skip(at + len));
                    lemma_first_token_len(s.skip(at + len));
                    lemma_first_token_kind(s.skip(at + len));
                }
            }
        }
    }
}

/// In well-formed text, the byte after an ASCII byte begins a character.
pub proof fn lemma_boundary_after_ascii(s: Seq<u8>, i: int)
    requires
        valid_utf8(s),
        0 <= i < s.len(),
        s[i] < 0x80,
    ensures
        is_char_boundary(s, i + 1),
{
    is_char_boundary_iff_not_is_continuation_byte(s, i);
    lemma_next_boundary(s, i);
}

/// In well-formed text, the character that begins at a boundary ends at one.
pub proof fn lemma_next_boundary(s: Seq<u8>, i: int)
    requires
        valid_utf8(s),
        0 <= i < s.len(),
        is_char_boundary(s, i),
    ensures
        i + length_of_first_scalar(s.subrange(i, s.len() as int)) <= s.len(),
        is_char_boundary(s, i + length_of_first_scalar(s.subrange(i, s.len() as int))),
{
    let rest = s.subrange(i, s.len() as int);
    valid_utf8_split(s, i);
    let width = length_of_first_scalar(rest);
    let after = pop_first_scalar(rest);
    assert(valid_utf8(after));
    assert(after =~= s.subrange(i + width, s.len() as int));
    if i + width == s.len() {
        is_char_boundary_start_end_of_seq(s);
    } else {
        assert(after.len() > 0);
        assert(after[0] == s[i + width]);
        assert(!is_continuation_byte(after[0]));
        is_char_boundary_iff_not_is_continuation_byte(s, i + width);
    }
}

/// In well-formed text, a run of whitespace that begins at a character
/// boundary ends at one.
pub proof fn lemma_whitespace_boundary(s: Seq<u8>, i: int)
    requires
        valid_utf8(s),
        0 <= i <= s.len(),
        is_char_boundary(s, i),
    ensures
        i + whitespace_len(s, i) <= s.len(),
        is_char_boundary(s, i + whitespace_len(s, i)),
    decreases s.len() - i,
{
    let width = whitespace_width(s, i);
    if width > 0 {
        lemma_next_boundary(s, i);
        assert(s.subrange(i, s.len() as int)[0] == s[i]);
        assert(length_of_first_scalar(s.subrange(i, s.len() as int)) == width);
        lemma_whitespace_boundary(s, i + width);
    }
}

/// In well-formed text, the first token ends at a character boundary.
pub proof fn lemma_first_token_boundary(s: Seq<u8>)
    requires
        valid_utf8(s),
        s.len() > 0,
    ensures
        is_char_boundary(s, first_token(s).0),
{
    lemma_first_token_len(s);
    let len = first_token(s).0;
    match winner(rule_table(), s, 0) {
        Some(k) => {
            assert(is_winner(rule_table(), s, 0, k));
            lemma_table_kinds(k);
            let matcher = rule_table()[k].matcher;
            if k == 0 {
                is_char_boundary_start_end_of_seq(s);
                lemma_whitespace_boundary(s, 0);
            } else {
                lemma_match_ends_ascii(matcher, s, 0);
                lemma_boundary_after_ascii(s, len - 1);
            }
        },
        None => {
            lemma_error_scan_bounds(s, 1);
            lemma_error_scan_minimal(s, 1);
            if len < s.len() {
                let next = winner(rule_table(), s.skip(len), 0)->0;
                assert(is_winner(rule_table(), s.skip(len), 0, next));
                lemma_starts_on(rule_table()[next].matcher, s.skip(len), 0);
                lemma_table_starts(next, s[len]);
                is_char_boundary_iff_not_is_continuation_byte(s, len);
            } else {
                is_char_boundary_start_end_of_seq(s);
            }
        },
    }
}

/// A boundary of the text from `at` on is a boundary of the whole text.
pub proof fn lemma_boundary_in_suffix(s: Seq<u8>, at: int, n: int)
    requires
        valid_utf8(s),
        0 <= at <= s.len(),
        is_char_boundary(s, at),
        0 <= n <= s.len() - at,
        is_char_boundary(s.skip(at), n),
    ensures
        valid_utf8(s.skip(at)),
        is_char_boundary(s, at + n),
{
    valid_utf8_split(s, at);
    assert(s.skip(at) =~= s.subrange(at, s.len() as int));
    if at + n == s.len() {
        is_char_boundary_start_end_of_seq(s);
    } else {
        is_char_boundary_iff_not_is_continuation_byte(s.skip(at), n);
        is_char_boundary_iff_not_is_continuation_byte(s, at + n);
    }
}

/// In well-formed text, every token from a character boundary on starts and
/// ends at a character boundary, so that its text can be cut out.
pub proof fn lemma_tokens_fit_from(s: Seq<u8>, at: int)
    requires
        valid_utf8(s),
        0 <= at <= s.len() <= u32::MAX,
        is_char_boundary(s, at),
    ensures
        forall|k: int|
            0 <= k < tokens_from(s, at).len() ==> (#[trigger] tokens_from(s, at)[k]).span.fits(s),
    decreases s.len() - at,
{
    let tokens = tokens_from(s, at);
    if at < s.len() {
        let rest = s.skip(at);
        valid_utf8_split(s, at);
        assert(rest =~= s.subrange(at, s.len() as int));
        lemma_first_token_len(rest);
        lemma_first_token_boundary(rest);
        let (len, kind) = first_token(rest);
        lemma_boundary_in_suffix(s, at, len);
        lemma_tokens_fit_from(s, at + len);
        let tail = tokens_from(s, at + len);
        assert forall|k: int| 0 <= k < tokens.len() implies (#[trigger] tokens[k]).span.fits(
            s,
        ) by {
            if k > 0 {
                assert(tokens[k] == tail[k - 1]);
            }
        }
    }
}

/// The spans of all the tokens of a text lie inside it and cut no character
/// in two.
pub proof fn lemma_tokens_fit(s: Seq<u8>)
    requires
        valid_utf8(s),
        s.len() <= u32::MAX,
    ensures
        forall|k: int| 0 <= k < tokens_of(s).len() ==> (#[trigger] tokens_of(s)[k]).span.fits(s),
{
    is_char_boundary_start_end_of_seq(s);
    lemma_tokens_fit_from(s, 0);
}

/// The token is what the rules say of the text `s` at its span: an `Eof` is
/// empty and stands at the end of the text; an `Error` covers bytes at none
/// of which a rule matches, up to the end of the text or to a byte at which
/// one matches; any other token is the longest match of any rule at its
/// start, and has the kind of the first rule that matches that much.
pub open spec fn follows_rules(s: Seq<u8>, token: Token) -> bool {
    let start = token.span.start as int;
    let end = token.span.end as int;
    match token.kind {
        TokenKind::Eof => start == end == s.len(),
        TokenKind::Error => {
            &&& start < end <= s.len()
            &&& forall|j: int|
                start <= j < end ==> lexeme(rule_table(), #[trigger] s.skip(j), 0) is None
            &&& end < s.len() ==> lexeme(rule_table(), s.skip(end), 0) is Some
        },
        kind => {
            &&& start < end <= s.len()
            &&& lexeme(rule_table(), s.skip(start), 0) == Some(((end - start) as nat, kind))
        },
    }
}

/// Longest match, first rule first: every token from `at` on is what the
/// rules say of the text at its span.
pub proof fn lemma_tokens_follow_rules_from(s: Seq<u8>, at: int)
    requires
        0 <= at <= s.len() <= u32::MAX,
    ensures
        forall|k: int|
            0 <= k < tokens_from(s, at).len() ==> follows_rules(
                s,
                #[trigger] tokens_from(s, at)[k],
            ),
    decreases s.len() - at,
{
    let tokens = tokens_from(s, at);
    if at < s.len() {
        let rest = s.skip(at);
        lemma_first_token_len(rest);
        lemma_first_token_kind(rest);
        let (len, kind) = first_token(rest);
        let tail = tokens_from(s, at + len);
        lemma_tokens_follow_rules_from(s, at + len);
        if kind == TokenKind::Error {
            lemma_error_scan_minimal(rest, 1);
            assert forall|j: int| at <= j < at + len implies lexeme(
                rule_table(),
                #[trigger] s.skip(j),
                0,
            ) is None by {
                assert(rest.skip(j - at) =~= s.skip(j));
            }
            if at + len < s.len() {
                assert(rest.skip(len) =~= s.skip(at + len));
            }
        }
        assert(follows_rules(s, tokens[0]));
        assert forall|k: int| 0 <= k < tokens.len() implies follows_rules(
            s,
            #[trigger] tokens[k],
        ) by {
            if k > 0 {
                assert(tokens[k] == tail[k - 1]);
            }
        }
    }
}

/// Longest match, first rule first: every token of a text is what the rules
/// say of the text at its span.
pub proof fn lemma_tokens_follow_rules(s: Seq<u8>)
    requires
        s.len() <= u32::MAX,
    ensures
        forall|k: int|
            0 <= k < tokens_of(s).len() ==> follows_rules(s, #[trigger] tokens_of(s)[k]),
{
    lemma_tokens_follow_rules_from(s, 0);
}


/// A text has at most one token for each of its bytes from `at` on, and the
/// closing `Eof`.
pub proof fn lemma_tokens_count_from(s: Seq<u8>, at: int)
    requires
        0 <= at <= s.len(),
    ensures
        1 <= tokens_from(s, at).len() <= s.len() - at + 1,
    decreases s.len() - at,
{
    if at < s.len() {
        lemma_first_token_len(s.skip(at));
        lemma_tokens_count_from(s, at + first_token(s.skip(at)).0);
    }
}

/// A text of n bytes has at most n + 1 tokens.
pub proof fn lemma_tokens_count(s: Seq<u8>)
    ensures
        1 <= tokens_of(s).len() <= s.len() + 1,
{
    lemma_tokens_count_from(s, 0);
}

/// A run of whitespace is maximal: no whitespace character stands behind
/// it.
pub proof fn lemma_whitespace_maximal(s: Seq<u8>, i: int)
    requires
        0 <= i <= s.len(),
    ensures
        whitespace_width(s, i + whitespace_len(s, i)) == 0,
    decreases s.len() - i,
{
    let width = whitespace_width(s, i);
    if width > 0 {
        lemma_whitespace_maximal(s, i + width);
    }
}

/// If token `k` is a `Whitespace`, the next one is not.
pub open spec fn spaced(tokens: Seq<Token>, k: int) -> bool {
    tokens[k].kind == TokenKind::Whitespace ==> tokens[k + 1].kind != TokenKind::Whitespace
}

/// A first token of kind `Whitespace` is the run of whitespace at the start
/// of the text.
pub proof fn lemma_first_whitespace(s: Seq<u8>)
    requires
        s.len() > 0,
    ensures
        first_token(s).1 == TokenKind::Whitespace ==> first_token(s).0 == whitespace_len(s, 0)
            && whitespace_len(s, 0) > 0,
{
    match winner(rule_table(), s, 0) {
        Some(k) => {
            assert(is_winner(rule_table(), s, 0, k));
            lemma_table_matchers(k);
        },
        None => {},
    }
}

/// A maximal run of whitespace is a single token: a `Whitespace` token is
/// never followed by another.
pub proof fn lemma_no_adjacent_whitespace(s: Seq<u8>, at: int)
    requires
        0 <= at <= s.len() <= u32::MAX,
    ensures
        forall|k: int|
            0 <= k < tokens_from(s, at).len() - 1 ==> #[trigger] spaced(tokens_from(s, at), k),
    decreases s.len() - at,
{
    let tokens = tokens_from(s, at);
    if at < s.len() {
        let rest = s.skip(at);
        lemma_first_token_len(rest);
        let (len, kind) = first_token(rest);
        let tail = tokens_from(s, at + len);
        lemma_no_adjacent_whitespace(s, at + len);
        assert forall|k: int| 0 <= k < tokens.len() - 1 implies #[trigger] spaced(tokens, k) by {
            if k > 0 {
                assert(spaced(tail, k - 1));
                assert(tokens[k] == tail[k - 1]);
                assert(tokens[k + 1] == tail[k]);
            } else {
                assert(tokens[1] == tail[0]);
                if kind == TokenKind::Whitespace && at + len < s.len() {
                    let next = s.skip(at + len);
                    lemma_first_whitespace(rest);
                    lemma_whitespace_maximal(rest, 0);
                    crate::lexer::whitespace::lemma_whitespace_from(rest, len);
                    assert(rest.skip(len) =~= next);
                    lemma_first_token_len(next);
                    lemma_first_whitespace(next);
                }
            }
        }
    }
}


} // verus!
