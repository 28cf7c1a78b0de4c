//! The lexical rules: what each one matches at a position of the source, and
//! which rule wins where several match.
//!
//! Every rule works on the bytes of the source. A rule either matches a
//! non-empty run of bytes that starts at the given position, or it does not
//! match there. Where several rules match, the longest match wins, and among
//! rules with the same longest match the one listed first.
//!
//! Digits and letters are those of ASCII. A decimal digit of another script,
//! such as U+0661, is no digit to any rule: it does not continue a number or
//! an identifier, and where it stands no rule matches.
use super::token::TokenKind;
use vstd::prelude::*;
use vstd::string::StringSliceAdditionalSpecFns;
use vstd::utf8::is_ascii_chars_encode_utf8;

verus! {

/// The byte `"`.
pub const QUOTE: u8 = 0x22;

/// The byte `\`.
pub const BACKSLASH: u8 = 0x5c;

/// The line feed.
pub const NEWLINE: u8 = 0x0a;

/// The byte `/`.
pub const SLASH: u8 = 0x2f;

/// The byte `.`.
pub const DOT: u8 = 0x2e;

/// The byte `_`.
pub const UNDERSCORE: u8 = 0x5f;

/// `s` holds byte `b` at index `i`.
pub open spec fn byte_is(s: Seq<u8>, i: int, b: u8) -> bool {
    0 <= i < s.len() && s[i] == b
}

/// An ASCII decimal digit, `0` to `9`. No other character counts as a digit,
/// whatever Unicode says of it.
pub open spec fn is_digit(b: u8) -> bool {
    '0' as u8 <= b <= '9' as u8
}

/// An ASCII letter.
pub open spec fn is_letter(b: u8) -> bool {
    ('A' as u8 <= b <= 'Z' as u8) || ('a' as u8 <= b <= 'z' as u8)
}

/// A byte that may follow the first letter of an identifier.
pub open spec fn is_word(b: u8) -> bool {
    is_letter(b) || is_digit(b) || b == UNDERSCORE
}

/// Number of bytes of the whitespace character encoded at `i`, or 0 where
/// none is. The whitespace characters are those of Unicode's `White_Space`
/// property: U+0009 to U+000D, U+0020, U+0085, U+00A0, U+1680, U+2000 to
/// U+200A, U+2028, U+2029, U+202F, U+205F and U+3000.
pub open spec fn whitespace_width(s: Seq<u8>, i: int) -> nat {
    if !(0 <= i < s.len()) {
        0
    } else if (0x09 <= s[i] <= 0x0d) || s[i] == 0x20 {
        1
    } else if s[i] == 0xc2 && (byte_is(s, i + 1, 0x85) || byte_is(s, i + 1, 0xa0)) {
        2
    } else if s[i] == 0xe1 && byte_is(s, i + 1, 0x9a) && byte_is(s, i + 2, 0x80) {
        3
    } else if s[i] == 0xe2 && byte_is(s, i + 1, 0x80) && i + 2 < s.len() && ((0x80 <= s[i + 2]
        <= 0x8a) || s[i + 2] == 0xa8 || s[i + 2] == 0xa9 || s[i + 2] == 0xaf) {
        3
    } else if s[i] == 0xe2 && byte_is(s, i + 1, 0x81) && byte_is(s, i + 2, 0x9f) {
        3
    } else if s[i] == 0xe3 && byte_is(s, i + 1, 0x80) && byte_is(s, i + 2, 0x80) {
        3
    } else {
        0
    }
}

/// Length in bytes of the maximal run of whitespace characters at `i`.
pub open spec fn whitespace_len(s: Seq<u8>, i: int) -> nat
    decreases s.len() - i,
{
    let w = whitespace_width(s, i);
    if w > 0 {
        w + whitespace_len(s, i + w)
    } else {
        0
    }
}

/// Length of the maximal run of digits at `i`.
pub open spec fn digits_len(s: Seq<u8>, i: int) -> nat
    decreases s.len() - i,
{
    if 0 <= i < s.len() && is_digit(s[i]) {
        1 + digits_len(s, i + 1)
    } else {
        0
    }
}

/// Length of the maximal run of letters, digits and underscores at `i`.
pub open spec fn word_len(s: Seq<u8>, i: int) -> nat
    decreases s.len() - i,
{
    if 0 <= i < s.len() && is_word(s[i]) {
        1 + word_len(s, i + 1)
    } else {
        0
    }
}

/// `s` continues at `i` with all of `word`.
pub open spec fn starts_with(s: Seq<u8>, i: int, word: Seq<u8>) -> bool {
    &&& 0 <= i
    &&& i + word.len() <= s.len()
    &&& forall|k: int| 0 <= k < word.len() ==> s[i + k] == #[trigger] word[k]
}

/// Number of bytes from `i`, inside a string literal, up to and including the
/// closing quote; 0 where the literal is not closed, or where a backslash is
/// followed by anything but a quote or a backslash.
pub open spec fn string_tail_len(s: Seq<u8>, i: int) -> nat
    decreases s.len() - i,
{
    if !(0 <= i < s.len()) {
        0
    } else if s[i] == QUOTE {
        1
    } else if s[i] == BACKSLASH {
        if byte_is(s, i + 1, QUOTE) || byte_is(s, i + 1, BACKSLASH) {
            let rest = string_tail_len(s, i + 2);
            if rest > 0 {
                rest + 2
            } else {
                0
            }
        } else {
            0
        }
    } else {
        let rest = string_tail_len(s, i + 1);
        if rest > 0 {
            rest + 1
        } else {
            0
        }
    }
}

/// Number of bytes from `i` up to and including the next newline; 0 where
/// none follows.
pub open spec fn line_tail_len(s: Seq<u8>, i: int) -> nat
    decreases s.len() - i,
{
    if !(0 <= i < s.len()) {
        0
    } else if s[i] == NEWLINE {
        1
    } else {
        let rest = line_tail_len(s, i + 1);
        if rest > 0 {
            rest + 1
        } else {
            0
        }
    }
}

/// Length of a string literal at `i`: a quote, then any run of escaped
/// quotes, escaped backslashes and bytes that are neither, then a quote.
pub open spec fn string_len(s: Seq<u8>, i: int) -> nat {
    if byte_is(s, i, QUOTE) && string_tail_len(s, i + 1) > 0 {
        1 + string_tail_len(s, i + 1)
    } else {
        0
    }
}

/// Length of a line comment at `i`: two slashes and the rest of the line,
/// newline included.
pub open spec fn comment_len(s: Seq<u8>, i: int) -> nat {
    if byte_is(s, i, SLASH) && byte_is(s, i + 1, SLASH) && line_tail_len(s, i + 2) > 0 {
        2 + line_tail_len(s, i + 2)
    } else {
        0
    }
}

/// Length of the digits and optional fraction of a float at `i`: digits with
/// an optional point and more digits, or a point and digits.
pub open spec fn mantissa_len(s: Seq<u8>, i: int) -> nat {
    let whole = digits_len(s, i);
    if whole > 0 {
        if byte_is(s, i + whole, DOT) && digits_len(s, i + whole + 1) > 0 {
            whole + 1 + digits_len(s, i + whole + 1)
        } else {
            whole
        }
    } else if byte_is(s, i, DOT) && digits_len(s, i + 1) > 0 {
        1 + digits_len(s, i + 1)
    } else {
        0
    }
}

/// Length of an exponent at `i`: `e` or `E`, an optional sign, and digits.
pub open spec fn exponent_len(s: Seq<u8>, i: int) -> nat {
    if byte_is(s, i, 'e' as u8) || byte_is(s, i, 'E' as u8) {
        let sign: nat = if byte_is(s, i + 1, '+' as u8) || byte_is(s, i + 1, '-' as u8) {
            1
        } else {
            0
        };
        if digits_len(s, i + 1 + sign) > 0 {
            1 + sign + digits_len(s, i + 1 + sign)
        } else {
            0
        }
    } else {
        0
    }
}

/// Length of a float literal at `i`: a mantissa and an optional exponent.
pub open spec fn float_len(s: Seq<u8>, i: int) -> nat {
    let mantissa = mantissa_len(s, i);
    if mantissa > 0 {
        mantissa + exponent_len(s, i + mantissa)
    } else {
        0
    }
}

/// Length of an identifier at `i`: a letter, then letters, digits and
/// underscores.
pub open spec fn identifier_len(s: Seq<u8>, i: int) -> nat {
    if 0 <= i < s.len() && is_letter(s[i]) {
        1 + word_len(s, i + 1)
    } else {
        0
    }
}

/// What a rule looks for.
#[derive(Clone, Copy, Debug)]
pub enum Matcher {
    /// A maximal run of whitespace characters.
    Whitespace,
    /// One given byte.
    SingleChar(u8),
    /// Two given bytes in a row.
    TwoChars(u8, u8),
    /// A reserved word.
    Keyword(&'static str),
    /// A string literal.
    String,
    /// A line comment.
    Comment,
    /// A run of digits.
    Int,
    /// A float literal.
    Float,
    /// An identifier.
    Identifier,
}

impl Matcher {
    /// Length of the match at index `i` of `s`; 0 where the rule does not
    /// match there.
    pub open spec fn match_len(self, s: Seq<u8>, i: int) -> nat {
        match self {
            Matcher::Whitespace => whitespace_len(s, i),
            Matcher::SingleChar(c) => if byte_is(s, i, c) {
                1
            } else {
                0
            },
            Matcher::TwoChars(first, second) => if byte_is(s, i, first) && byte_is(
                s,
                i + 1,
                second,
            ) {
                2
            } else {
                0
            },
            Matcher::Keyword(word) => if starts_with(s, i, word.spec_bytes()) {
                word.spec_bytes().len()
            } else {
                0
            },
            Matcher::String => string_len(s, i),
            Matcher::Comment => comment_len(s, i),
            Matcher::Int => digits_len(s, i),
            Matcher::Float => float_len(s, i),
            Matcher::Identifier => identifier_len(s, i),
        }
    }
}

/// A lexical rule: the kind of token it makes, and what it matches.
#[derive(Clone, Copy, Debug)]
pub struct Rule {
    pub kind: TokenKind,
    pub matcher: Matcher,
}

/// What an executable matcher returns, against the length that the rule
/// specifies: `Some` of the length where the rule matches, `None` where it
/// does not.
pub open spec fn found(result: Option<u32>, len: nat) -> bool {
    match result {
        Some(n) => n > 0 && n == len,
        None => len == 0,
    }
}

/// A run of whitespace ends inside the text.
pub proof fn lemma_whitespace_len_bound(s: Seq<u8>, i: int)
    requires
        0 <= i <= s.len(),
    ensures
        i + whitespace_len(s, i) <= s.len(),
    decreases s.len() - i,
{
    if whitespace_width(s, i) > 0 {
        lemma_whitespace_len_bound(s, i + whitespace_width(s, i));
    }
}

/// A run of digits ends inside the text, with a digit.
pub proof fn lemma_digits_len_bound(s: Seq<u8>, i: int)
    requires
        0 <= i,
    ensures
        digits_len(s, i) > 0 ==> i + digits_len(s, i) <= s.len(),
        digits_len(s, i) > 0 ==> is_digit(s[i + digits_len(s, i) - 1]),
    decreases s.len() - i,
{
    if 0 <= i < s.len() && is_digit(s[i]) {
        lemma_digits_len_bound(s, i + 1);
    }
}

/// A run of letters, digits and underscores ends inside the text, with one
/// of them.
pub proof fn lemma_word_len_bound(s: Seq<u8>, i: int)
    requires
        0 <= i <= s.len(),
    ensures
        i + word_len(s, i) <= s.len(),
        word_len(s, i) > 0 ==> is_word(s[i + word_len(s, i) - 1]),
    decreases s.len() - i,
{
    if 0 <= i < s.len() && is_word(s[i]) {
        lemma_word_len_bound(s, i + 1);
    }
}

/// A string literal ends inside the text, with a quote.
pub proof fn lemma_string_tail_len_bound(s: Seq<u8>, i: int)
    requires
        0 <= i,
    ensures
        string_tail_len(s, i) > 0 ==> i + string_tail_len(s, i) <= s.len(),
        string_tail_len(s, i) > 0 ==> s[i + string_tail_len(s, i) - 1] == QUOTE,
    decreases s.len() - i,
{
    if 0 <= i < s.len() && s[i] != QUOTE {
        if s[i] == BACKSLASH {
            if i + 1 < s.len() {
                lemma_string_tail_len_bound(s, i + 2);
            }
        } else {
            lemma_string_tail_len_bound(s, i + 1);
        }
    }
}

/// A line comment ends inside the text, with a newline.
pub proof fn lemma_line_tail_len_bound(s: Seq<u8>, i: int)
    requires
        0 <= i,
    ensures
        line_tail_len(s, i) > 0 ==> i + line_tail_len(s, i) <= s.len(),
        line_tail_len(s, i) > 0 ==> s[i + line_tail_len(s, i) - 1] == NEWLINE,
    decreases s.len() - i,
{
    if 0 <= i < s.len() && s[i] != NEWLINE {
        lemma_line_tail_len_bound(s, i + 1);
    }
}

/// No rule matches beyond the end of the source.
pub proof fn lemma_match_len_bound(matcher: Matcher, s: Seq<u8>, i: int)
    requires
        0 <= i <= s.len(),
    ensures
        i + matcher.match_len(s, i) <= s.len(),
{
    match matcher {
        Matcher::Whitespace => lemma_whitespace_len_bound(s, i),
        Matcher::SingleChar(_) => {},
        Matcher::TwoChars(_, _) => {},
        Matcher::Keyword(_) => {},
        Matcher::String => lemma_string_tail_len_bound(s, i + 1),
        Matcher::Comment => lemma_line_tail_len_bound(s, i + 2),
        Matcher::Int => lemma_digits_len_bound(s, i),
        Matcher::Float => {
            lemma_digits_len_bound(s, i);
            lemma_digits_len_bound(s, i + 1);
            lemma_digits_len_bound(s, i + digits_len(s, i) + 1);
            let m = mantissa_len(s, i);
            lemma_digits_len_bound(s, i + m + 1);
            lemma_digits_len_bound(s, i + m + 2);
        },
        Matcher::Identifier => {
            if i < s.len() {
                lemma_word_len_bound(s, i + 1);
            }
        },
    }
}

/// Width in bytes of the whitespace character at `at`, or 0.
fn whitespace_width_at(input: &[u8], at: usize) -> (width: usize)
    requires
        at <= input.len(),
    ensures
        width == whitespace_width(input@, at as int),
        at + width <= input.len(),
{
    if at >= input.len() {
        return 0;
    }
    let rest: usize = input.len() - at;
    let first: u8 = input[at];
    if (0x09 <= first && first <= 0x0d) || first == 0x20 {
        1
    } else if first == 0xc2 {
        if rest >= 2 && (input[at + 1] == 0x85 || input[at + 1] == 0xa0) {
            2
        } else {
            0
        }
    } else if first == 0xe1 {
        if rest >= 3 && input[at + 1] == 0x9a && input[at + 2] == 0x80 {
            3
        } else {
            0
        }
    } else if first == 0xe2 {
        if rest >= 3 && input[at + 1] == 0x80 {
            let third: u8 = input[at + 2];
            if (0x80 <= third && third <= 0x8a) || third == 0xa8 || third == 0xa9 || third
                == 0xaf {
                3
            } else {
                0
            }
        } else if rest >= 3 && input[at + 1] == 0x81 && input[at + 2] == 0x9f {
            3
        } else {
            0
        }
    } else if first == 0xe3 {
        if rest >= 3 && input[at + 1] == 0x80 && input[at + 2] == 0x80 {
            3
        } else {
            0
        }
    } else {
        0
    }
}

/// Matches a maximal run of whitespace characters.
fn match_whitespace(input: &[u8], at: usize) -> (result: Option<u32>)
    requires
        at <= input.len() <= u32::MAX,
    ensures
        found(result, whitespace_len(input@, at as int)),
{
    let mut end: usize = at;
    loop
        invariant
            at <= end <= input.len(),
            whitespace_len(input@, at as int) == (end - at) + whitespace_len(input@, end as int),
        ensures
            at <= end <= input.len(),
            whitespace_len(input@, at as int) == end - at,
        decreases input.len() - end,
    {
        let width: usize = whitespace_width_at(input, end);
        if width == 0 {
            break ;
        }
        end = end + width;
    }
    if end > at {
        Some((end - at) as u32)
    } else {
        None
    }
}

/// Counts the digits at `at`.
fn count_digits(input: &[u8], at: usize) -> (n: usize)
    requires
        at <= input.len(),
    ensures
        n == digits_len(input@, at as int),
        at + n <= input.len(),
{
    let mut end: usize = at;
    while end < input.len() && '0' as u8 <= input[end] && input[end] <= '9' as u8
        invariant
            at <= end <= input.len(),
            digits_len(input@, at as int) == (end - at) + digits_len(input@, end as int),
        decreases input.len() - end,
    {
        end = end + 1;
    }
    end - at
}

/// Tells whether `b` may follow the first letter of an identifier.
fn is_word_byte(b: u8) -> (r: bool)
    ensures
        r == is_word(b),
{
    ('A' as u8 <= b && b <= 'Z' as u8) || ('a' as u8 <= b && b <= 'z' as u8) || ('0' as u8 <= b
        && b <= '9' as u8) || b == UNDERSCORE
}

/// Matches one given byte.
fn match_single_char(input: &[u8], at: usize, c: u8) -> (result: Option<u32>)
    requires
        at <= input.len(),
    ensures
        found(result, Matcher::SingleChar(c).match_len(input@, at as int)),
{
    if at < input.len() && input[at] == c {
        Some(1)
    } else {
        None
    }
}

/// Matches two given bytes in a row.
fn match_two_chars(input: &[u8], at: usize, first: u8, second: u8) -> (result: Option<u32>)
    requires
        at <= input.len(),
    ensures
        found(result, Matcher::TwoChars(first, second).match_len(input@, at as int)),
{
    if input.len() - at >= 2 {
        match match_single_char(input, at, first) {
            Some(_) => match match_single_char(input, at + 1, second) {
                Some(_) => Some(2),
                None => None,
            },
            None => None,
        }
    } else {
        None
    }
}

/// Matches a reserved word.
fn match_keyword(input: &[u8], at: usize, keyword: &str) -> (result: Option<u32>)
    requires
        at <= input.len() <= u32::MAX,
    ensures
        found(result, Matcher::Keyword(keyword).match_len(input@, at as int)),
{
    let word = keyword.as_bytes();
    if word.len() == 0 || word.len() > input.len() - at {
        return None;
    }
    let mut k: usize = 0;
    while k < word.len()
        invariant
            k <= word.len(),
            word@ == keyword.spec_bytes(),
            at + word.len() <= input.len(),
            forall|j: int| 0 <= j < k ==> input@[at + j] == #[trigger] word@[j],
        decreases word.len() - k,
    {
        if input[at + k] != word[k] {
            return None;
        }
        k = k + 1;
    }
    Some(word.len() as u32)
}

/// Matches a string literal.
fn match_string(input: &[u8], at: usize) -> (result: Option<u32>)
    requires
        at <= input.len() <= u32::MAX,
    ensures
        found(result, string_len(input@, at as int)),
{
    if at >= input.len() || input[at] != QUOTE {
        return None;
    }
    let mut end: usize = at + 1;
    loop
        invariant
            at < end <= input.len() <= u32::MAX,
            input@[at as int] == QUOTE,
            string_tail_len(input@, at + 1) == (if string_tail_len(input@, end as int) > 0 {
                (end - (at + 1)) + string_tail_len(input@, end as int)
            } else {
                0
            }),
        decreases input.len() - end,
    {
        if end >= input.len() {
            return None;
        }
        let b: u8 = input[end];
        if b == QUOTE {
            return Some((end + 1 - at) as u32);
        } else if b == BACKSLASH {
            if input.len() - end >= 2 && (input[end + 1] == QUOTE || input[end + 1]
                == BACKSLASH) {
                end = end + 2;
            } else {
                return None;
            }
        } else {
            end = end + 1;
        }
    }
}

/// Matches a line comment.
fn match_comment(input: &[u8], at: usize) -> (result: Option<u32>)
    requires
        at <= input.len() <= u32::MAX,
    ensures
        found(result, comment_len(input@, at as int)),
{
    if input.len() - at < 2 || input[at] != SLASH || input[at + 1] != SLASH {
        return None;
    }
    let mut end: usize = at + 2;
    loop
        invariant
            at + 2 <= end <= input.len() <= u32::MAX,
            input@[at as int] == SLASH,
            input@[at + 1] == SLASH,
            line_tail_len(input@, at + 2) == (if line_tail_len(input@, end as int) > 0 {
                (end - (at + 2)) + line_tail_len(input@, end as int)
            } else {
                0
            }),
        decreases input.len() - end,
    {
        if end >= input.len() {
            return None;
        }
        if input[end] == NEWLINE {
            return Some((end + 1 - at) as u32);
        }
        end = end + 1;
    }
}

/// Matches a run of digits.
fn match_int(input: &[u8], at: usize) -> (result: Option<u32>)
    requires
        at <= input.len() <= u32::MAX,
    ensures
        found(result, digits_len(input@, at as int)),
{
    let n: usize = count_digits(input, at);
    if n > 0 {
        Some(n as u32)
    } else {
        None
    }
}

/// Length of the mantissa of a float at `at`, or 0.
fn mantissa_at(input: &[u8], at: usize) -> (n: usize)
    requires
        at <= input.len(),
    ensures
        n == mantissa_len(input@, at as int),
        at + n <= input.len(),
{
    let whole: usize = count_digits(input, at);
    if whole > 0 {
        let dot: usize = at + whole;
        if dot < input.len() && input[dot] == DOT {
            let fraction: usize = count_digits(input, dot + 1);
            if fraction > 0 {
                whole + 1 + fraction
            } else {
                whole
            }
        } else {
            whole
        }
    } else if at < input.len() && input[at] == DOT {
        let fraction: usize = count_digits(input, at + 1);
        if fraction > 0 {
            1 + fraction
        } else {
            0
        }
    } else {
        0
    }
}

/// Length of the exponent of a float at `at`, or 0.
fn exponent_at(input: &[u8], at: usize) -> (n: usize)
    requires
        at <= input.len(),
    ensures
        n == exponent_len(input@, at as int),
        at + n <= input.len(),
{
    if at < input.len() && (input[at] == 'e' as u8 || input[at] == 'E' as u8) {
        let sign: usize = if at + 1 < input.len() && (input[at + 1] == '+' as u8 || input[at + 1]
            == '-' as u8) {
            1
        } else {
            0
        };
        let start: usize = at + 1 + sign;
        let digits: usize = count_digits(input, start);
        if digits > 0 {
            1 + sign + digits
        } else {
            0
        }
    } else {
        0
    }
}

/// Matches a float literal.
fn match_float(input: &[u8], at: usize) -> (result: Option<u32>)
    requires
        at <= input.len() <= u32::MAX,
    ensures
        found(result, float_len(input@, at as int)),
{
    let mantissa: usize = mantissa_at(input, at);
    if mantissa == 0 {
        return None;
    }
    let exponent: usize = exponent_at(input, at + mantissa);
    Some((mantissa + exponent) as u32)
}

/// Matches an identifier.
fn match_identifier(input: &[u8], at: usize) -> (result: Option<u32>)
    requires
        at <= input.len() <= u32::MAX,
    ensures
        found(result, identifier_len(input@, at as int)),
{
    if at >= input.len() {
        return None;
    }
    let first: u8 = input[at];
    if !(('A' as u8 <= first && first <= 'Z' as u8) || ('a' as u8 <= first && first
        <= 'z' as u8)) {
        return None;
    }
    let mut end: usize = at + 1;
    while end < input.len() && is_word_byte(input[end])
        invariant
            at < end <= input.len(),
            word_len(input@, at + 1) == (end - (at + 1)) + word_len(input@, end as int),
        decreases input.len() - end,
    {
        end = end + 1;
    }
    Some((end - at) as u32)
}

impl Rule {
    /// Tries the rule at index `at` of `input`: the length of its match
    /// there, if it matches.
    pub fn matches(&self, input: &[u8], at: usize) -> (result: Option<u32>)
        requires
            at <= input.len() <= u32::MAX,
        ensures
            found(result, self.matcher.match_len(input@, at as int)),
    {
        match self.matcher {
            Matcher::Whitespace => match_whitespace(input, at),
            Matcher::SingleChar(c) => match_single_char(input, at, c),
            Matcher::TwoChars(first, second) => match_two_chars(input, at, first, second),
            Matcher::Keyword(word) => match_keyword(input, at, word),
            Matcher::String => match_string(input, at),
            Matcher::Comment => match_comment(input, at),
            Matcher::Int => match_int(input, at),
            Matcher::Float => match_float(input, at),
            Matcher::Identifier => match_identifier(input, at),
        }
    }
}

/// The rules in order of priority, first to last.
#[verifier::opaque]
pub open spec fn rule_table() -> Seq<Rule> {
    seq![
        Rule { kind: TokenKind::Whitespace, matcher: Matcher::Whitespace },
        Rule { kind: TokenKind::Plus, matcher: Matcher::SingleChar('+' as u8) },
        Rule { kind: TokenKind::Minus, matcher: Matcher::SingleChar('-' as u8) },
        Rule { kind: TokenKind::Times, matcher: Matcher::SingleChar('*' as u8) },
        Rule { kind: TokenKind::Pow, matcher: Matcher::SingleChar('^' as u8) },
        Rule { kind: TokenKind::Comma, matcher: Matcher::SingleChar(',' as u8) },
        Rule { kind: TokenKind::LSquare, matcher: Matcher::SingleChar('[' as u8) },
        Rule { kind: TokenKind::RSquare, matcher: Matcher::SingleChar(']' as u8) },
        Rule { kind: TokenKind::LBrace, matcher: Matcher::SingleChar('{' as u8) },
        Rule { kind: TokenKind::RBrace, matcher: Matcher::SingleChar('}' as u8) },
        Rule { kind: TokenKind::LParen, matcher: Matcher::SingleChar('(' as u8) },
        Rule { kind: TokenKind::RParen, matcher: Matcher::SingleChar(')' as u8) },
        Rule { kind: TokenKind::Colon, matcher: Matcher::SingleChar(':' as u8) },
        Rule { kind: TokenKind::SemiColon, matcher: Matcher::SingleChar(';' as u8) },
        Rule { kind: TokenKind::Dot, matcher: Matcher::SingleChar('.' as u8) },
        Rule { kind: TokenKind::Bang, matcher: Matcher::SingleChar('!' as u8) },
        Rule { kind: TokenKind::Eq, matcher: Matcher::SingleChar('=' as u8) },
        Rule { kind: TokenKind::Slash, matcher: Matcher::SingleChar('/' as u8) },
        Rule { kind: TokenKind::Underscore, matcher: Matcher::SingleChar('_' as u8) },
        Rule { kind: TokenKind::LAngle, matcher: Matcher::SingleChar('<' as u8) },
        Rule { kind: TokenKind::RAngle, matcher: Matcher::SingleChar('>' as u8) },
        Rule { kind: TokenKind::Eqq, matcher: Matcher::TwoChars('=' as u8, '=' as u8) },
        Rule { kind: TokenKind::Neq, matcher: Matcher::TwoChars('!' as u8, '=' as u8) },
        Rule { kind: TokenKind::And, matcher: Matcher::TwoChars('&' as u8, '&' as u8) },
        Rule { kind: TokenKind::Or, matcher: Matcher::TwoChars('|' as u8, '|' as u8) },
        Rule { kind: TokenKind::Leq, matcher: Matcher::TwoChars('<' as u8, '=' as u8) },
        Rule { kind: TokenKind::Geq, matcher: Matcher::TwoChars('>' as u8, '=' as u8) },
        Rule { kind: TokenKind::KeywordLet, matcher: Matcher::Keyword("let") },
        Rule { kind: TokenKind::KeywordFn, matcher: Matcher::Keyword("fn") },
        Rule { kind: TokenKind::KeywordStruct, matcher: Matcher::Keyword("struct") },
        Rule { kind: TokenKind::KeywordIf, matcher: Matcher::Keyword("if") },
        Rule { kind: TokenKind::KeywordElse, matcher: Matcher::Keyword("else") },
        Rule { kind: TokenKind::String, matcher: Matcher::String },
        Rule { kind: TokenKind::Comment, matcher: Matcher::Comment },
        Rule { kind: TokenKind::Int, matcher: Matcher::Int },
        Rule { kind: TokenKind::Float, matcher: Matcher::Float },
        Rule { kind: TokenKind::Identifier, matcher: Matcher::Identifier },
    ]
}

/// The rules in order of priority, first to last.
pub fn get_rules() -> (rules: Vec<Rule>)
    ensures
        rules@ == rule_table(),
{
    let rules = vec![
        Rule { kind: TokenKind::Whitespace, matcher: Matcher::Whitespace },
        Rule { kind: TokenKind::Plus, matcher: Matcher::SingleChar('+' as u8) },
        Rule { kind: TokenKind::Minus, matcher: Matcher::SingleChar('-' as u8) },
        Rule { kind: TokenKind::Times, matcher: Matcher::SingleChar('*' as u8) },
        Rule { kind: TokenKind::Pow, matcher: Matcher::SingleChar('^' as u8) },
        Rule { kind: TokenKind::Comma, matcher: Matcher::SingleChar(',' as u8) },
        Rule { kind: TokenKind::LSquare, matcher: Matcher::SingleChar('[' as u8) },
        Rule { kind: TokenKind::RSquare, matcher: Matcher::SingleChar(']' as u8) },
        Rule { kind: TokenKind::LBrace, matcher: Matcher::SingleChar('{' as u8) },
        Rule { kind: TokenKind::RBrace, matcher: Matcher::SingleChar('}' as u8) },
        Rule { kind: TokenKind::LParen, matcher: Matcher::SingleChar('(' as u8) },
        Rule { kind: TokenKind::RParen, matcher: Matcher::SingleChar(')' as u8) },
        Rule { kind: TokenKind::Colon, matcher: Matcher::SingleChar(':' as u8) },
        Rule { kind: TokenKind::SemiColon, matcher: Matcher::SingleChar(';' as u8) },
        Rule { kind: TokenKind::Dot, matcher: Matcher::SingleChar('.' as u8) },
        Rule { kind: TokenKind::Bang, matcher: Matcher::SingleChar('!' as u8) },
        Rule { kind: TokenKind::Eq, matcher: Matcher::SingleChar('=' as u8) },
        Rule { kind: TokenKind::Slash, matcher: Matcher::SingleChar('/' as u8) },
        Rule { kind: TokenKind::Underscore, matcher: Matcher::SingleChar('_' as u8) },
        Rule { kind: TokenKind::LAngle, matcher: Matcher::SingleChar('<' as u8) },
        Rule { kind: TokenKind::RAngle, matcher: Matcher::SingleChar('>' as u8) },
        Rule { kind: TokenKind::Eqq, matcher: Matcher::TwoChars('=' as u8, '=' as u8) },
        Rule { kind: TokenKind::Neq, matcher: Matcher::TwoChars('!' as u8, '=' as u8) },
        Rule { kind: TokenKind::And, matcher: Matcher::TwoChars('&' as u8, '&' as u8) },
        Rule { kind: TokenKind::Or, matcher: Matcher::TwoChars('|' as u8, '|' as u8) },
        Rule { kind: TokenKind::Leq, matcher: Matcher::TwoChars('<' as u8, '=' as u8) },
        Rule { kind: TokenKind::Geq, matcher: Matcher::TwoChars('>' as u8, '=' as u8) },
        Rule { kind: TokenKind::KeywordLet, matcher: Matcher::Keyword("let") },
        Rule { kind: TokenKind::KeywordFn, matcher: Matcher::Keyword("fn") },
        Rule { kind: TokenKind::KeywordStruct, matcher: Matcher::Keyword("struct") },
        Rule { kind: TokenKind::KeywordIf, matcher: Matcher::Keyword("if") },
        Rule { kind: TokenKind::KeywordElse, matcher: Matcher::Keyword("else") },
        Rule { kind: TokenKind::String, matcher: Matcher::String },
        Rule { kind: TokenKind::Comment, matcher: Matcher::Comment },
        Rule { kind: TokenKind::Int, matcher: Matcher::Int },
        Rule { kind: TokenKind::Float, matcher: Matcher::Float },
        Rule { kind: TokenKind::Identifier, matcher: Matcher::Identifier },
    ];
    proof {
        reveal(rule_table);
        assert(rules@ =~= rule_table());
    }
    rules
}

/// Rule `k` wins at index `i` of `s`: it matches there, no rule matches
/// more, and no rule before it matches as much.
pub open spec fn is_winner(rules: Seq<Rule>, s: Seq<u8>, i: int, k: int) -> bool {
    &&& 0 <= k < rules.len()
    &&& rules[k].matcher.match_len(s, i) > 0
    &&& forall|j: int|
        0 <= j < rules.len() ==> (#[trigger] rules[j]).matcher.match_len(s, i)
            <= rules[k].matcher.match_len(s, i)
    &&& forall|j: int|
        0 <= j < k ==> (#[trigger] rules[j]).matcher.match_len(s, i) < rules[k].matcher.match_len(
            s,
            i,
        )
}

/// The rule that wins at index `i` of `s`, if any rule matches there.
pub open spec fn winner(rules: Seq<Rule>, s: Seq<u8>, i: int) -> Option<int> {
    if exists|k: int| is_winner(rules, s, i, k) {
        Some(choose|k: int| is_winner(rules, s, i, k))
    } else {
        None
    }
}

/// The lexeme at index `i` of `s`: the length and the kind of the match of
/// the winning rule.
pub open spec fn lexeme(rules: Seq<Rule>, s: Seq<u8>, i: int) -> Option<(nat, TokenKind)> {
    match winner(rules, s, i) {
        Some(k) => Some((rules[k].matcher.match_len(s, i), rules[k].kind)),
        None => None,
    }
}

/// At most one rule wins.
pub proof fn lemma_winner_unique(rules: Seq<Rule>, s: Seq<u8>, i: int, k: int)
    requires
        is_winner(rules, s, i, k),
    ensures
        winner(rules, s, i) == Some(k),
{
    let chosen = choose|k: int| is_winner(rules, s, i, k);
    if chosen < k {
        assert(rules[chosen].matcher.match_len(s, i) < rules[k].matcher.match_len(s, i));
    } else if k < chosen {
        assert(rules[k].matcher.match_len(s, i) < rules[chosen].matcher.match_len(s, i));
    }
}

/// Where no rule matches, none wins; where one matches, one wins.
pub proof fn lemma_winner_exists(rules: Seq<Rule>, s: Seq<u8>, i: int)
    ensures
        winner(rules, s, i) is None <==> forall|j: int|
            0 <= j < rules.len() ==> (#[trigger] rules[j]).matcher.match_len(s, i) == 0,
{
    if forall|j: int| 0 <= j < rules.len() ==> (#[trigger] rules[j]).matcher.match_len(s, i) == 0 {
        if exists|k: int| is_winner(rules, s, i, k) {
            let k = choose|k: int| is_winner(rules, s, i, k);
            assert(rules[k].matcher.match_len(s, i) > 0);
        }
    } else {
        let k = lemma_best_prefix(rules, s, i, rules.len() as int);
        assert(is_winner(rules, s, i, k));
    }
}

/// Among the first `n` rules, of which one matches, finds the winner.
proof fn lemma_best_prefix(rules: Seq<Rule>, s: Seq<u8>, i: int, n: int) -> (k: int)
    requires
        0 <= n <= rules.len(),
        exists|j: int| 0 <= j < n && (#[trigger] rules[j]).matcher.match_len(s, i) > 0,
    ensures
        0 <= k < n,
        rules[k].matcher.match_len(s, i) > 0,
        forall|j: int|
            0 <= j < n ==> (#[trigger] rules[j]).matcher.match_len(s, i)
                <= rules[k].matcher.match_len(s, i),
        forall|j: int|
            0 <= j < k ==> (#[trigger] rules[j]).matcher.match_len(s, i)
                < rules[k].matcher.match_len(s, i),
    decreases n,
{
    let last = rules[n - 1].matcher.match_len(s, i);
    if exists|j: int| 0 <= j < n - 1 && (#[trigger] rules[j]).matcher.match_len(s, i) > 0 {
        let before = lemma_best_prefix(rules, s, i, n - 1);
        if last > rules[before].matcher.match_len(s, i) {
            n - 1
        } else {
            before
        }
    } else {
        n - 1
    }
}

/// Finds the lexeme at index `at` of `input`: the longest match of any rule
/// and, among the rules that match that much, the kind of the first.
pub fn longest_match(rules: &Vec<Rule>, input: &[u8], at: usize) -> (result: Option<
    (u32, TokenKind),
>)
    requires
        at <= input.len() <= u32::MAX,
    ensures
        match result {
            Some((len, kind)) => lexeme(rules@, input@, at as int) == Some((len as nat, kind)),
            None => lexeme(rules@, input@, at as int) is None,
        },
{
    let mut best: Option<(u32, TokenKind)> = None;
    let ghost mut best_index: int = 0;
    let mut k: usize = 0;
    while k < rules.len()
        invariant
            k <= rules.len(),
            at <= input.len() <= u32::MAX,
            match best {
                Some((len, kind)) => {
                    &&& 0 <= best_index < k
                    &&& len > 0
                    &&& len == rules@[best_index].matcher.match_len(input@, at as int)
                    &&& kind == rules@[best_index].kind
                    &&& forall|j: int|
                        0 <= j < k ==> (#[trigger] rules@[j]).matcher.match_len(input@, at as int)
                            <= len
                    &&& forall|j: int|
                        0 <= j < best_index ==> (#[trigger] rules@[j]).matcher.match_len(
                            input@,
                            at as int,
                        ) < len
                },
                None => forall|j: int|
                    0 <= j < k ==> (#[trigger] rules@[j]).matcher.match_len(input@, at as int)
                        == 0,
            },
        decreases rules.len() - k,
    {
        let rule = &rules[k];
        match rule.matches(input, at) {
            Some(len) => {
                let better = match best {
                    Some((best_len, _)) => len > best_len,
                    None => true,
                };
                if better {
                    best = Some((len, rule.kind));
                    proof {
                        best_index = k as int;
                    }
                }
            },
            None => {},
        }
        k = k + 1;
    }
    proof {
        match best {
            Some(_) => {
                lemma_winner_unique(rules@, input@, at as int, best_index);
            },
            None => {
                lemma_winner_exists(rules@, input@, at as int);
            },
        }
    }
    best
}

/// If the given byte is one that _only_ stands for a token of length 1, this
/// gives the kind of that token. It gives `None` for a byte like `=`, which
/// may also begin a longer token (here `==`), and for `.`, which may begin
/// a float.
pub open spec fn unambiguous(c: u8) -> Option<TokenKind> {
    if c == '+' as u8 {
        Some(TokenKind::Plus)
    } else if c == '-' as u8 {
        Some(TokenKind::Minus)
    } else if c == '*' as u8 {
        Some(TokenKind::Times)
    } else if c == '^' as u8 {
        Some(TokenKind::Pow)
    } else if c == ',' as u8 {
        Some(TokenKind::Comma)
    } else if c == '[' as u8 {
        Some(TokenKind::LSquare)
    } else if c == ']' as u8 {
        Some(TokenKind::RSquare)
    } else if c == '{' as u8 {
        Some(TokenKind::LBrace)
    } else if c == '}' as u8 {
        Some(TokenKind::RBrace)
    } else if c == '(' as u8 {
        Some(TokenKind::LParen)
    } else if c == ')' as u8 {
        Some(TokenKind::RParen)
    } else if c == ':' as u8 {
        Some(TokenKind::Colon)
    } else if c == ';' as u8 {
        Some(TokenKind::SemiColon)
    } else {
        None
    }
}

/// If the given byte is one that _only_ stands for a token of length 1, this
/// returns the kind of that token.
pub fn unambiguous_single_char(c: u8) -> (kind: Option<TokenKind>)
    ensures
        kind == unambiguous(c),
{
    if c == '+' as u8 {
        Some(TokenKind::Plus)
    } else if c == '-' as u8 {
        Some(TokenKind::Minus)
    } else if c == '*' as u8 {
        Some(TokenKind::Times)
    } else if c == '^' as u8 {
        Some(TokenKind::Pow)
    } else if c == ',' as u8 {
        Some(TokenKind::Comma)
    } else if c == '[' as u8 {
        Some(TokenKind::LSquare)
    } else if c == ']' as u8 {
        Some(TokenKind::RSquare)
    } else if c == '{' as u8 {
        Some(TokenKind::LBrace)
    } else if c == '}' as u8 {
        Some(TokenKind::RBrace)
    } else if c == '(' as u8 {
        Some(TokenKind::LParen)
    } else if c == ')' as u8 {
        Some(TokenKind::RParen)
    } else if c == ':' as u8 {
        Some(TokenKind::Colon)
    } else if c == ';' as u8 {
        Some(TokenKind::SemiColon)
    } else {
        None
    }
}

impl Matcher {
    /// The rule can match only where the source continues with a byte that
    /// this admits.
    pub open spec fn starts_on(self, b: u8) -> bool {
        match self {
            Matcher::Whitespace => (0x09 <= b <= 0x0d) || b == 0x20 || b == 0xc2 || b == 0xe1
                || b == 0xe2 || b == 0xe3,
            Matcher::SingleChar(c) => b == c,
            Matcher::TwoChars(first, _) => b == first,
            Matcher::Keyword(word) => word.spec_bytes().len() > 0 && word.spec_bytes()[0] == b,
            Matcher::String => b == QUOTE,
            Matcher::Comment => b == SLASH,
            Matcher::Int => is_digit(b),
            Matcher::Float => is_digit(b) || b == DOT,
            Matcher::Identifier => is_letter(b),
        }
    }
}

/// A rule that matches at `i` finds there a byte that it starts on.
pub proof fn lemma_starts_on(matcher: Matcher, s: Seq<u8>, i: int)
    requires
        matcher.match_len(s, i) > 0,
    ensures
        0 <= i < s.len(),
        matcher.starts_on(s[i]),
{
    match matcher {
        Matcher::Keyword(word) => {
            assert(s[i + 0] == word.spec_bytes()[0]);
        },
        _ => {},
    }
}

/// The bytes of the reserved words.
pub proof fn lemma_keyword_bytes()
    ensures
        "let".spec_bytes() == seq!['l' as u8, 'e' as u8, 't' as u8],
        "fn".spec_bytes() == seq!['f' as u8, 'n' as u8],
        "struct".spec_bytes() == seq![
            's' as u8,
            't' as u8,
            'r' as u8,
            'u' as u8,
            'c' as u8,
            't' as u8,
        ],
        "if".spec_bytes() == seq!['i' as u8, 'f' as u8],
        "else".spec_bytes() == seq!['e' as u8, 'l' as u8, 's' as u8, 'e' as u8],
{
    reveal_strlit("let");
    reveal_strlit("fn");
    reveal_strlit("struct");
    reveal_strlit("if");
    reveal_strlit("else");
    is_ascii_chars_encode_utf8("let"@);
    is_ascii_chars_encode_utf8("fn"@);
    is_ascii_chars_encode_utf8("struct"@);
    is_ascii_chars_encode_utf8("if"@);
    is_ascii_chars_encode_utf8("else"@);
    assert("let".spec_bytes() =~= seq!['l' as u8, 'e' as u8, 't' as u8]);
    assert("fn".spec_bytes() =~= seq!['f' as u8, 'n' as u8]);
    assert("struct".spec_bytes() =~= seq![
        's' as u8,
        't' as u8,
        'r' as u8,
        'u' as u8,
        'c' as u8,
        't' as u8,
    ]);
    assert("if".spec_bytes() =~= seq!['i' as u8, 'f' as u8]);
    assert("else".spec_bytes() =~= seq!['e' as u8, 'l' as u8, 's' as u8, 'e' as u8]);
}

/// Only the whitespace rule starts on a byte above the ASCII range, and no
/// rule starts on a byte that continues a character.
pub proof fn lemma_table_starts(j: int, b: u8)
    requires
        0 <= j < rule_table().len(),
        rule_table()[j].matcher.starts_on(b),
    ensures
        b < 0x80 || (j == 0 && (b == 0xc2 || b == 0xe1 || b == 0xe2 || b == 0xe3)),
        j != 0 ==> 0x21 <= b <= 0x7e,
        unambiguous(b) is Some ==> {
            &&& rule_table()[j].matcher == Matcher::SingleChar(b)
            &&& rule_table()[j].kind == unambiguous(b)->0
            &&& forall|k: int|
                0 <= k < rule_table().len() && (#[trigger] rule_table()[k]).matcher.starts_on(b)
                    ==> k == j
        },
{
    reveal(rule_table);
    lemma_keyword_bytes();
}

/// A byte that only stands for a token of length 1 is the lexeme where it
/// stands.
pub proof fn lemma_unambiguous_wins(s: Seq<u8>, kind: TokenKind)
    requires
        s.len() > 0,
        unambiguous(s[0]) == Some(kind),
    ensures
        lexeme(rule_table(), s, 0) == Some((1nat, kind)),
{
    reveal(rule_table);
    let table = rule_table();
    let b = s[0];
    let k = choose|k: int| 0 <= k < table.len() && (#[trigger] table[k]).matcher.starts_on(b);
    assert(table[1].matcher.starts_on('+' as u8));
    assert(table[2].matcher.starts_on('-' as u8));
    assert(table[3].matcher.starts_on('*' as u8));
    assert(table[4].matcher.starts_on('^' as u8));
    assert(table[5].matcher.starts_on(',' as u8));
    assert(table[6].matcher.starts_on('[' as u8));
    assert(table[7].matcher.starts_on(']' as u8));
    assert(table[8].matcher.starts_on('{' as u8));
    assert(table[9].matcher.starts_on('}' as u8));
    assert(table[10].matcher.starts_on('(' as u8));
    assert(table[11].matcher.starts_on(')' as u8));
    assert(table[12].matcher.starts_on(':' as u8));
    assert(table[13].matcher.starts_on(';' as u8));
    lemma_table_starts(k, b);
    assert forall|j: int| 0 <= j < table.len() && j != k implies (#[trigger] table[j])
        .matcher.match_len(s, 0) == 0 by {
        if table[j].matcher.match_len(s, 0) > 0 {
            lemma_starts_on(table[j].matcher, s, 0);
        }
    }
    assert(is_winner(table, s, 0, k));
    lemma_winner_unique(table, s, 0, k);
}

impl Matcher {
    /// Every byte that the rule names is an ASCII byte.
    pub open spec fn is_ascii(self) -> bool {
        match self {
            Matcher::SingleChar(c) => c < 0x80,
            Matcher::TwoChars(first, second) => first < 0x80 && second < 0x80,
            Matcher::Keyword(word) => forall|k: int|
                0 <= k < word.spec_bytes().len() ==> #[trigger] word.spec_bytes()[k] < 0x80,
            _ => true,
        }
    }
}

/// The rules name ASCII bytes only, make neither `Eof` nor `Error` tokens,
/// and only the first of them makes whitespace.
pub proof fn lemma_table_kinds(j: int)
    requires
        0 <= j < rule_table().len(),
    ensures
        rule_table()[j].matcher.is_ascii(),
        rule_table()[j].kind != TokenKind::Eof,
        rule_table()[j].kind != TokenKind::Error,
        rule_table()[j].matcher == Matcher::Whitespace <==> j == 0,
{
    reveal(rule_table);
    lemma_keyword_bytes();
}

/// What a rule matches follows from the kind of token that it makes, for the
/// kinds of tokens whose text matters to the grammar.
pub proof fn lemma_table_matchers(j: int)
    requires
        0 <= j < rule_table().len(),
    ensures
        rule_table()[j].kind == TokenKind::Int ==> rule_table()[j].matcher == Matcher::Int,
        rule_table()[j].kind == TokenKind::Float ==> rule_table()[j].matcher == Matcher::Float,
        rule_table()[j].kind == TokenKind::String ==> rule_table()[j].matcher == Matcher::String,
        rule_table()[j].kind == TokenKind::Identifier ==> rule_table()[j].matcher
            == Matcher::Identifier,
        rule_table()[j].kind == TokenKind::Comment ==> rule_table()[j].matcher == Matcher::Comment,
        rule_table()[j].kind == TokenKind::Whitespace ==> rule_table()[j].matcher
            == Matcher::Whitespace,
{
    reveal(rule_table);
}

/// A run of digits holds digits only.
pub proof fn lemma_digits_are_digits(s: Seq<u8>, i: int, k: int)
    requires
        0 <= i <= k < i + digits_len(s, i),
    ensures
        k < s.len(),
        is_digit(s[k]),
    decreases k - i,
{
    if i < k {
        lemma_digits_are_digits(s, i + 1, k);
    }
}

/// A run of letters, digits and underscores holds these only.
pub proof fn lemma_words_are_words(s: Seq<u8>, i: int, k: int)
    requires
        0 <= i <= k < i + word_len(s, i),
    ensures
        k < s.len(),
        is_word(s[k]),
    decreases k - i,
{
    if i < k {
        lemma_words_are_words(s, i + 1, k);
    }
}

/// A match of any rule but the whitespace rule ends with an ASCII byte.
pub proof fn lemma_match_ends_ascii(matcher: Matcher, s: Seq<u8>, i: int)
    requires
        0 <= i,
        matcher.is_ascii(),
        matcher != Matcher::Whitespace,
        matcher.match_len(s, i) > 0,
    ensures
        i + matcher.match_len(s, i) <= s.len(),
        s[i + matcher.match_len(s, i) - 1] < 0x80,
{
    match matcher {
        Matcher::Whitespace => {},
        Matcher::SingleChar(_) => {},
        Matcher::TwoChars(_, _) => {},
        Matcher::Keyword(word) => {
            let n = word.spec_bytes().len() as int;
            assert(s[i + (n - 1)] == word.spec_bytes()[n - 1]);
        },
        Matcher::String => lemma_string_tail_len_bound(s, i + 1),
        Matcher::Comment => lemma_line_tail_len_bound(s, i + 2),
        Matcher::Int => lemma_digits_len_bound(s, i),
        Matcher::Float => {
            lemma_digits_len_bound(s, i);
            lemma_digits_len_bound(s, i + 1);
            lemma_digits_len_bound(s, i + digits_len(s, i) + 1);
            let m = mantissa_len(s, i);
            lemma_digits_len_bound(s, i + m + 1);
            lemma_digits_len_bound(s, i + m + 2);
        },
        Matcher::Identifier => {
            lemma_word_len_bound(s, i + 1);
        },
    }
}

} // verus!
