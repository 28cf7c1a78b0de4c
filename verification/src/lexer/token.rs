//! Token kinds, spans, and tokens.
use std::ops::Range;
use vstd::prelude::*;
use vstd::std_specs::convert::FromSpecImpl;
use vstd::string::StringSliceAdditionalSpecFns;
use vstd::utf8::{
    decode_utf8, encode_utf8_decode_utf8, encode_utf8_valid_utf8, is_char_boundary,
    is_char_boundary_iff_not_is_continuation_byte, is_char_boundary_start_end_of_seq, valid_utf8,
    valid_utf8_split,
};

verus! {

/// The closed set of lexical categories.
#[derive(Debug, PartialEq, Eq, Hash, Copy, Clone, Structural)]
pub enum TokenKind {
    // Single characters
    Plus,
    Minus,
    Times,
    Slash,
    Pow,
    Eq,
    Dot,
    Comma,
    Underscore,
    Bang,
    Ampersand,
    Bar,
    Colon,
    SemiColon,
    // Brackets
    LAngle,
    RAngle,
    LSquare,
    RSquare,
    LBrace,
    RBrace,
    LParen,
    RParen,
    // Multiple characters
    String,
    Comment,
    Int,
    Float,
    Identifier,
    KeywordLet,
    KeywordFn,
    KeywordStruct,
    KeywordIf,
    KeywordElse,
    // Operators
    And,
    Or,
    Eqq,
    Neq,
    Geq,
    Leq,
    // Misc
    Error,
    Whitespace,
    Eof,
}

impl TokenKind {
    /// The display form of a kind: the lexeme itself where the kind has only
    /// one, a descriptive name otherwise.
    pub open spec fn display(self) -> Seq<char> {
        match self {
            TokenKind::Plus => "+"@,
            TokenKind::Minus => "-"@,
            TokenKind::Times => "*"@,
            TokenKind::Slash => "/"@,
            TokenKind::Pow => "^"@,
            TokenKind::Eq => "="@,
            TokenKind::Dot => "."@,
            TokenKind::Comma => ","@,
            TokenKind::Underscore => "_"@,
            TokenKind::Bang => "!"@,
            TokenKind::Ampersand => "&"@,
            TokenKind::Bar => "|"@,
            TokenKind::Colon => ":"@,
            TokenKind::SemiColon => ";"@,
            TokenKind::LAngle => "<"@,
            TokenKind::RAngle => ">"@,
            TokenKind::LSquare => "["@,
            TokenKind::RSquare => "]"@,
            TokenKind::LBrace => "{"@,
            TokenKind::RBrace => "}"@,
            TokenKind::LParen => "("@,
            TokenKind::RParen => ")"@,
            TokenKind::String => "String"@,
            TokenKind::Comment => "// Comment"@,
            TokenKind::Int => "Int"@,
            TokenKind::Float => "Float"@,
            TokenKind::Identifier => "Identifier"@,
            TokenKind::KeywordLet => "let"@,
            TokenKind::KeywordFn => "fn"@,
            TokenKind::KeywordStruct => "struct"@,
            TokenKind::KeywordIf => "if"@,
            TokenKind::KeywordElse => "else"@,
            TokenKind::And => "&&"@,
            TokenKind::Or => "||"@,
            TokenKind::Eqq => "=="@,
            TokenKind::Neq => "!="@,
            TokenKind::Geq => ">="@,
            TokenKind::Leq => "<="@,
            TokenKind::Error => "<?>"@,
            TokenKind::Whitespace => "<WS>"@,
            TokenKind::Eof => "<EOF>"@,
        }
    }

    /// The display form as a static string.
    pub fn as_str(&self) -> (text: &'static str)
        ensures
            text@ == self.display(),
    {
        match self {
            TokenKind::Plus => "+",
            TokenKind::Minus => "-",
            TokenKind::Times => "*",
            TokenKind::Slash => "/",
            TokenKind::Pow => "^",
            TokenKind::Eq => "=",
            TokenKind::Dot => ".",
            TokenKind::Comma => ",",
            TokenKind::Underscore => "_",
            TokenKind::Bang => "!",
            TokenKind::Ampersand => "&",
            TokenKind::Bar => "|",
            TokenKind::Colon => ":",
            TokenKind::SemiColon => ";",
            TokenKind::LAngle => "<",
            TokenKind::RAngle => ">",
            TokenKind::LSquare => "[",
            TokenKind::RSquare => "]",
            TokenKind::LBrace => "{",
            TokenKind::RBrace => "}",
            TokenKind::LParen => "(",
            TokenKind::RParen => ")",
            TokenKind::String => "String",
            TokenKind::Comment => "// Comment",
            TokenKind::Int => "Int",
            TokenKind::Float => "Float",
            TokenKind::Identifier => "Identifier",
            TokenKind::KeywordLet => "let",
            TokenKind::KeywordFn => "fn",
            TokenKind::KeywordStruct => "struct",
            TokenKind::KeywordIf => "if",
            TokenKind::KeywordElse => "else",
            TokenKind::And => "&&",
            TokenKind::Or => "||",
            TokenKind::Eqq => "=="  ,
            TokenKind::Neq => "!=",
            TokenKind::Geq => ">=",
            TokenKind::Leq => "<=",
            TokenKind::Error => "<?>",
            TokenKind::Whitespace => "<WS>",
            TokenKind::Eof => "<EOF>",
        }
    }

    /// The display form as an owned string.
    pub fn to_string(&self) -> (text: String)
        ensures
            text@ == self.display(),
    {
        self.as_str().to_owned()
    }

    /// Whitespace and comments carry no meaning for the grammar.
    pub open spec fn is_trivia(self) -> bool {
        self == TokenKind::Whitespace || self == TokenKind::Comment
    }
}

/// A half-open byte range `[start, end)` into the source text.
#[derive(Eq, PartialEq, Clone, Copy, Hash, Default, Debug, Structural)]
pub struct Span {
    /// inclusive
    pub start: u32,
    /// exclusive
    pub end: u32,
}

impl Span {
    /// A span never ends before it starts.
    pub open spec fn wf(self) -> bool {
        self.start <= self.end
    }

    /// The span lies inside `bytes` and cuts no character in two.
    pub open spec fn fits(self, bytes: Seq<u8>) -> bool {
        &&& self.start <= self.end <= bytes.len()
        &&& is_char_boundary(bytes, self.start as int)
        &&& is_char_boundary(bytes, self.end as int)
    }

    /// The bytes that the span selects.
    pub open spec fn of(self, bytes: Seq<u8>) -> Seq<u8> {
        bytes.subrange(self.start as int, self.end as int)
    }
}

impl From<Range<usize>> for Span {
    /// Offsets beyond `u32::MAX` are truncated.
    fn from(range: Range<usize>) -> (span: Span) {
        Span { start: range.start as u32, end: range.end as u32 }
    }
}

impl FromSpecImpl<Range<usize>> for Span {
    open spec fn obeys_from_spec() -> bool {
        true
    }

    open spec fn from_spec(range: Range<usize>) -> Span {
        Span { start: range.start as u32, end: range.end as u32 }
    }
}

impl From<Span> for Range<usize> {
    /// The range of offsets that the span covers.
    fn from(span: Span) -> (range: Range<usize>) {
        Range { start: span.start as usize, end: span.end as usize }
    }
}

impl FromSpecImpl<Span> for Range<usize> {
    open spec fn obeys_from_spec() -> bool {
        true
    }

    open spec fn from_spec(span: Span) -> Range<usize> {
        Range { start: span.start as usize, end: span.end as usize }
    }
}

/// A character boundary of a text is also one of every prefix that reaches it.
pub proof fn lemma_boundary_in_prefix(bytes: Seq<u8>, start: int, end: int)
    requires
        valid_utf8(bytes),
        0 <= start <= end <= bytes.len(),
        is_char_boundary(bytes, start),
        is_char_boundary(bytes, end),
    ensures
        valid_utf8(bytes.subrange(0, end)),
        is_char_boundary(bytes.subrange(0, end), start),
{
    let head = bytes.subrange(0, end);
    valid_utf8_split(bytes, end);
    if start < end {
        is_char_boundary_iff_not_is_continuation_byte(bytes, start);
        is_char_boundary_iff_not_is_continuation_byte(head, start);
    } else {
        is_char_boundary_start_end_of_seq(head);
    }
}

/// The part of `input` between two of its character boundaries.
pub fn cut<'input>(input: &'input str, start: usize, end: usize) -> (text: &'input str)
    requires
        start <= end <= input.spec_bytes().len(),
        is_char_boundary(input.spec_bytes(), start as int),
        is_char_boundary(input.spec_bytes(), end as int),
    ensures
        text.spec_bytes() == input.spec_bytes().subrange(start as int, end as int),
        text@ == decode_utf8(input.spec_bytes().subrange(start as int, end as int)),
{
    proof {
        encode_utf8_valid_utf8(input@);
        lemma_boundary_in_prefix(input.spec_bytes(), start as int, end as int);
    }
    let (head, _) = input.split_at(end);
    let (_, text) = head.split_at(start);
    proof {
        assert(head.spec_bytes().subrange(start as int, head.spec_bytes().len() as int)
            =~= input.spec_bytes().subrange(start as int, end as int));
        encode_utf8_decode_utf8(text@);
    }
    text
}

/// A classified, located unit of source text.
#[derive(Eq, PartialEq, Copy, Clone, Hash, Debug, Structural)]
pub struct Token {
    pub kind: TokenKind,
    pub span: Span,
}

impl Token {
    /// Number of bytes that the token covers.
    pub fn len(&self) -> (n: usize)
        requires
            self.span.wf(),
        ensures
            n == self.span.end - self.span.start,
    {
        (self.span.end - self.span.start) as usize
    }

    /// The part of `input` that the token covers.
    pub fn text<'input>(&self, input: &'input str) -> (text: &'input str)
        requires
            self.span.fits(input.spec_bytes()),
        ensures
            text.spec_bytes() == self.span.of(input.spec_bytes()),
            text@ == decode_utf8(self.span.of(input.spec_bytes())),
    {
        cut(input, self.span.start as usize, self.span.end as usize)
    }

    /// The display form of the token, which is that of its kind.
    pub fn to_string(&self) -> (text: String)
        ensures
            text@ == self.kind.display(),
    {
        self.kind.to_string()
    }
}

} // verus!
