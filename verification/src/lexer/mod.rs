//! Longest-match tokenizer with error recovery.
//!
//! The tokens of a text cover it without gaps: each token starts where the
//! one before it ended. Text that no rule matches becomes an `Error` token,
//! and the stream ends with one empty `Eof` token at the end of the text.
pub mod generated;
pub mod laws;
pub mod rules;
pub mod token;
pub mod whitespace;

pub use token::{Span, Token, TokenKind};

use rules::{get_rules, lexeme, longest_match, rule_table, unambiguous_single_char, Rule};
use vstd::prelude::*;
use vstd::slice::slice_subrange;
use vstd::string::StringSliceAdditionalSpecFns;

verus! {

/// Length of the run of unmatched bytes at the start of `s`, given that no
/// rule matches at its first `k` bytes: the run ends at the first index
/// from `k` on where a rule matches, or at the end of `s`.
pub open spec fn error_scan(s: Seq<u8>, k: int) -> int
    decreases s.len() - k,
{
    if k >= s.len() {
        s.len() as int
    } else if lexeme(rule_table(), s.skip(k), 0) is Some {
        k
    } else {
        error_scan(s, k + 1)
    }
}

/// Length and kind of the first token of the non-empty text `s`: the lexeme
/// at its start or, where no rule matches there, the shortest run of bytes
/// after which a rule matches again or the text ends.
pub open spec fn first_token(s: Seq<u8>) -> (int, TokenKind) {
    match lexeme(rule_table(), s, 0) {
        Some((len, kind)) => (len as int, kind),
        None => (error_scan(s, 1), TokenKind::Error),
    }
}

/// The end-of-file token at offset `at`.
pub open spec fn eof_token(at: int) -> Token {
    Token { kind: TokenKind::Eof, span: Span { start: at as u32, end: at as u32 } }
}

/// The tokens of `s` from offset `at` on, the closing `Eof` included.
pub open spec fn tokens_from(s: Seq<u8>, at: int) -> Seq<Token>
    decreases s.len() - at,
{
    if at < 0 || at >= s.len() {
        seq![eof_token(at)]
    } else {
        let (len, kind) = first_token(s.skip(at));
        if len <= 0 || at + len > s.len() {
            seq![eof_token(at)]
        } else {
            seq![Token { kind, span: Span { start: at as u32, end: (at + len) as u32 } }]
                + tokens_from(s, at + len)
        }
    }
}

/// All the tokens of `s`.
pub open spec fn tokens_of(s: Seq<u8>) -> Seq<Token> {
    tokens_from(s, 0)
}

/// The first token of a non-empty text is not empty and does not reach
/// beyond the text.
pub proof fn lemma_first_token_len(s: Seq<u8>)
    requires
        s.len() > 0,
    ensures
        0 < first_token(s).0 <= s.len(),
{
    match lexeme(rule_table(), s, 0) {
        Some((len, kind)) => {
            let k = rules::winner(rule_table(), s, 0)->0;
            rules::lemma_match_len_bound(rule_table()[k].matcher, s, 0);
        },
        None => {
            lemma_error_scan_bounds(s, 1);
        },
    }
}

/// The run of unmatched bytes ends between `k` and the end of the text.
pub proof fn lemma_error_scan_bounds(s: Seq<u8>, k: int)
    requires
        0 <= k <= s.len(),
    ensures
        k <= error_scan(s, k) <= s.len(),
    decreases s.len() - k,
{
    if k < s.len() && lexeme(rule_table(), s.skip(k), 0) is None {
        lemma_error_scan_bounds(s, k + 1);
    }
}

/// A tokenizer over one text, with a cursor that only moves forward.
pub struct CustomLexer<'input> {
    input: &'input str,
    position: u32,
    eof: bool,
    rules: Vec<Rule>,
}

/// The tokenizer that the parser uses.
pub type Lexer<'input> = CustomLexer<'input>;

/// All the tokens of `input`, unless `input` has more bytes than a span can
/// count. Whatever the text holds, this ends and hands out tokens.
pub fn tokenize(input: &str) -> (result: Option<Vec<Token>>)
    ensures
        result is Some <==> input.spec_bytes().len() <= u32::MAX,
        result is Some ==> result->Some_0@ == tokens_of(input.spec_bytes()),
{
    match CustomLexer::try_new(input) {
        Some(lexer) => {
            let mut lexer = lexer;
            Some(lexer.tokenize())
        },
        None => None,
    }
}

/// The step at the end of a text: the closing `Eof` at offset `end`, unless
/// it has been handed out, after which nothing follows.
pub fn closing_token(finished: bool, end: u32) -> (result: Option<Token>)
    ensures
        result == if finished {
            None::<Token>
        } else {
            Some(eof_token(end as int))
        },
{
    if finished {
        None
    } else {
        Some(Token { kind: TokenKind::Eof, span: Span { start: end, end } })
    }
}

/// Finds the lexeme at the start of `input`.
fn first_lexeme(rules: &Vec<Rule>, input: &[u8]) -> (result: Option<(u32, TokenKind)>)
    requires
        rules@ == rule_table(),
        0 < input.len() <= u32::MAX,
    ensures
        match result {
            Some((len, kind)) => lexeme(rule_table(), input@, 0) == Some((len as nat, kind)),
            None => lexeme(rule_table(), input@, 0) is None,
        },
{
    let next: u8 = input[0];
    match unambiguous_single_char(next) {
        Some(kind) => {
            proof {
                rules::lemma_unambiguous_wins(input@, kind);
            }
            Some((1, kind))
        },
        None => longest_match(rules, input, 0),
    }
}

impl<'input> CustomLexer<'input> {
    /// The rules are those of the table, a span can count the bytes of the
    /// text, and the closing `Eof` is handed out only at its end.
    #[verifier::type_invariant]
    spec fn inv(&self) -> bool {
        &&& self.rules@ == rule_table()
        &&& self.input.spec_bytes().len() <= u32::MAX
        &&& self.eof ==> self.position >= self.input.spec_bytes().len()
    }

    /// The bytes of the text that the tokenizer reads.
    pub closed spec fn source(&self) -> Seq<u8> {
        self.input.spec_bytes()
    }

    /// The offset of the cursor.
    pub closed spec fn position(&self) -> int {
        self.position as int
    }

    /// Whether the closing `Eof` token has been handed out.
    pub closed spec fn finished(&self) -> bool {
        self.eof
    }

    /// The tokens that are still to come.
    pub open spec fn remaining(&self) -> Seq<Token> {
        if self.finished() {
            Seq::empty()
        } else {
            tokens_from(self.source(), self.position())
        }
    }

    /// A tokenizer at the start of `input`.
    pub fn new(input: &'input str) -> (lexer: Self)
        requires
            input.spec_bytes().len() <= u32::MAX,
        ensures
            lexer.source() == input.spec_bytes(),
            lexer.position() == 0,
            !lexer.finished(),
            lexer.remaining() == tokens_of(input.spec_bytes()),
    {
        Self { input, position: 0, eof: false, rules: get_rules() }
    }

    /// A tokenizer at the start of `input`, unless `input` has more bytes
    /// than a span can count.
    pub fn try_new(input: &'input str) -> (result: Option<Self>)
        ensures
            result is Some <==> input.spec_bytes().len() <= u32::MAX,
            result is Some ==> {
                let lexer = result->Some_0;
                &&& lexer.source() == input.spec_bytes()
                &&& lexer.position() == 0
                &&& !lexer.finished()
                &&& lexer.remaining() == tokens_of(input.spec_bytes())
            },
    {
        if input.as_bytes().len() <= u32::MAX as usize {
            Some(Self::new(input))
        } else {
            None
        }
    }

    /// All the tokens that are still to come, the closing `Eof` included.
    /// The tokenizer is then finished, with its cursor at the end of the text,
    /// or where it was if it stood behind the end or was finished already.
    pub fn tokenize(&mut self) -> (tokens: Vec<Token>)
        ensures
            tokens@ == old(self).remaining(),
            final(self).remaining() == Seq::<Token>::empty(),
            final(self).source() == old(self).source(),
            final(self).finished(),
            final(self).position() == if old(self).finished() || old(self).position() >= old(
                self,
            ).source().len() {
                old(self).position()
            } else {
                old(self).source().len() as int
            },
    {
        proof {
            use_type_invariant(&*self);
        }
        let mut tokens: Vec<Token> = Vec::new();
        loop
            invariant
                self.source() == old(self).source(),
                old(self).remaining() == tokens@ + self.remaining(),
                old(self).finished() ==> self.finished(),
                self.finished() ==> self.position() >= self.source().len(),
                if old(self).finished() || old(self).position() >= old(self).source().len() {
                    self.position() == old(self).position()
                } else {
                    old(self).position() <= self.position() <= old(self).source().len()
                },
            ensures
                tokens@ == old(self).remaining(),
                self.remaining() == Seq::<Token>::empty(),
                self.source() == old(self).source(),
                self.finished(),
                self.position() >= self.source().len(),
                if old(self).finished() || old(self).position() >= old(self).source().len() {
                    self.position() == old(self).position()
                } else {
                    old(self).position() <= self.position() <= old(self).source().len()
                },
            decreases self.remaining().len(),
        {
            match self.next() {
                Some(token) => {
                    tokens.push(token);
                },
                None => {
                    break ;
                },
            }
        }
        tokens
    }

    /// Reads one token from the start of `input`, which is not empty, and
    /// moves the cursor by its length. The span of the token starts at the
    /// cursor.
    pub fn next_token(&mut self, input: &str) -> (token: Token)
        requires
            input.spec_bytes().len() > 0,
            old(self).position() + input.spec_bytes().len() <= u32::MAX,
        ensures
            token.kind == first_token(input.spec_bytes()).1,
            token.span.start == old(self).position(),
            token.span.end == old(self).position() + first_token(input.spec_bytes()).0,
            final(self).position() == token.span.end,
            final(self).source() == old(self).source(),
            final(self).finished() == old(self).finished(),
    {
        self.next_token_in(input.as_bytes())
    }

    /// Reads one token from the start of `input` and moves the cursor.
    fn next_token_in(&mut self, input: &[u8]) -> (token: Token)
        requires
            input@.len() > 0,
            old(self).position() + input@.len() <= u32::MAX,
        ensures
            token.kind == first_token(input@).1,
            token.span.start == old(self).position(),
            token.span.end == old(self).position() + first_token(input@).0,
            final(self).position() == token.span.end,
            final(self).source() == old(self).source(),
            final(self).finished() == old(self).finished(),
    {
        match self.valid_token(input) {
            Some(token) => token,
            None => self.invalid_token(input),
        }
    }

    /// Returns `None` if no rule matches at the start of `input`.
    fn valid_token(&mut self, input: &[u8]) -> (result: Option<Token>)
        requires
            input@.len() > 0,
            old(self).position() + input@.len() <= u32::MAX,
        ensures
            final(self).source() == old(self).source(),
            final(self).finished() == old(self).finished(),
            match result {
                Some(token) => {
                    &&& lexeme(rule_table(), input@, 0) is Some
                    &&& token.kind == first_token(input@).1
                    &&& token.span.start == old(self).position()
                    &&& token.span.end == old(self).position() + first_token(input@).0
                    &&& final(self).position() == token.span.end
                },
                None => {
                    &&& lexeme(rule_table(), input@, 0) is None
                    &&& final(self).position() == old(self).position()
                },
            },
    {
        proof {
            use_type_invariant(&*self);
            lemma_first_token_len(input@);
        }
        match first_lexeme(&self.rules, input) {
            Some((len, kind)) => {
                let start: u32 = self.position;
                self.position = start + len;
                Some(Token { kind, span: Span { start, end: start + len } })
            },
            None => None,
        }
    }

    /// Always "succeeds", because it makes an error token: it covers the
    /// bytes up to the next place where a rule matches.
    fn invalid_token(&mut self, input: &[u8]) -> (token: Token)
        requires
            input@.len() > 0,
            old(self).position() + input@.len() <= u32::MAX,
            lexeme(rule_table(), input@, 0) is None,
        ensures
            token.kind == TokenKind::Error,
            token.span.start == old(self).position(),
            token.span.end == old(self).position() + error_scan(input@, 1),
            final(self).position() == token.span.end,
            final(self).source() == old(self).source(),
            final(self).finished() == old(self).finished(),
    {
        proof {
            use_type_invariant(&*self);
        }
        let start: u32 = self.position;
        let mut len: usize = 1;
        while len < input.len()
            invariant
                1 <= len <= input.len(),
                input@.len() <= u32::MAX,
                self.rules@ == rule_table(),
                error_scan(input@, 1) == error_scan(input@, len as int),
            ensures
                1 <= len <= input.len(),
                error_scan(input@, 1) == len,
            decreases input.len() - len,
        {
            let rest = slice_subrange(input, len, input.len());
            proof {
                assert(rest@ =~= input@.skip(len as int));
            }
            if first_lexeme(&self.rules, rest).is_some() {
                break ;
            }
            len = len + 1;
        }
        let len: u32 = len as u32;
        self.position = start + len;
        Token { kind: TokenKind::Error, span: Span { start, end: start + len } }
    }

    /// The next token, or `None` after the closing `Eof`.
    ///
    /// A token starts at the cursor, and the cursor moves to its end. Before
    /// the end of the text the token is not empty and no `Eof`; at the end it
    /// is the closing `Eof`, which finishes the tokenizer. A finished
    /// tokenizer stays as it is and hands out nothing.
    pub fn next(&mut self) -> (result: Option<Token>)
        ensures
            final(self).source() == old(self).source(),
            final(self).finished() ==> final(self).position() >= final(self).source().len(),
            match result {
                Some(token) => {
                    &&& !old(self).finished()
                    &&& old(self).remaining().len() > 0
                    &&& token == old(self).remaining()[0]
                    &&& final(self).remaining() == old(self).remaining().drop_first()
                    &&& token.span.start == old(self).position()
                    &&& final(self).position() == token.span.end
                    &&& token.kind == TokenKind::Eof <==> old(self).position() >= old(
                        self,
                    ).source().len()
                    &&& token.kind == TokenKind::Eof ==> token.span.end == token.span.start
                    &&& token.kind != TokenKind::Eof ==> token.span.start < token.span.end
                        <= old(self).source().len()
                    &&& final(self).finished() == (token.kind == TokenKind::Eof)
                },
                None => {
                    &&& old(self).finished()
                    &&& final(self).finished()
                    &&& final(self).position() == old(self).position()
                    &&& old(self).remaining().len() == 0
                    &&& final(self).remaining().len() == 0
                },
            },
    {
        proof {
            use_type_invariant(&*self);
        }
        let bytes = self.input.as_bytes();
        if self.position as usize >= bytes.len() {
            let result = closing_token(self.eof, self.position);
            self.eof = true;
            result
        } else {
            let rest = slice_subrange(bytes, self.position as usize, bytes.len());
            proof {
                assert(rest@ =~= self.source().skip(self.position()));
                lemma_first_token_len(rest@);
                laws::lemma_first_token_kind(rest@);
            }
            let token = self.next_token_in(rest);
            proof {
                assert(old(self).remaining().drop_first() =~= self.remaining());
            }
            Some(token)
        }
    }
}

} // verus!
