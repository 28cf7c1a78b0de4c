//! Precedence-climbing expression parser and recursive-descent statement
//! and item parser.
//!
//! The parser reads the tokens of a text without its whitespace and comments.
//! Its cursor always stands on a token: the closing `Eof` is never consumed.
//! A parse either succeeds, and the cursor then stands behind what was
//! parsed, or it stops at the first token that does not fit, and the cursor
//! then stands on that token.
pub mod ast;
pub mod display;
pub mod expressions;
pub mod hierarchy;
pub mod laws;
pub mod precedence;
pub mod written;

use crate::lexer::laws::{lemma_single_eof, lemma_tokens_fit};
use crate::lexer::{tokens_of, Lexer, Token, TokenKind};
use vstd::prelude::*;
use vstd::string::StringSliceAdditionalSpecFns;
use vstd::utf8::{decode_utf8, encode_utf8_valid_utf8};

verus! {

/// The part of the grammar in which a parse stopped.
#[derive(Debug, Clone, Copy, PartialEq, Eq, Structural)]
pub enum Production {
    Expression,
    Statement,
    Type,
    Item,
}

/// What the parser needed where it stopped.
#[derive(Debug, Clone, Copy, PartialEq, Eq, Structural)]
pub enum Expected {
    /// A token that can begin the production.
    Start,
    /// An operator, or a token that ends an expression.
    Operator,
    /// A literal whose text has a value.
    Literal,
    /// A token of this kind.
    Kind(TokenKind),
}

/// Why and where a parse stopped.
#[derive(Debug, Clone, Copy, PartialEq, Eq, Structural)]
pub struct ParseError {
    /// The part of the grammar that was being parsed.
    pub production: Production,
    /// What was needed.
    pub expected: Expected,
    /// The token that stood there instead.
    pub found: Token,
}

/// The tokens that mean something to the grammar: all but whitespace and
/// comments, in their order.
pub open spec fn significant(tokens: Seq<Token>) -> Seq<Token>
    decreases tokens.len(),
{
    if tokens.len() == 0 {
        Seq::empty()
    } else if tokens[0].kind.is_trivia() {
        significant(tokens.drop_first())
    } else {
        seq![tokens[0]] + significant(tokens.drop_first())
    }
}

/// Every significant token is one of the tokens, and where the last token is
/// significant it is also the last significant one.
pub proof fn lemma_significant(tokens: Seq<Token>)
    ensures
        forall|k: int|
            0 <= k < significant(tokens).len() ==> tokens.contains(
                #[trigger] significant(tokens)[k],
            ),
        forall|k: int|
            0 <= k < significant(tokens).len() ==> !(#[trigger] significant(
                tokens,
            )[k]).kind.is_trivia(),
        tokens.len() > 0 && !tokens.last().kind.is_trivia() ==> significant(tokens).len() > 0
            && significant(tokens).last() == tokens.last(),
    decreases tokens.len(),
{
    if tokens.len() > 0 {
        let tail = tokens.drop_first();
        lemma_significant(tail);
        assert forall|k: int| 0 <= k < significant(tokens).len() implies tokens.contains(
            #[trigger] significant(tokens)[k],
        ) by {
            let t = significant(tokens)[k];
            if !tokens[0].kind.is_trivia() && k == 0 {
                assert(tokens[0] == t);
            } else {
                let j = if tokens[0].kind.is_trivia() {
                    k
                } else {
                    k - 1
                };
                assert(significant(tail)[j] == t);
                assert(tail.contains(t));
                let i = choose|i: int| 0 <= i < tail.len() && tail[i] == t;
                assert(tokens[i + 1] == t);
            }
        }
        if tail.len() > 0 {
            assert(tail.last() == tokens.last());
        }
    }
}

/// A token stream without whitespace and comments.
pub struct TokenIter<'input> {
    lexer: Lexer<'input>,
}

impl<'input> TokenIter<'input> {
    /// The bytes of the text that the tokens come from.
    pub closed spec fn source(&self) -> Seq<u8> {
        self.lexer.source()
    }

    /// The significant tokens that are still to come.
    pub closed spec fn remaining(&self) -> Seq<Token> {
        significant(self.lexer.remaining())
    }

    /// The offset of the cursor of the tokenizer.
    pub closed spec fn position(&self) -> int {
        self.lexer.position()
    }

    /// Whether the closing `Eof` token has been handed out.
    pub closed spec fn finished(&self) -> bool {
        self.lexer.finished()
    }

    /// The significant tokens of `input`.
    pub fn new(input: &'input str) -> (tokens: Self)
        requires
            input.spec_bytes().len() <= u32::MAX,
        ensures
            tokens.source() == input.spec_bytes(),
            tokens.remaining() == significant(tokens_of(input.spec_bytes())),
            tokens.position() == 0,
            !tokens.finished(),
    {
        Self { lexer: Lexer::new(input) }
    }

    /// The next significant token, or `None` after the closing `Eof`.
    ///
    /// A token starts at the cursor or, where whitespace and comments were
    /// passed over, behind it, and the cursor moves to its end. The closing
    /// `Eof` finishes the stream, which then stays as it is and hands out
    /// nothing.
    pub fn next(&mut self) -> (result: Option<Token>)
        ensures
            final(self).source() == old(self).source(),
            match result {
                Some(token) => {
                    &&& !old(self).finished()
                    &&& old(self).remaining().len() > 0
                    &&& token == old(self).remaining()[0]
                    &&& final(self).remaining() == old(self).remaining().drop_first()
                    &&& !token.kind.is_trivia()
                    &&& old(self).position() <= token.span.start <= token.span.end
                    &&& final(self).position() == token.span.end
                    &&& final(self).finished() == (token.kind == TokenKind::Eof)
                },
                None => {
                    &&& old(self).finished()
                    &&& final(self).finished()
                    &&& final(self).position() == old(self).position()
                    &&& old(self).remaining().len() == 0
                    &&& final(self).remaining().len() == 0
                },
            },
    {
        loop
            invariant
                self.source() == old(self).source(),
                self.remaining() == old(self).remaining(),
                self.finished() == old(self).finished(),
                old(self).position() <= self.position(),
                old(self).finished() ==> self.position() == old(self).position(),
            decreases self.lexer.remaining().len(),
        {
            match self.lexer.next() {
                Some(token) => {
                    if !(token.kind == TokenKind::Whitespace || token.kind == TokenKind::Comment) {
                        proof {
                            assert(old(self).remaining().drop_first() =~= self.remaining());
                        }
                        return Some(token);
                    }
                },
                None => {
                    return None;
                },
            }
        }
    }
}

/// A parser over the significant tokens of one text.
pub struct Parser<'input> {
    input: &'input str,
    tokens: Vec<Token>,
    position: usize,
}

impl<'input> Parser<'input> {
    /// The cursor stands on a token, the last token is the `Eof`, and the
    /// text of every token can be cut out of the source.
    #[verifier::type_invariant]
    spec fn inv(&self) -> bool {
        &&& self.position < self.tokens.len()
        &&& self.tokens@.last().kind == TokenKind::Eof
        &&& forall|k: int|
            0 <= k < self.tokens.len() ==> (#[trigger] self.tokens@[k]).span.fits(
                self.input.spec_bytes(),
            )
    }

    /// The bytes of the text that is parsed.
    pub closed spec fn source(&self) -> Seq<u8> {
        self.input.spec_bytes()
    }

    /// The tokens that are parsed.
    pub closed spec fn tokens(&self) -> Seq<Token> {
        self.tokens@
    }

    /// The index of the token on which the cursor stands.
    pub closed spec fn position(&self) -> int {
        self.position as int
    }

    /// The cursor stands on a token, the last token is the `Eof`, and the
    /// text of every token can be cut out of the source.
    pub open spec fn wf(&self) -> bool {
        &&& 0 <= self.position() < self.tokens().len()
        &&& self.tokens().last().kind == TokenKind::Eof
        &&& forall|k: int|
            0 <= k < self.tokens().len() ==> (#[trigger] self.tokens()[k]).span.fits(self.source())
    }

    /// A parser at the first significant token of `input`.
    pub fn new(input: &'input str) -> (parser: Self)
        requires
            input.spec_bytes().len() <= u32::MAX,
        ensures
            parser.source() == input.spec_bytes(),
            parser.tokens() == significant(tokens_of(input.spec_bytes())),
            parser.position() == 0,
            parser.wf(),
    {
        let mut iter = TokenIter::new(input);
        let mut tokens: Vec<Token> = Vec::new();
        loop
            invariant
                significant(tokens_of(input.spec_bytes())) == tokens@ + iter.remaining(),
            ensures
                tokens@ == significant(tokens_of(input.spec_bytes())),
            decreases iter.remaining().len(),
        {
            let ghost before = tokens@;
            let ghost rest = iter.remaining();
            match iter.next() {
                Some(token) => {
                    tokens.push(token);
                    proof {
                        assert(before.push(token) + rest.drop_first() =~= before + rest);
                    }
                },
                None => {
                    proof {
                        assert(before + rest =~= before);
                    }
                    break ;
                },
            }
        }
        proof {
            let source = input.spec_bytes();
            let all = tokens_of(source);
            encode_utf8_valid_utf8(input@);
            lemma_single_eof(source);
            lemma_tokens_fit(source);
            lemma_significant(all);
            assert forall|k: int| 0 <= k < tokens.len() implies (#[trigger] tokens@[k]).span.fits(
                source,
            ) by {
                assert(all.contains(tokens@[k]));
            }
        }
        Parser { input, tokens, position: 0 }
    }

    /// A parser at the first significant token of `input`, unless `input`
    /// has more bytes than a span can count.
    pub fn try_new(input: &'input str) -> (result: Option<Self>)
        ensures
            result is Some <==> input.spec_bytes().len() <= u32::MAX,
            result is Some ==> {
                let parser = result->Some_0;
                &&& parser.source() == input.spec_bytes()
                &&& parser.tokens() == significant(tokens_of(input.spec_bytes()))
                &&& parser.position() == 0
                &&& parser.wf()
            },
    {
        if input.as_bytes().len() <= u32::MAX as usize {
            Some(Self::new(input))
        } else {
            None
        }
    }

    /// The source text of a token.
    pub fn text(&self, token: Token) -> (text: &'input str)
        requires
            token.span.fits(self.source()),
        ensures
            text@ == decode_utf8(token.span.of(self.source())),
            text.spec_bytes() == token.span.of(self.source()),
    {
        token.text(self.input)
    }

    /// The token on which the cursor stands.
    pub fn current(&self) -> (token: Token)
        ensures
            token == self.tokens()[self.position()],
            token.span.fits(self.source()),
            self.wf(),
    {
        proof {
            use_type_invariant(self);
        }
        self.tokens[self.position]
    }

    /// Looks ahead one token and tells what kind of token it is.
    pub fn peek(&self) -> (kind: TokenKind)
        ensures
            kind == self.tokens()[self.position()].kind,
    {
        proof {
            use_type_invariant(self);
        }
        self.tokens[self.position].kind
    }

    /// Tells whether the next token is of the given kind.
    pub fn at(&self, kind: TokenKind) -> (result: bool)
        ensures
            result == (self.tokens()[self.position()].kind == kind),
    {
        self.peek() == kind
    }

    /// Hands out the next token and moves behind it. The closing `Eof` is
    /// handed out without a move.
    pub fn next(&mut self) -> (token: Token)
        ensures
            token == old(self).tokens()[old(self).position()],
            token.span.fits(old(self).source()),
            final(self).source() == old(self).source(),
            final(self).tokens() == old(self).tokens(),
            final(self).position() == if old(self).position() + 1 < old(self).tokens().len() {
                old(self).position() + 1
            } else {
                old(self).position()
            },
            token.kind != TokenKind::Eof ==> final(self).position() == old(self).position() + 1,
            final(self).wf(),
    {
        proof {
            use_type_invariant(&*self);
        }
        let token = self.tokens[self.position];
        if self.position + 1 < self.tokens.len() {
            self.position = self.position + 1;
        }
        token
    }

    /// Moves behind the next token if it is of the kind that is expected
    /// there; stops on it if it is not. Where the closing `Eof` is expected
    /// and found, the cursor stays on it.
    pub fn consume(&mut self, expected: TokenKind, production: Production) -> (result: Result<
        Token,
        ParseError,
    >)
        ensures
            final(self).source() == old(self).source(),
            final(self).tokens() == old(self).tokens(),
            result == expect(old(self).tokens(), old(self).position(), expected, production).0,
            final(self).position() == if result is Ok && old(self).position() + 1 < old(
                self,
            ).tokens().len() {
                old(self).position() + 1
            } else {
                old(self).position()
            },
            expected != TokenKind::Eof ==> final(self).position() == expect(
                old(self).tokens(),
                old(self).position(),
                expected,
                production,
            ).1,
            result is Ok ==> result->Ok_0.span.fits(old(self).source()),
            final(self).wf(),
    {
        let token = self.current();
        if token.kind == expected {
            let _ = self.next();
            Ok(token)
        } else {
            Err(ParseError { production, expected: Expected::Kind(expected), found: token })
        }
    }

    /// Parses what follows an element of a list: a comma, or nothing where
    /// the token of kind `closer` stands.
    pub fn parse_separator(&mut self, closer: TokenKind, production: Production) -> (result: Result<
        (),
        ParseError,
    >)
        ensures
            final(self).source() == old(self).source(),
            final(self).tokens() == old(self).tokens(),
            final(self).wf(),
            result == separator(old(self).tokens(), old(self).position(), closer, production).0,
            final(self).position() == separator(
                old(self).tokens(),
                old(self).position(),
                closer,
                production,
            ).1,
    {
        let token = self.current();
        if token.kind == TokenKind::Comma {
            let _ = self.next();
            Ok(())
        } else if token.kind == closer {
            Ok(())
        } else {
            Err(
                ParseError {
                    production,
                    expected: Expected::Kind(TokenKind::Comma),
                    found: token,
                },
            )
        }
    }
}

/// What a parse step yields: its value or the reason why it stopped, and the
/// index of the token on which the cursor then stands.
pub type Step<T> = (Result<T, ParseError>, int);

/// The step that stops at token `pos` for want of `expected`.
pub open spec fn stop<T>(
    tokens: Seq<Token>,
    pos: int,
    production: Production,
    expected: Expected,
) -> Step<T> {
    (Err(ParseError { production, expected, found: tokens[pos] }), pos)
}

/// Requires a token of kind `expected` at `pos`: hands it out and moves
/// behind it, or stops on what stands there.
pub open spec fn expect(
    tokens: Seq<Token>,
    pos: int,
    expected: TokenKind,
    production: Production,
) -> Step<Token> {
    if tokens[pos].kind == expected {
        (Ok(tokens[pos]), pos + 1)
    } else {
        stop(tokens, pos, production, Expected::Kind(expected))
    }
}

/// What follows an element of a list at token `pos`: a comma, behind which
/// the list goes on, or the token of kind `closer`, on which the cursor
/// stays.
pub open spec fn separator(
    tokens: Seq<Token>,
    pos: int,
    closer: TokenKind,
    production: Production,
) -> Step<()> {
    if tokens[pos].kind == TokenKind::Comma {
        (Ok(()), pos + 1)
    } else if tokens[pos].kind == closer {
        (Ok(()), pos)
    } else {
        stop(tokens, pos, production, Expected::Kind(TokenKind::Comma))
    }
}

/// The text of a token as characters.
pub open spec fn text_of(source: Seq<u8>, token: Token) -> Seq<char> {
    decode_utf8(token.span.of(source))
}

} // verus!
