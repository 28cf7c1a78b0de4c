//! The display form of expressions: fully parenthesized text.
//!
//! Every infix node reads `(left OP right)`, every prefix node `(OP operand)`,
//! every postfix node `(operand OP)`, and a call `name(arg,arg,)`, with a
//! comma behind each argument.
use super::ast::{Expr, ExprModel, Lit, LitModel};
use crate::lexer::laws::lemma_boundary_after_ascii;
use crate::lexer::token::cut;
use vstd::prelude::*;
use vstd::string::{StringExecFns, StringSliceAdditionalSpecFns};
use vstd::utf8::{
    decode_utf8, encode_utf8, encode_utf8_valid_utf8,
    is_char_boundary_iff_not_is_continuation_byte, is_char_boundary_start_end_of_seq,
};

verus! {

/// The character of a decimal digit.
pub open spec fn digit_char(digit: nat) -> char {
    ('0' as u8 + digit) as char
}

/// The decimal text of a number, without leading zeros.
pub open spec fn decimal_text(n: nat) -> Seq<char>
    decreases n,
{
    if n < 10 {
        seq![digit_char(n)]
    } else {
        decimal_text(n / 10).push(digit_char(n % 10))
    }
}

/// Index of the first byte from `i` on and before `end` that is `c` or `d`;
/// `end` where there is none.
pub open spec fn find(s: Seq<u8>, i: int, end: int, c: u8, d: u8) -> int
    decreases end - i,
{
    if i >= end {
        end
    } else if s[i] == c || s[i] == d {
        i
    } else {
        find(s, i + 1, end, c, d)
    }
}

/// Index behind the zeros that begin at `i`, of which the last byte before
/// `end` is never one.
pub open spec fn skip_zeros(s: Seq<u8>, i: int, end: int) -> int
    decreases end - i,
{
    if i + 1 < end && s[i] == '0' as u8 {
        skip_zeros(s, i + 1, end)
    } else {
        i
    }
}

/// Index at which the zeros begin that end at `end`, not before `start`.
pub open spec fn trim_zeros(s: Seq<u8>, start: int, end: int) -> int
    decreases end - start,
{
    if start < end && s[end - 1] == '0' as u8 {
        trim_zeros(s, start, end - 1)
    } else {
        end
    }
}

/// Where the parts of a float literal lie in its text `s`: the index at
/// which the digits before the point begin once the leading zeros are left
/// out, the index of the point, the index at which the digits behind the
/// point end once the trailing zeros are left out, and the index of the
/// exponent.
pub open spec fn float_parts(s: Seq<u8>) -> (int, int, int, int) {
    let exponent = find(s, 0, s.len() as int, 'e' as u8, 'E' as u8);
    let point = find(s, 0, exponent, '.' as u8, '.' as u8);
    let whole = skip_zeros(s, 0, point);
    let fraction = if point < exponent {
        trim_zeros(s, point + 1, exponent)
    } else {
        exponent
    };
    (whole, point, fraction, exponent)
}

/// The shortest form of a float literal with the text `s`: the digits before
/// the point without leading zeros, or one zero where there is none; the
/// point and the digits behind it without trailing zeros, or nothing where
/// none is left; and the exponent as it is written.
pub open spec fn shortest_float(s: Seq<u8>) -> Seq<char> {
    let (whole, point, fraction, exponent) = float_parts(s);
    (if whole == point {
        "0"@
    } else {
        decode_utf8(s.subrange(whole, point))
    }) + (if fraction > point + 1 {
        decode_utf8(s.subrange(point, fraction))
    } else {
        Seq::empty()
    }) + decode_utf8(s.subrange(exponent, s.len() as int))
}

impl LitModel {
    /// The display form of a literal: an integer in decimal, a float in its
    /// shortest form, a string between quotes.
    pub open spec fn display(self) -> Seq<char> {
        match self {
            LitModel::Int(value) => decimal_text(value as nat),
            LitModel::Float(text) => shortest_float(encode_utf8(text)),
            LitModel::Str(text) => "\""@ + text + "\""@,
        }
    }
}

impl ExprModel {
    /// The display form of an expression.
    pub open spec fn display(self) -> Seq<char>
        decreases self, 0nat,
    {
        match self {
            ExprModel::Literal(lit) => lit.display(),
            ExprModel::Ident(name) => name,
            ExprModel::FnCall { fn_name, args } => fn_name + "("@ + Self::display_args(
                args,
                args.len(),
            ) + ")"@,
            ExprModel::PrefixOp { op, expr } => "("@ + op.display() + " "@ + expr.display() + ")"@,
            ExprModel::InfixOp { op, lhs, rhs } => "("@ + lhs.display() + " "@ + op.display()
                + " "@ + rhs.display() + ")"@,
            ExprModel::PostfixOp { op, expr } => "("@ + expr.display() + " "@ + op.display()
                + ")"@,
        }
    }

    /// The display form of the first `n` arguments of a call, a comma behind
    /// each.
    pub open spec fn display_args(args: Seq<ExprModel>, n: nat) -> Seq<char>
        decreases args, n,
    {
        if n == 0 || n > args.len() {
            Seq::empty()
        } else {
            Self::display_args(args, (n - 1) as nat) + args[n - 1].display() + ","@
        }
    }
}

/// The text of a decimal digit.
fn digit_str(digit: u64) -> (text: &'static str)
    requires
        digit < 10,
    ensures
        text@ == seq![digit_char(digit as nat)],
{
    proof {
        reveal_strlit("0");
        reveal_strlit("1");
        reveal_strlit("2");
        reveal_strlit("3");
        reveal_strlit("4");
        reveal_strlit("5");
        reveal_strlit("6");
        reveal_strlit("7");
        reveal_strlit("8");
        reveal_strlit("9");
    }
    let text = if digit == 0 {
        "0"
    } else if digit == 1 {
        "1"
    } else if digit == 2 {
        "2"
    } else if digit == 3 {
        "3"
    } else if digit == 4 {
        "4"
    } else if digit == 5 {
        "5"
    } else if digit == 6 {
        "6"
    } else if digit == 7 {
        "7"
    } else if digit == 8 {
        "8"
    } else {
        "9"
    };
    proof {
        assert(text@ =~= seq![digit_char(digit as nat)]);
    }
    text
}

/// Writes a number in decimal behind `out`.
fn write_decimal(n: u64, out: &mut String)
    ensures
        final(out)@ == old(out)@ + decimal_text(n as nat),
    decreases n,
{
    if n >= 10 {
        write_decimal(n / 10, out);
    }
    out.append(digit_str(n % 10));
    proof {
        if n >= 10 {
            assert(final(out)@ =~= old(out)@ + decimal_text(n as nat));
        } else {
            assert(final(out)@ =~= old(out)@ + decimal_text(n as nat));
        }
    }
}

/// Where the zeros end that begin at `i`.
proof fn lemma_skip_zeros(s: Seq<u8>, i: int, end: int)
    requires
        0 <= i <= end <= s.len(),
    ensures
        i <= skip_zeros(s, i, end) <= end,
        skip_zeros(s, i, end) == i || s[skip_zeros(s, i, end) - 1] == '0' as u8,
    decreases end - i,
{
    if i + 1 < end && s[i] == '0' as u8 {
        lemma_skip_zeros(s, i + 1, end);
    }
}

/// Where the zeros begin that end at `end`.
proof fn lemma_trim_zeros(s: Seq<u8>, start: int, end: int)
    requires
        0 <= start <= end <= s.len(),
    ensures
        start <= trim_zeros(s, start, end) <= end,
        trim_zeros(s, start, end) == end || s[trim_zeros(s, start, end)] == '0' as u8,
    decreases end - start,
{
    if start < end && s[end - 1] == '0' as u8 {
        lemma_trim_zeros(s, start, end - 1);
    }
}

/// Where a byte is found, it is one of the two that were looked for.
proof fn lemma_find(s: Seq<u8>, i: int, end: int, c: u8, d: u8)
    requires
        0 <= i <= end <= s.len(),
    ensures
        i <= find(s, i, end, c, d) <= end,
        find(s, i, end, c, d) == end || s[find(s, i, end, c, d)] == c || s[find(s, i, end, c, d)]
            == d,
    decreases end - i,
{
    if i < end && !(s[i] == c || s[i] == d) {
        lemma_find(s, i + 1, end, c, d);
    }
}

/// Finds the first byte from `from` on and before `end` that is `c` or `d`.
fn find_byte(bytes: &[u8], from: usize, end: usize, c: u8, d: u8) -> (at: usize)
    requires
        from <= end <= bytes.len(),
    ensures
        at == find(bytes@, from as int, end as int, c, d),
        from <= at <= end,
{
    let mut at: usize = from;
    while at < end && !(bytes[at] == c || bytes[at] == d)
        invariant
            from <= at <= end <= bytes.len(),
            find(bytes@, from as int, end as int, c, d) == find(
                bytes@,
                at as int,
                end as int,
                c,
                d,
            ),
        decreases end - at,
    {
        at = at + 1;
    }
    at
}

/// Writes a float literal in its shortest form behind `out`.
fn write_float(text: &str, out: &mut String)
    ensures
        final(out)@ == old(out)@ + shortest_float(text.spec_bytes()),
{
    let bytes = text.as_bytes();
    let len: usize = bytes.len();
    let exponent: usize = find_byte(bytes, 0, len, 'e' as u8, 'E' as u8);
    let point: usize = find_byte(bytes, 0, exponent, '.' as u8, '.' as u8);
    let mut whole: usize = 0;
    while point - whole > 1 && bytes[whole] == '0' as u8
        invariant
            whole <= point <= exponent <= len == bytes.len(),
            skip_zeros(bytes@, 0, point as int) == skip_zeros(bytes@, whole as int, point as int),
        decreases point - whole,
    {
        whole = whole + 1;
    }
    let mut fraction: usize = exponent;
    if point < exponent {
        while fraction - point > 1 && bytes[fraction - 1] == '0' as u8
            invariant
                point < exponent <= len == bytes.len(),
                point + 1 <= fraction <= exponent,
                trim_zeros(bytes@, point + 1, exponent as int) == trim_zeros(
                    bytes@,
                    point + 1,
                    fraction as int,
                ),
            decreases fraction - point,
        {
            fraction = fraction - 1;
        }
    }
    proof {
        let s = text.spec_bytes();
        encode_utf8_valid_utf8(text@);
        is_char_boundary_start_end_of_seq(s);
        lemma_find(s, 0, len as int, 'e' as u8, 'E' as u8);
        lemma_find(s, 0, exponent as int, '.' as u8, '.' as u8);
        lemma_skip_zeros(s, 0, point as int);
        if exponent < len {
            is_char_boundary_iff_not_is_continuation_byte(s, exponent as int);
        }
        if point < len {
            is_char_boundary_iff_not_is_continuation_byte(s, point as int);
        }
        if whole > 0 {
            lemma_boundary_after_ascii(s, whole - 1);
        }
        if point < exponent {
            lemma_trim_zeros(s, point + 1, exponent as int);
        }
        if fraction < exponent {
            is_char_boundary_iff_not_is_continuation_byte(s, fraction as int);
        }
        assert(float_parts(s) == (whole as int, point as int, fraction as int, exponent as int));
    }
    if whole == point {
        out.append("0");
    } else {
        out.append(cut(text, whole, point));
    }
    if fraction > point && fraction - point > 1 {
        out.append(cut(text, point, fraction));
    }
    out.append(cut(text, exponent, len));
    proof {
        assert(final(out)@ =~= old(out)@ + shortest_float(text.spec_bytes()));
    }
}

impl Lit {
    /// Writes the display form of the literal behind `out`.
    fn write_to(&self, out: &mut String)
        ensures
            final(out)@ == old(out)@ + self@.display(),
    {
        match self {
            Lit::Int(value) => write_decimal(*value, out),
            Lit::Float(text) => write_float(text.as_str(), out),
            Lit::Str(text) => {
                out.append("\"");
                out.append(text.as_str());
                out.append("\"");
                proof {
                    assert(final(out)@ =~= old(out)@ + self@.display());
                }
            },
        }
    }

    /// The display form of the literal.
    pub fn to_string(&self) -> (text: String)
        ensures
            text@ == self@.display(),
    {
        let mut out = String::new();
        self.write_to(&mut out);
        proof {
            assert(out@ =~= self@.display());
        }
        out
    }
}

impl Expr {
    /// Writes the display form of the expression behind `out`.
    fn write_to(&self, out: &mut String)
        ensures
            final(out)@ == old(out)@ + self@.display(),
        decreases self,
    {
        match self {
            Expr::Literal(lit) => lit.write_to(out),
            Expr::Ident(name) => out.append(name.as_str()),
            Expr::FnCall { fn_name, args } => {
                out.append(fn_name.as_str());
                out.append("(");
                let ghost models = self@->FnCall_args;
                let ghost before = out@;
                let mut i: usize = 0;
                while i < args.len()
                    invariant
                        i <= args.len(),
                        models.len() == args.len(),
                        forall|k: int| 0 <= k < args.len() ==> models[k] == args[k]@,
                        forall|k: int|
                            0 <= k < args.len() ==> #[trigger] decreases_to!(self => args[k]),
                        out@ == before + ExprModel::display_args(models, i as nat),
                    decreases args.len() - i,
                {
                    args[i].write_to(out);
                    out.append(",");
                    proof {
                        assert(out@ =~= before + ExprModel::display_args(models, (i + 1) as nat));
                    }
                    i = i + 1;
                }
                out.append(")");
                proof {
                    assert(final(out)@ =~= old(out)@ + self@.display());
                }
            },
            Expr::PrefixOp { op, expr } => {
                out.append("(");
                out.append(op.as_str());
                out.append(" ");
                expr.write_to(out);
                out.append(")");
                proof {
                    assert(final(out)@ =~= old(out)@ + self@.display());
                }
            },
            Expr::InfixOp { op, lhs, rhs } => {
                out.append("(");
                lhs.write_to(out);
                out.append(" ");
                out.append(op.as_str());
                out.append(" ");
                rhs.write_to(out);
                out.append(")");
                proof {
                    assert(final(out)@ =~= old(out)@ + self@.display());
                }
            },
            Expr::PostfixOp { op, expr } => {
                out.append("(");
                expr.write_to(out);
                out.append(" ");
                out.append(op.as_str());
                out.append(")");
                proof {
                    assert(final(out)@ =~= old(out)@ + self@.display());
                }
            },
        }
    }

    /// The display form of the expression.
    pub fn to_string(&self) -> (text: String)
        ensures
            text@ == self@.display(),
    {
        let mut out = String::new();
        self.write_to(&mut out);
        proof {
            assert(out@ =~= self@.display());
        }
        out
    }
}

} // verus!
