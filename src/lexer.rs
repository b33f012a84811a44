//! What the tokenizer reads from a text, stated over plain values: the
//! scanning rules, the folding of chained literals into lists, and the
//! resolution of inverse markers.
use crate::err::SyntaxError;
use crate::parser::{digit_spec, digits_val, Loc};
use vstd::prelude::*;

verus! {

/// A token as a plain value; numbers are fractions `n / d` with `d > 0`.
pub enum TokM {
    Integer(int),
    Rational(int, int),
    Complex(int, int, int, int),
    Infinity,
    Epsilon,
    Pi(int, int),
    List(Seq<TokM>),
    Scope(Seq<(TokM, Loc)>),
    Dup,
    Pop,
    Flip,
    Minus,
    Call(char),
    Inverse(Box<TokM>, Loc),
}

/// What the scan produces before the passes that follow it.
pub enum RawM {
    Tok(TokM),
    Spacing,
    Chain(Seq<TokM>),
    Mark,
}

pub open spec fn is_literal_m(t: TokM) -> bool {
    t is Integer || t is Rational || t is Complex || t is Infinity || t is Epsilon || t is Pi
}

pub open spec fn pow10(k: int) -> int {
    vstd::arithmetic::power::pow(10, k as nat)
}

pub open spec fn is_digit(c: char) -> bool {
    digit_spec(c) is Some
}

/// Where the run of digits from `j` ends.
pub open spec fn digits_end(cs: Seq<char>, j: int, hi: int) -> int
    decreases hi - j,
{
    if 0 <= j < hi && j < cs.len() && is_digit(cs[j]) {
        digits_end(cs, j + 1, hi)
    } else {
        j
    }
}

/// The literal of a digit run at `i` (with a fraction where a point is
/// followed by a digit), and where it ends.
pub open spec fn number_m(cs: Seq<char>, i: int, hi: int) -> (TokM, int) {
    let e = digits_end(cs, i, hi);
    if e < hi - 1 && cs[e] == '.' && is_digit(cs[e + 1]) {
        let f = digits_end(cs, e + 1, hi);
        (
            TokM::Rational(
                digits_val(cs.subrange(i, e)) * pow10(f - e - 1) + digits_val(cs.subrange(e + 1, f)),
                pow10(f - e - 1),
            ),
            f,
        )
    } else {
        (TokM::Integer(digits_val(cs.subrange(i, e))), e)
    }
}

pub open spec fn span_m(start: int, end: int, line: int, column: int) -> Loc {
    Loc { start: start as usize, end: end as usize, line: line as usize, column: column as usize }
}

/// One token scanned at `i` (not a bracket), at offset `p`, line `line0`,
/// column `col0`, after the tokens `ts`: the tokens left once it has taken
/// the literal it absorbs, the raw token, where it starts (offset, line,
/// column), and the index after it. Or a syntax error, where it stands, and
/// the tokens left.
pub open spec fn step_m(cs: Seq<char>, i: int, hi: int, p: int, line0: int, col0: int, ts: Seq<(RawM, Loc)>)
    -> Result<(Seq<(RawM, Loc)>, RawM, int, int, int, int), (SyntaxError, Loc, Seq<(RawM, Loc)>)>
{
    let c = cs[i];
    let n = ts.len();
    let last_tok = if n > 0 { ts.last().0 } else { RawM::Spacing };
    let l = ts.last().1;
    if c == ' ' || c == '\r' || c == '\n' {
        Ok((ts, RawM::Spacing, p, line0, col0, i + 1))
    } else if is_digit(c) {
        let minus = last_tok == RawM::Tok(TokM::Minus);
        let (t, e) = number_m(cs, i, hi);
        if minus {
            let t2 = match t {
                TokM::Integer(k) => TokM::Integer(-k),
                TokM::Rational(a, b) => TokM::Rational(-a, b),
                _ => t,
            };
            Ok((ts.drop_last(), RawM::Tok(t2), l.start as int, l.line as int, l.column as int, e))
        } else {
            Ok((ts, RawM::Tok(t), p, line0, col0, e))
        }
    } else if c == 'i' {
        let (ts2, rn, rd, first, line, column) = match last_tok {
            RawM::Tok(TokM::Integer(k)) => (ts.drop_last(), k, 1, l.start as int, l.line as int, l.column as int),
            RawM::Tok(TokM::Rational(a, b)) => (ts.drop_last(), a, b, l.start as int, l.line as int, l.column as int),
            _ => (ts, 0, 1, p, line0, col0),
        };
        let negative = i + 1 < hi && cs[i + 1] == '⁻';
        let k = if negative { i + 2 } else { i + 1 };
        if k < hi && cs[k] == '.' {
            if negative {
                Err((SyntaxError::InvalidSymbol('⁻'), span_m(first, p + (k - i), line, column), ts2))
            } else {
                Ok((ts2, RawM::Tok(TokM::Complex(rn, rd, 1, 1)), first, line, column, k))
            }
        } else {
            let (mn, md, next) = if k < hi && is_digit(cs[k]) {
                let (t, e) = number_m(cs, k, hi);
                match t {
                    TokM::Integer(v) => (v, 1, e),
                    TokM::Rational(a, b) => (a, b, e),
                    _ => (1, 1, e),
                }
            } else {
                (1, 1, k)
            };
            let im = if negative { -mn } else { mn };
            Ok((ts2, RawM::Tok(TokM::Complex(rn, rd, im, md)), first, line, column, next))
        }
    } else if c == 'π' || c == 'τ' {
        let (ts2, mn, md, first, line, column) = match last_tok {
            RawM::Tok(TokM::Integer(k)) => (ts.drop_last(), k, 1, l.start as int, l.line as int, l.column as int),
            RawM::Tok(TokM::Rational(a, b)) => (ts.drop_last(), a, b, l.start as int, l.line as int, l.column as int),
            _ => (ts, 1, 1, p, line0, col0),
        };
        let m = if c == 'τ' { 2 * mn } else { mn };
        Ok((ts2, RawM::Tok(TokM::Pi(m, md)), first, line, column, i + 1))
    } else if c == '‿' {
        match last_tok {
            RawM::Tok(t) => if is_literal_m(t) {
                Ok((ts.drop_last(), RawM::Chain(seq![t]), l.start as int, l.line as int, l.column as int, i + 1))
            } else {
                Err((SyntaxError::InvalidSymbol('‿'), span_m(p, p + 1, line0, col0), ts))
            },
            _ => Err((SyntaxError::InvalidSymbol('‿'), span_m(p, p + 1, line0, col0), ts)),
        }
    } else if c == '⁻' && i + 1 < hi && cs[i + 1] == '¹' {
        Ok((ts, RawM::Mark, p, line0, col0, i + 2))
    } else if c == ')' {
        Err((SyntaxError::UnmatchedParenthesis(false), span_m(p, p + 1, line0, col0), ts))
    } else {
        let t = if c == '∞' {
            TokM::Infinity
        } else if c == 'ε' {
            TokM::Epsilon
        } else if c == '.' {
            TokM::Dup
        } else if c == ',' {
            TokM::Pop
        } else if c == '↔' {
            TokM::Flip
        } else if c == '⁻' {
            TokM::Minus
        } else {
            TokM::Call(c)
        };
        Ok((ts, RawM::Tok(t), p, line0, col0, i + 1))
    }
}

/// The index of the `)` that closes, at nesting `depth`, from `j`.
pub open spec fn closing_m(cs: Seq<char>, j: int, hi: int, depth: int) -> Option<int>
    decreases hi - j,
{
    if j >= hi || j < 0 || j >= cs.len() {
        None
    } else if cs[j] == '(' {
        closing_m(cs, j + 1, hi, depth + 1)
    } else if cs[j] == ')' {
        if depth - 1 == 0 {
            Some(j)
        } else {
            closing_m(cs, j + 1, hi, depth - 1)
        }
    } else {
        closing_m(cs, j + 1, hi, depth)
    }
}

/// The finished tokens among raw ones, in order.
pub open spec fn plain_m(s: Seq<(RawM, Loc)>) -> Seq<(TokM, Loc)>
    decreases s.len(),
{
    if s.len() == 0 {
        Seq::empty()
    } else {
        let rest = plain_m(s.drop_last());
        match s.last().0 {
            RawM::Tok(t) => rest.push((t, s.last().1)),
            _ => rest,
        }
    }
}

/// The cursor after one character that is not a newline, or after a newline.
pub open spec fn advance(loc: Loc, p: int, n: int, c: char, col0: int, line0: int) -> Loc {
    if c == '\n' {
        Loc { start: (p + n) as usize, end: (p + n) as usize, line: (line0 + 1) as usize, column: 1 }
    } else {
        Loc { start: (p + n) as usize, end: (p + n) as usize, line: line0 as usize, column: (col0 + n) as usize }
    }
}

/// Scans from `i` with the cursor `loc` after the raw tokens `ts`; the raw
/// tokens and the final cursor, or a syntax error.
pub open spec fn scan_m(cs: Seq<char>, i: int, hi: int, loc: Loc, ts: Seq<(RawM, Loc)>)
    -> Result<(Seq<(RawM, Loc)>, Loc), (SyntaxError, Loc, Seq<(TokM, Loc)>)>
    decreases hi - i, 0int,
{
    if i >= hi || i < 0 {
        Ok((ts, loc))
    } else {
        let p = loc.end as int;
        let line0 = loc.line as int;
        let col0 = loc.column as int;
        if cs[i] == '(' {
            match closing_m(cs, i + 1, hi, 1) {
                None => Err((SyntaxError::UnmatchedParenthesis(true), span_m(p, p + 1, line0, col0), plain_m(ts))),
                Some(j) => if i < j < hi {
                    let inner = Loc { start: (p + 1) as usize, end: (p + 1) as usize, line: loc.line, column: (col0 + 1) as usize };
                    match lex_range(cs, i + 1, j, inner) {
                        Err(e) => Err(e),
                        Ok((sub, after)) => scan_m(
                            cs,
                            j + 1,
                            hi,
                            Loc { start: (p + (j - i) + 1) as usize, end: (p + (j - i) + 1) as usize, line: after.line, column: (after.column + 1) as usize },
                            ts.push((RawM::Tok(TokM::Scope(sub)), span_m(p, p + (j - i) + 1, line0, col0))),
                        ),
                    }
                } else {
                    Ok((ts, loc))
                },
            }
        } else {
            match step_m(cs, i, hi, p, line0, col0, ts) {
                Err((e, l, ts2)) => Err((e, l, plain_m(ts2))),
                Ok((ts2, raw, first, line, column, next)) => if i < next <= hi {
                    scan_m(
                        cs,
                        next,
                        hi,
                        advance(loc, p, next - i, cs[i], col0, line0),
                        ts2.push((raw, span_m(first, p + (next - i), line, column))),
                    )
                } else {
                    Ok((ts, loc))
                },
            }
        }
    }
}

/// Folds chained literals into lists, right to left; the result is reversed.
pub open spec fn fold_m(raws: Seq<(RawM, Loc)>, out: Seq<(RawM, Loc)>) -> Result<Seq<(RawM, Loc)>, (SyntaxError, Loc)>
    decreases raws.len(),
{
    if raws.len() == 0 {
        Ok(out)
    } else {
        let (x, l) = raws.last();
        let rest = raws.drop_last();
        match x {
            RawM::Chain(items) => if out.len() == 0 {
                fold_m(rest, out.push((RawM::Tok(TokM::List(items)), l)))
            } else {
                let (nx, nl) = out.last();
                match nx {
                    RawM::Spacing => Err((SyntaxError::InvalidSymbol(' '), nl)),
                    RawM::Tok(TokM::List(more)) => fold_m(
                        rest,
                        out.drop_last().push((RawM::Tok(TokM::List(items + more)), span_m(l.start as int, nl.end as int, l.line as int, l.column as int))),
                    ),
                    RawM::Tok(t) => if is_literal_m(t) {
                        fold_m(
                            rest,
                            out.drop_last().push((RawM::Tok(TokM::List(items.push(t))), span_m(l.start as int, nl.end as int, l.line as int, l.column as int))),
                        )
                    } else {
                        Err((SyntaxError::InvalidSymbol('‿'), l))
                    },
                    _ => Err((SyntaxError::InvalidSymbol('‿'), l)),
                }
            },
            _ => fold_m(rest, out.push((x, l))),
        }
    }
}

/// Puts reversed raw tokens back in order, without the spacing.
pub open spec fn drop_m(rev: Seq<(RawM, Loc)>, out: Seq<(RawM, Loc)>) -> Seq<(RawM, Loc)>
    decreases rev.len(),
{
    if rev.len() == 0 {
        out
    } else {
        match rev.last().0 {
            RawM::Spacing => drop_m(rev.drop_last(), out),
            _ => drop_m(rev.drop_last(), out.push(rev.last())),
        }
    }
}

/// Gives each inverse marker the token after it; right to left, into `rev`.
pub open spec fn marks_m(fwd: Seq<(RawM, Loc)>, rev: Seq<(TokM, Loc)>) -> Result<Seq<(TokM, Loc)>, (SyntaxError, Loc)>
    decreases fwd.len(),
{
    if fwd.len() == 0 {
        Ok(rev.reverse())
    } else {
        let (x, l) = fwd.last();
        match x {
            RawM::Tok(t) => marks_m(fwd.drop_last(), rev.push((t, l))),
            RawM::Mark => if rev.len() == 0 {
                Err((SyntaxError::LonelyInverse, l))
            } else {
                marks_m(fwd.drop_last(), rev.drop_last().push((TokM::Inverse(Box::new(rev.last().0), l), l)))
            },
            _ => marks_m(fwd.drop_last(), rev),
        }
    }
}

/// The tokens of `cs[lo..hi]` read with the cursor `loc` at `cs[lo]`, and
/// the cursor after them; or the syntax error, where it stands, and the
/// tokens read before it.
pub open spec fn lex_range(cs: Seq<char>, lo: int, hi: int, loc: Loc)
    -> Result<(Seq<(TokM, Loc)>, Loc), (SyntaxError, Loc, Seq<(TokM, Loc)>)>
    decreases hi - lo, 1int,
{
    let start = Loc { start: loc.end, ..loc };
    match scan_m(cs, lo, hi, start, Seq::empty()) {
        Err(e) => Err(e),
        Ok((raws, after)) => match fold_m(raws, Seq::empty()) {
            Err((e, l)) => Err((e, l, Seq::empty())),
            Ok(rev) => match marks_m(drop_m(rev, Seq::empty()), Seq::empty()) {
                Err((e, l)) => Err((e, l, Seq::empty())),
                Ok(toks) => Ok((toks, after)),
            },
        },
    }
}

/// The tokens of a text read from the cursor `loc`.
pub open spec fn lex(s: Seq<char>, loc: Loc) -> Result<(Seq<(TokM, Loc)>, Loc), (SyntaxError, Loc, Seq<(TokM, Loc)>)> {
    lex_range(s, 0, s.len() as int, loc)
}

} // verus!
