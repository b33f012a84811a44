//! The tokenizer: source text to located tokens.
use crate::err::SyntaxError;
use crate::lexer::{closing_m, is_digit, lex, lex_range, scan_m, span_m, step_m, digits_end, drop_m, fold_m, is_literal_m, marks_m, number_m, plain_m, pow10, RawM, TokM};
use crate::num::{int_add, int_mul, Int, Rat};
use vstd::prelude::*;

verus! {

/// Location of a token in the source code.
///
/// `start`, `end`: characters from the beginning of the file;
/// `line`: lines from the beginning of the file;
/// `column`: characters from the beginning of the line.
#[derive(Debug, Clone, Copy, PartialEq, Eq)]
pub struct Loc {
    pub start: usize,
    pub end: usize,
    pub line: usize,
    pub column: usize,
}

#[derive(Debug, PartialEq, Eq)]
pub enum Token {
    Integer(Int),
    Rational(Rat),
    /// Real and imaginary parts.
    Complex(Rat, Rat),
    Infinity,
    Epsilon,
    /// A rational multiple of pi. A literal just before `π` or `τ` is folded
    /// in as the multiplier (`τ` doubles it).
    Pi(Rat),
    /// Chained literals.
    List(Vec<Token>),
    /// A bracketed sub-program.
    Scope(Vec<(Token, Loc)>),
    Dup,
    Pop,
    Flip,
    Minus,
    FunctionCall(char),
    /// The inverse of the token that follows the marker, and where the marker stands.
    Inverse(Box<Token>, Loc),
}

/// A token that stands for one number.
pub open spec fn is_literal(t: Token) -> bool {
    t is Integer || t is Rational || t is Complex || t is Infinity || t is Epsilon || t is Pi
}

impl Token {
    /// Numbers in lowest terms; lists hold literals only.
    pub open spec fn wf(self) -> bool
        decreases self,
    {
        match self {
            Token::Integer(n) => n.wf(),
            Token::Rational(q) => q.wf(),
            Token::Complex(a, b) => a.wf() && b.wf(),
            Token::Pi(q) => q.wf(),
            Token::List(v) => lits_wf(v@),
            Token::Scope(v) => toks_wf(v@),
            Token::Inverse(b, _) => (*b).wf(),
            _ => true,
        }
    }

    pub fn is_literal_token(&self) -> (r: bool)
        ensures
            r == is_literal(*self),
    {
        match self {
            Token::Integer(_) | Token::Rational(_) | Token::Complex(..) | Token::Infinity
            | Token::Epsilon | Token::Pi(_) => true,
            _ => false,
        }
    }
}

/// `t` is the token the plain value `m` describes.
pub open spec fn tok_models(t: Token, m: TokM) -> bool
    decreases t,
{
    match t {
        Token::Integer(n) => m == TokM::Integer(n.val()),
        Token::Rational(q) => m matches TokM::Rational(a, b) && b > 0 && q.is(a, b),
        Token::Complex(x, y) => m matches TokM::Complex(a, b, c, d) && b > 0 && d > 0 && x.is(a, b)
            && y.is(c, d),
        Token::Infinity => m == TokM::Infinity,
        Token::Epsilon => m == TokM::Epsilon,
        Token::Pi(q) => m matches TokM::Pi(a, b) && b > 0 && q.is(a, b),
        Token::List(v) => m matches TokM::List(ms) && lits_models(v@, ms),
        Token::Scope(v) => m matches TokM::Scope(ms) && toks_models(v@, ms),
        Token::Dup => m == TokM::Dup,
        Token::Pop => m == TokM::Pop,
        Token::Flip => m == TokM::Flip,
        Token::Minus => m == TokM::Minus,
        Token::FunctionCall(c) => m == TokM::Call(c),
        Token::Inverse(b, l) => m matches TokM::Inverse(bm, lm) && l == lm && tok_models(*b, *bm),
    }
}

/// Element by element, the tokens the plain values describe.
pub open spec fn lits_models(s: Seq<Token>, ms: Seq<TokM>) -> bool
    decreases s,
{
    s.len() == ms.len() && (s.len() == 0 || (tok_models(s[0], ms[0]) && lits_models(s.drop_first(), ms.drop_first())))
}

/// Element by element, the located tokens the plain values describe.
pub open spec fn toks_models(s: Seq<(Token, Loc)>, ms: Seq<(TokM, Loc)>) -> bool
    decreases s,
{
    s.len() == ms.len() && (s.len() == 0 || (tok_models(s[0].0, ms[0].0) && s[0].1 == ms[0].1
        && toks_models(s.drop_first(), ms.drop_first())))
}

pub proof fn lemma_lits_models(s: Seq<Token>, ms: Seq<TokM>)
    ensures
        lits_models(s, ms) <==> (s.len() == ms.len() && forall|i: int|
            0 <= i < s.len() ==> #[trigger] tok_models(s[i], ms[i])),
    decreases s.len(),
{
    if s.len() > 0 && s.len() == ms.len() {
        let (d, e) = (s.drop_first(), ms.drop_first());
        lemma_lits_models(d, e);
        assert(lits_models(s, ms) == (tok_models(s[0], ms[0]) && lits_models(d, e)));
        if forall|i: int| 0 <= i < s.len() ==> #[trigger] tok_models(s[i], ms[i]) {
            assert(tok_models(s[0], ms[0]));
            assert forall|i: int| 0 <= i < d.len() implies #[trigger] tok_models(d[i], e[i]) by {
                assert(d[i] == s[i + 1] && e[i] == ms[i + 1]);
                assert(tok_models(s[i + 1], ms[i + 1]));
            }
        }
        if lits_models(s, ms) {
            assert forall|i: int| 0 <= i < s.len() implies #[trigger] tok_models(s[i], ms[i]) by {
                if i > 0 {
                    assert(d[i - 1] == s[i] && e[i - 1] == ms[i]);
                    assert(tok_models(d[i - 1], e[i - 1]));
                }
            }
        }
    }
}

pub proof fn lemma_toks_models(s: Seq<(Token, Loc)>, ms: Seq<(TokM, Loc)>)
    ensures
        toks_models(s, ms) <==> (s.len() == ms.len() && forall|i: int|
            0 <= i < s.len() ==> #[trigger] tok_models(s[i].0, ms[i].0) && s[i].1 == ms[i].1),
    decreases s.len(),
{
    if s.len() > 0 && s.len() == ms.len() {
        let (d, e) = (s.drop_first(), ms.drop_first());
        lemma_toks_models(d, e);
        assert(toks_models(s, ms) == (tok_models(s[0].0, ms[0].0) && s[0].1 == ms[0].1 && toks_models(d, e)));
        if forall|i: int| 0 <= i < s.len() ==> #[trigger] tok_models(s[i].0, ms[i].0) && s[i].1 == ms[i].1 {
            assert(tok_models(s[0].0, ms[0].0) && s[0].1 == ms[0].1);
            assert forall|i: int| 0 <= i < d.len() implies #[trigger] tok_models(d[i].0, e[i].0) && d[i].1 == e[i].1 by {
                assert(d[i] == s[i + 1] && e[i] == ms[i + 1]);
                assert(tok_models(s[i + 1].0, ms[i + 1].0) && s[i + 1].1 == ms[i + 1].1);
            }
        }
        if toks_models(s, ms) {
            assert(toks_models(d, e));
            assert(forall|i: int| 0 <= i < d.len() ==> #[trigger] tok_models(d[i].0, e[i].0) && d[i].1 == e[i].1);
            assert forall|i: int| 0 <= i < s.len() implies #[trigger] tok_models(s[i].0, ms[i].0) && s[i].1 == ms[i].1 by {
                if i > 0 {
                    assert(d[i - 1] == s[i] && e[i - 1] == ms[i]);
                    assert(tok_models(d[i - 1].0, e[i - 1].0) && d[i - 1].1 == e[i - 1].1);
                }
            }
        }
    }
}

/// Well-formed literals.
pub open spec fn lits_wf(s: Seq<Token>) -> bool
    decreases s,
{
    s.len() == 0 || (is_literal(s[0]) && s[0].wf() && lits_wf(s.drop_first()))
}

/// Well-formed located tokens.
pub open spec fn toks_wf(s: Seq<(Token, Loc)>) -> bool
    decreases s,
{
    s.len() == 0 || (s[0].0.wf() && toks_wf(s.drop_first()))
}

pub proof fn lemma_lits_wf(s: Seq<Token>)
    ensures
        lits_wf(s) <==> forall|i: int|
            0 <= i < s.len() ==> is_literal(#[trigger] s[i]) && s[i].wf(),
    decreases s.len(),
{
    if s.len() > 0 {
        let d = s.drop_first();
        lemma_lits_wf(d);
        assert(lits_wf(s) == (is_literal(s[0]) && s[0].wf() && lits_wf(d)));
        if forall|i: int| 0 <= i < s.len() ==> is_literal(#[trigger] s[i]) && s[i].wf() {
            assert(is_literal(s[0]) && s[0].wf());
            assert forall|i: int| 0 <= i < d.len() implies is_literal(#[trigger] d[i]) && d[i].wf() by {
                assert(d[i] == s[i + 1]);
                assert(is_literal(s[i + 1]) && s[i + 1].wf());
            }
        }
        if lits_wf(s) {
            assert forall|i: int| 0 <= i < s.len() implies is_literal(#[trigger] s[i]) && s[i].wf() by {
                if i > 0 {
                    assert(d[i - 1] == s[i]);
                    assert(is_literal(d[i - 1]) && d[i - 1].wf());
                }
            }
        }
    }
}

pub proof fn lemma_toks_wf(s: Seq<(Token, Loc)>)
    ensures
        toks_wf(s) <==> forall|i: int| 0 <= i < s.len() ==> (#[trigger] s[i]).0.wf(),
    decreases s.len(),
{
    if s.len() > 0 {
        let d = s.drop_first();
        lemma_toks_wf(d);
        assert(toks_wf(s) == (s[0].0.wf() && toks_wf(d)));
        if forall|i: int| 0 <= i < s.len() ==> (#[trigger] s[i]).0.wf() {
            assert(s[0].0.wf());
            assert forall|i: int| 0 <= i < d.len() implies (#[trigger] d[i]).0.wf() by {
                assert(d[i] == s[i + 1]);
                assert(s[i + 1].0.wf());
            }
        }
        if toks_wf(s) {
            assert forall|i: int| 0 <= i < s.len() implies (#[trigger] s[i]).0.wf() by {
                if i > 0 {
                    assert(d[i - 1] == s[i]);
                    assert(d[i - 1].0.wf());
                }
            }
        }
    }
}

/// The value of a decimal digit.
pub open spec fn digit_spec(c: char) -> Option<u64> {
    if c == '0' {
        Some(0)
    } else if c == '1' {
        Some(1)
    } else if c == '2' {
        Some(2)
    } else if c == '3' {
        Some(3)
    } else if c == '4' {
        Some(4)
    } else if c == '5' {
        Some(5)
    } else if c == '6' {
        Some(6)
    } else if c == '7' {
        Some(7)
    } else if c == '8' {
        Some(8)
    } else if c == '9' {
        Some(9)
    } else {
        None
    }
}

pub fn digit_value(c: char) -> (r: Option<u64>)
    ensures
        r == digit_spec(c),
        r matches Some(d) ==> d < 10,
{
    if c == '0' {
        Some(0)
    } else if c == '1' {
        Some(1)
    } else if c == '2' {
        Some(2)
    } else if c == '3' {
        Some(3)
    } else if c == '4' {
        Some(4)
    } else if c == '5' {
        Some(5)
    } else if c == '6' {
        Some(6)
    } else if c == '7' {
        Some(7)
    } else if c == '8' {
        Some(8)
    } else if c == '9' {
        Some(9)
    } else {
        None
    }
}

fn is_digit_at(cs: &Vec<char>, j: usize, hi: usize) -> (r: bool)
    requires
        hi <= cs.len(),
    ensures
        r == (j < hi && digit_spec(cs@[j as int]) is Some),
{
    j < hi && digit_value(cs[j]).is_some()
}

/// The digits of the value so far, times ten, plus the digit `c`.
fn shift_in(n: &Int, c: char) -> (r: Int)
    requires
        n.wf(),
        digit_spec(c) is Some,
    ensures
        r.wf(),
        r.val() == n.val() * 10 + digit_spec(c)->0,
{
    let d = match digit_value(c) {
        Some(d) => d,
        None => 0,
    };
    int_add(&int_mul(n, &Int::from_u64(10)), &Int::from_u64(d))
}

/// Every character is a decimal digit.
pub open spec fn all_digits(s: Seq<char>) -> bool {
    forall|k: int| 0 <= k < s.len() ==> #[trigger] digit_spec(s[k]) is Some
}

/// The value of a run of decimal digits.
pub open spec fn digits_val(s: Seq<char>) -> int
    decreases s.len(),
{
    if s.len() == 0 {
        0
    } else {
        10 * digits_val(s.drop_last()) + digit_spec(s.last())->0 as int
    }
}

/// A run of digits from `i`, and a fraction where a point is followed by a
/// digit: an exact integer or rational literal, and where it ends.
fn scan_number(cs: &Vec<char>, i: usize, hi: usize) -> (r: (Token, usize))
    requires
        i < hi <= cs.len(),
        digit_spec(cs@[i as int]) is Some,
    ensures
        i < r.1 <= hi,
        r.0.wf(),
        r.0 matches Token::Integer(n) ==> all_digits(cs@.subrange(i as int, r.1 as int)) && n.val()
            == digits_val(cs@.subrange(i as int, r.1 as int)),
        r.0 matches Token::Rational(q) ==> exists|m: int|
            i < m < r.1 - 1 && cs@[m] == '.' && all_digits(cs@.subrange(i as int, m)) && all_digits(
                cs@.subrange(m + 1, r.1 as int),
            ) && q.is(
                digits_val(cs@.subrange(i as int, m)) * vstd::arithmetic::power::pow(10, (r.1 - m - 1) as nat)
                    + digits_val(cs@.subrange(m + 1, r.1 as int)),
                vstd::arithmetic::power::pow(10, (r.1 - m - 1) as nat),
            ),
        r.0 is Integer || r.0 is Rational,
        tok_models(r.0, number_m(cs@, i as int, hi as int).0),
        r.1 == number_m(cs@, i as int, hi as int).1,
{
    let mut number = shift_in(&Int::zero(), cs[i]);
    let mut j = i + 1;
    proof {
        let t = cs@.subrange(i as int, j as int);
        assert(t.drop_last() =~= Seq::<char>::empty());
        assert(digits_val(t.drop_last()) == 0);
        assert(t.last() == cs@[i as int]);
        assert(digits_val(t) == digit_spec(cs@[i as int])->0 as int);
    }
    while is_digit_at(cs, j, hi)
        invariant
            i < j <= hi <= cs.len(),
            number.wf(),
            all_digits(cs@.subrange(i as int, j as int)),
            number.val() == digits_val(cs@.subrange(i as int, j as int)),
            digits_end(cs@, i as int, hi as int) == digits_end(cs@, j as int, hi as int),
        decreases hi - j,
    {
        proof {
            let t = cs@.subrange(i as int, j + 1);
            assert(t.drop_last() =~= cs@.subrange(i as int, j as int));
            assert(t.last() == cs@[j as int]);
        }
        number = shift_in(&number, cs[j]);
        j += 1;
    }
    if j < hi - 1 && cs[j] == '.' && is_digit_at(cs, j + 1, hi) {
        let ghost m = j as int;
        j += 1;
        let mut den = Int::from_u64(1);
        let mut dec = Int::zero();
        proof {
            reveal(vstd::arithmetic::power::pow);
            assert(cs@.subrange(m + 1, j as int) =~= Seq::<char>::empty());
        }
        while is_digit_at(cs, j, hi)
            invariant
                i < m < j <= hi <= cs.len(),
                cs@[m] == '.',
                all_digits(cs@.subrange(i as int, m)),
                number.val() == digits_val(cs@.subrange(i as int, m)),
                den.wf(),
                dec.wf(),
                den.val() > 0,
                den.val() == vstd::arithmetic::power::pow(10, (j - m - 1) as nat),
                all_digits(cs@.subrange(m + 1, j as int)),
                dec.val() == digits_val(cs@.subrange(m + 1, j as int)),
                digits_end(cs@, m + 1, hi as int) == digits_end(cs@, j as int, hi as int),
                digits_end(cs@, i as int, hi as int) == m,
            decreases hi - j,
        {
            proof {
                let t = cs@.subrange(m + 1, j + 1);
                assert(t.drop_last() =~= cs@.subrange(m + 1, j as int));
                assert(t.last() == cs@[j as int]);
                reveal(vstd::arithmetic::power::pow);
            }
            dec = shift_in(&dec, cs[j]);
            let d2 = int_mul(&den, &Int::from_u64(10));
            den = d2;
            j += 1;
        }
        let num = int_add(&int_mul(&number, &den), &dec);
        (Token::Rational(Rat::new(&num, &den)), j)
    } else {
        (Token::Integer(number), j)
    }
}

/// What the scanner produces before the passes that follow it.
enum Raw {
    Tok(Token),
    Spacing,
    /// Literals chained so far.
    Chain(Vec<Token>),
    /// The inverse marker, waiting for the token it applies to.
    Mark,
}

spec fn raw_wf(r: Raw) -> bool {
    match r {
        Raw::Tok(t) => t.wf(),
        Raw::Chain(v) => forall|i: int| 0 <= i < v.len() ==> is_literal(#[trigger] v[i]) && v[i].wf(),
        _ => true,
    }
}

spec fn raw_models(r: Raw, m: RawM) -> bool {
    match r {
        Raw::Tok(t) => m matches RawM::Tok(tm) && tok_models(t, tm),
        Raw::Spacing => m == RawM::Spacing,
        Raw::Chain(v) => m matches RawM::Chain(ms) && lits_models(v@, ms),
        Raw::Mark => m == RawM::Mark,
    }
}

spec fn raws_models(s: Seq<(Raw, Loc)>, ms: Seq<(RawM, Loc)>) -> bool {
    s.len() == ms.len() && forall|k: int|
        0 <= k < s.len() ==> #[trigger] raw_models(s[k].0, ms[k].0) && s[k].1 == ms[k].1
}

spec fn raws_wf(s: Seq<(Raw, Loc)>) -> bool {
    forall|i: int| 0 <= i < s.len() ==> raw_wf(#[trigger] s[i].0)
}

/// The span lies between the offsets `a` and `b`.
pub open spec fn within(l: Loc, a: int, b: int) -> bool {
    a <= l.start <= b && a <= l.end <= b
}

spec fn raws_within(s: Seq<(Raw, Loc)>, a: int, b: int) -> bool {
    forall|i: int| 0 <= i < s.len() ==> within(#[trigger] s[i].1, a, b)
}

spec fn toks_within(s: Seq<(Token, Loc)>, a: int, b: int) -> bool {
    forall|i: int| 0 <= i < s.len() ==> within(#[trigger] s[i].1, a, b)
}

spec fn all_toks_wf(s: Seq<(Token, Loc)>) -> bool {
    forall|i: int| 0 <= i < s.len() ==> (#[trigger] s[i]).0.wf()
}

/// Takes the last raw token off.
fn pop_raw(raws: &mut Vec<(Raw, Loc)>) -> (r: (Raw, Loc))
    requires
        old(raws).len() > 0,
    ensures
        final(raws)@ == old(raws)@.drop_last(),
        r == old(raws)@.last(),
{
    match raws.pop() {
        Some(x) => x,
        None => (Raw::Spacing, Loc { start: 0, end: 0, line: 0, column: 0 }),
    }
}

/// Takes the last token off.
fn pop_tok(v: &mut Vec<(Token, Loc)>) -> (r: (Token, Loc))
    requires
        old(v).len() > 0,
    ensures
        final(v)@ == old(v)@.drop_last(),
        r == old(v)@.last(),
{
    match v.pop() {
        Some(x) => x,
        None => (Token::Dup, Loc { start: 0, end: 0, line: 0, column: 0 }),
    }
}

/// The finished tokens among the raw ones, in order.
fn plain(raws: Vec<(Raw, Loc)>, Ghost(ms): Ghost<Seq<(RawM, Loc)>>) -> (r: Vec<(Token, Loc)>)
    requires
        raws_wf(raws@),
        raws_models(raws@, ms),
    ensures
        all_toks_wf(r@),
        r.len() <= raws.len(),
        toks_models(r@, plain_m(ms)),
{
    let ghost n0 = raws.len();
    let mut raws = raws;
    let mut rev: Vec<(Token, Loc)> = Vec::new();
    let ghost mut msc = ms;
    let ghost mut revm: Seq<(TokM, Loc)> = Seq::empty();
    while raws.len() > 0
        invariant
            raws_wf(raws@),
            all_toks_wf(rev@),
            rev.len() + raws.len() <= n0,
            raws_models(raws@, msc),
            toks_rel(rev@, revm),
            plain_m(ms) == plain_m(msc) + revm.reverse(),
        decreases raws.len(),
    {
        proof {
            lemma_raws_drop_last(raws@, msc);
            assert(raw_models(raws@[raws.len() - 1].0, msc[msc.len() - 1].0));
        }
        let ghost last = msc.last();
        let ghost before = msc;
        let (x, l) = pop_raw(&mut raws);
        proof {
            msc = msc.drop_last();
        }
        let ghost rv0 = rev@;
        let ghost rm0 = revm;
        let keep = match x {
            Raw::Tok(t) => {
                rev.push((t, l));
                true
            },
            _ => false,
        };
        proof {
            if keep {
                let tm = last.0->Tok_0;
                revm = revm.push((tm, l));
                assert forall|k: int| 0 <= k < rev.len() implies #[trigger] tok_models(rev@[k].0, revm[k].0) && rev@[k].1 == revm[k].1 by {
                    if k < rv0.len() {
                        assert(rev@[k] == rv0[k] && revm[k] == rm0[k]);
                        assert(tok_models(rv0[k].0, rm0[k].0));
                    }
                }
                assert(plain_m(before) == plain_m(msc).push((tm, l)));
                assert(revm.reverse() =~= seq![(tm, l)] + rm0.reverse());
                assert(plain_m(ms) =~= plain_m(msc) + revm.reverse());
            } else {
                assert(plain_m(before) == plain_m(msc));
            }
        }
    }
    proof {
        assert(plain_m(msc) =~= Seq::<(TokM, Loc)>::empty());
        assert(plain_m(ms) =~= revm.reverse());
    }
    let ghost rev0 = rev@;
    let ghost n = rev.len() as int;
    let mut out: Vec<(Token, Loc)> = Vec::new();
    while rev.len() > 0
        invariant
            all_toks_wf(rev@),
            all_toks_wf(out@),
            out.len() + rev.len() <= n0,
            out.len() + rev.len() == n,
            n == rev0.len(),
            rev@ == rev0.take(rev.len() as int),
            forall|k: int| 0 <= k < out.len() ==> #[trigger] out@[k] == rev0[n - 1 - k],
        decreases rev.len(),
    {
        let ghost bf = rev@;
        let x = pop_tok(&mut rev);
        out.push(x);
        proof {
            assert(bf.drop_last() =~= rev0.take(rev.len() as int));
            assert(out@[out.len() - 1] == rev0[n - 1 - (out.len() - 1)]);
        }
    }
    proof {
        assert(toks_rel(rev0, revm));
        assert forall|k: int| 0 <= k < out.len() implies #[trigger] tok_models(out@[k].0, plain_m(ms)[k].0) && out@[k].1 == plain_m(ms)[k].1 by {
            assert(out@[k] == rev0[n - 1 - k]);
            assert(revm.reverse()[k] == revm[n - 1 - k]);
            assert(tok_models(rev0[n - 1 - k].0, revm[n - 1 - k].0));
        }
        lemma_toks_models(out@, plain_m(ms));
    }
    out
}

/// Takes the previous token off where it is an exact real literal.
fn take_real(raws: &mut Vec<(Raw, Loc)>) -> (r: Option<(Rat, Loc)>)
    requires
        raws_wf(old(raws)@),
    ensures
        raws_wf(final(raws)@),
        r matches Some(x) ==> x.0.wf(),
        r matches Some(x) ==> old(raws)@.len() > 0 && final(raws)@ == old(raws)@.drop_last() && x.1
            == old(raws)@.last().1,
        r is None ==> final(raws)@ == old(raws)@,
        r is Some <==> (old(raws)@.len() > 0 && (old(raws)@.last().0 matches Raw::Tok(t) && (t is Integer
            || t is Rational))),
        r matches Some(x) ==> (old(raws)@.last().0 matches Raw::Tok(Token::Integer(k)) ==> x.0.nv()
            == k.val() && x.0.dv() == 1),
        r matches Some(x) ==> (old(raws)@.last().0 matches Raw::Tok(Token::Rational(q)) ==> x.0 == q),
{
    let n = raws.len();
    if n == 0 {
        return None;
    }
    let exact = match &raws[n - 1].0 {
        Raw::Tok(Token::Integer(_)) | Raw::Tok(Token::Rational(_)) => true,
        _ => false,
    };
    if !exact {
        return None;
    }
    proof {
        assert(raw_wf(raws@[n - 1].0));
    }
    let (x, l) = pop_raw(raws);
    match x {
        Raw::Tok(Token::Integer(k)) => Some((Rat::from_int(k), l)),
        Raw::Tok(Token::Rational(q)) => Some((q, l)),
        _ => None,
    }
}

/// Takes the previous token off where it is a minus.
fn take_minus(raws: &mut Vec<(Raw, Loc)>) -> (r: Option<Loc>)
    requires
        raws_wf(old(raws)@),
    ensures
        raws_wf(final(raws)@),
        r matches Some(l) ==> old(raws)@.len() > 0 && final(raws)@ == old(raws)@.drop_last() && l
            == old(raws)@.last().1,
        r is None ==> final(raws)@ == old(raws)@,
        r is Some <==> (old(raws)@.len() > 0 && old(raws)@.last().0 matches Raw::Tok(Token::Minus)),
{
    let n = raws.len();
    if n == 0 {
        return None;
    }
    let minus = match &raws[n - 1].0 {
        Raw::Tok(Token::Minus) => true,
        _ => false,
    };
    if !minus {
        return None;
    }
    let (_, l) = pop_raw(raws);
    Some(l)
}

/// Takes the previous token off where it is a literal.
fn take_literal(raws: &mut Vec<(Raw, Loc)>) -> (r: Option<(Token, Loc)>)
    requires
        raws_wf(old(raws)@),
    ensures
        raws_wf(final(raws)@),
        r matches Some(x) ==> is_literal(x.0) && x.0.wf(),
        r matches Some(x) ==> old(raws)@.len() > 0 && final(raws)@ == old(raws)@.drop_last() && x.1
            == old(raws)@.last().1,
        r is None ==> final(raws)@ == old(raws)@,
        r is Some <==> (old(raws)@.len() > 0 && (old(raws)@.last().0 matches Raw::Tok(t) && is_literal(t))),
        r matches Some(x) ==> old(raws)@.last().0 == Raw::Tok(x.0),
{
    let n = raws.len();
    if n == 0 {
        return None;
    }
    let lit = match &raws[n - 1].0 {
        Raw::Tok(t) => t.is_literal_token(),
        _ => false,
    };
    if !lit {
        return None;
    }
    proof {
        assert(raw_wf(raws@[n - 1].0));
    }
    let (x, l) = pop_raw(raws);
    match x {
        Raw::Tok(t) => Some((t, l)),
        _ => None,
    }
}

/// The index of the `)` that closes the `(` before `i`, if any.
fn closing(cs: &Vec<char>, i: usize, hi: usize) -> (r: Option<usize>)
    requires
        i <= hi <= cs.len(),
        hi < usize::MAX,
    ensures
        r matches Some(j) ==> i <= j < hi && cs@[j as int] == ')',
        (forall|k: int| i <= k < hi ==> cs@[k] != ')') ==> r is None,
        (r is Some) == (closing_m(cs@, i as int, hi as int, 1) is Some),
        r matches Some(j) ==> closing_m(cs@, i as int, hi as int, 1) == Some(j as int),
{
    let mut depth: usize = 1;
    let mut j = i;
    while j < hi
        invariant
            i <= j <= hi <= cs.len(),
            depth >= 1,
            depth <= j - i + 1,
            hi < usize::MAX,
            closing_m(cs@, i as int, hi as int, 1) == closing_m(cs@, j as int, hi as int, depth as int),
        decreases hi - j,
    {
        if cs[j] == '(' {
            depth += 1;
        } else if cs[j] == ')' {
            depth -= 1;
            if depth == 0 {
                return Some(j);
            }
        }
        j += 1;
    }
    None
}

/// The loc of one token: from `start` (at `line`, `column`) to `end`.
fn span(start: usize, end: usize, line: usize, column: usize) -> (r: Loc)
    ensures
        r == (Loc { start, end, line, column }),
{
    Loc { start, end, line, column }
}

/// The exact real value of an integer or rational literal.
fn rat_of(t: Token) -> (r: Rat)
    requires
        t.wf(),
        t is Integer || t is Rational,
    ensures
        r.wf(),
        t matches Token::Integer(n) ==> r.nv() == n.val() && r.dv() == 1,
        t matches Token::Rational(q) ==> r == q,
{
    match t {
        Token::Integer(n) => Rat::from_int(n),
        Token::Rational(q) => q,
        _ => Rat::from_int(Int::zero()),
    }
}

/// Folds chained literals into lists. The raw tokens come back in reverse
/// order, with no chain left.
fn fold_chains(raws: Vec<(Raw, Loc)>, Ghost(a): Ghost<int>, Ghost(b): Ghost<int>, Ghost(rm): Ghost<Seq<(RawM, Loc)>>) -> (r: Result<Vec<(Raw, Loc)>, (SyntaxError, Loc)>)
    requires
        raws_wf(raws@),
        raws_within(raws@, a, b),
        raws_models(raws@, rm),
    ensures
        match fold_m(rm, Seq::empty()) {
            Ok(t) => r matches Ok(x) && raws_models(x@, t),
            Err(e) => r == Err::<Vec<(Raw, Loc)>, (SyntaxError, Loc)>(e),
        },
        r matches Ok(t) ==> raws_wf(t@) && forall|k: int| 0 <= k < t.len() ==> !((#[trigger] t@[k]).0 is Chain),
        r matches Ok(t) ==> raws_within(t@, a, b),
{
    let mut raws = raws;
    let mut out: Vec<(Raw, Loc)> = Vec::new();
    let ghost mut rmc = rm;
    let ghost mut om: Seq<(RawM, Loc)> = Seq::empty();
    while raws.len() > 0
        invariant
            raws_wf(raws@),
            raws_wf(out@),
            forall|k: int| 0 <= k < out.len() ==> !((#[trigger] out@[k]).0 is Chain),
            raws_within(raws@, a, b),
            raws_within(out@, a, b),
            raws_models(raws@, rmc),
            raws_models(out@, om),
            fold_m(rmc, om) == fold_m(rm, Seq::empty()),
        decreases raws.len(),
    {
        proof {
            lemma_raws_drop_last(raws@, rmc);
            lemma_raws_drop_last(out@, om);
            assert(raw_models(raws@[raws.len() - 1].0, rmc[rmc.len() - 1].0));
            if out.len() > 0 {
                assert(raw_models(out@[out.len() - 1].0, om[om.len() - 1].0));
            }
        }
        let ghost xm = rmc.last();
        let ghost before = rmc;
        let (x, l) = pop_raw(&mut raws);
        proof {
            rmc = rmc.drop_last();
        }
        match x {
            Raw::Chain(items) => {
                let mut items = items;
                let ghost items_m = xm.0->Chain_0;
                if out.len() == 0 {
                    proof {
                        lemma_lits_wf(items@);
                        om = om.push((RawM::Tok(TokM::List(items_m)), l));
                    }
                    out.push((Raw::Tok(Token::List(items)), l));
                    proof {
                        assert(raw_models(out@[out.len() - 1].0, om[om.len() - 1].0));
                    }
                } else {
                    let ghost nm = om.last();
                    let (nx, nl) = pop_raw(&mut out);
                    proof {
                        om = om.drop_last();
                    }
                    match nx {
                        Raw::Spacing => {
                            return Err((SyntaxError::InvalidSymbol(' '), nl));
                        },
                        Raw::Tok(Token::List(more)) => {
                            let mut more = more;
                            let ghost more_m = nm.0->Tok_0->List_0;
                            let ghost items0 = items@;
                            let ghost more0 = more@;
                            proof {
                                lemma_lits_wf(more@);
                                lemma_lits_models(items@, items_m);
                                lemma_lits_models(more@, more_m);
                            }
                            items.append(&mut more);
                            proof {
                                assert forall|k: int| 0 <= k < items.len() implies is_literal(
                                    #[trigger] items@[k],
                                ) && items@[k].wf() by {}
                                lemma_lits_wf(items@);
                                assert(items@ == items0 + more0);
                                assert forall|k: int| 0 <= k < items.len() implies #[trigger] tok_models(items@[k], (items_m + more_m)[k]) by {
                                    if k < items0.len() {
                                        assert(tok_models(items0[k], items_m[k]));
                                    } else {
                                        assert(tok_models(more0[k - items0.len()], more_m[k - items0.len()]));
                                    }
                                }
                                lemma_lits_models(items@, items_m + more_m);
                                om = om.push((RawM::Tok(TokM::List(items_m + more_m)), span_m(l.start as int, nl.end as int, l.line as int, l.column as int)));
                            }
                            out.push((Raw::Tok(Token::List(items)), span(l.start, nl.end, l.line, l.column)));
                            proof {
                                assert(raw_models(out@[out.len() - 1].0, om[om.len() - 1].0));
                            }
                        },
                        Raw::Tok(t) => {
                            if !t.is_literal_token() {
                                return Err((SyntaxError::InvalidSymbol('‿'), l));
                            }
                            let ghost items0 = items@;
                            let ghost tm = nm.0->Tok_0;
                            proof {
                                lemma_lits_models(items@, items_m);
                            }
                            items.push(t);
                            proof {
                                assert forall|k: int| 0 <= k < items.len() implies is_literal(
                                    #[trigger] items@[k],
                                ) && items@[k].wf() by {}
                                lemma_lits_wf(items@);
                                assert forall|k: int| 0 <= k < items.len() implies #[trigger] tok_models(items@[k], items_m.push(tm)[k]) by {
                                    if k < items0.len() {
                                        assert(tok_models(items0[k], items_m[k]));
                                    }
                                }
                                lemma_lits_models(items@, items_m.push(tm));
                                om = om.push((RawM::Tok(TokM::List(items_m.push(tm))), span_m(l.start as int, nl.end as int, l.line as int, l.column as int)));
                            }
                            out.push((Raw::Tok(Token::List(items)), span(l.start, nl.end, l.line, l.column)));
                            proof {
                                assert(raw_models(out@[out.len() - 1].0, om[om.len() - 1].0));
                            }
                        },
                        _ => {
                            return Err((SyntaxError::InvalidSymbol('‿'), l));
                        },
                    }
                }
            },
            other => {
                out.push((other, l));
                proof {
                    om = om.push(xm);
                    assert(raw_models(out@[out.len() - 1].0, om[om.len() - 1].0));
                }
            },
        }
    }
    Ok(out)
}

/// Puts reversed raw tokens back in order, without the spacing.
fn drop_spacing(rev: Vec<(Raw, Loc)>, Ghost(a): Ghost<int>, Ghost(b): Ghost<int>, Ghost(rm): Ghost<Seq<(RawM, Loc)>>) -> (r: Vec<(Raw, Loc)>)
    requires
        raws_models(rev@, rm),
        raws_wf(rev@),
        raws_within(rev@, a, b),
        forall|k: int| 0 <= k < rev.len() ==> !((#[trigger] rev@[k]).0 is Chain),
    ensures
        raws_wf(r@),
        forall|k: int| 0 <= k < r.len() ==> (#[trigger] r@[k]).0 is Tok || r@[k].0 is Mark,
        raws_within(r@, a, b),
        raws_models(r@, drop_m(rm, Seq::empty())),
{
    let mut rev = rev;
    let mut out: Vec<(Raw, Loc)> = Vec::new();
    let ghost mut rmc = rm;
    let ghost mut om: Seq<(RawM, Loc)> = Seq::empty();
    while rev.len() > 0
        invariant
            raws_models(rev@, rmc),
            raws_models(out@, om),
            drop_m(rmc, om) == drop_m(rm, Seq::empty()),
            raws_wf(rev@),
            forall|k: int| 0 <= k < rev.len() ==> !((#[trigger] rev@[k]).0 is Chain),
            raws_wf(out@),
            forall|k: int| 0 <= k < out.len() ==> (#[trigger] out@[k]).0 is Tok || out@[k].0 is Mark,
            raws_within(rev@, a, b),
            raws_within(out@, a, b),
        decreases rev.len(),
    {
        proof {
            lemma_raws_drop_last(rev@, rmc);
            assert(raw_models(rev@[rev.len() - 1].0, rmc[rmc.len() - 1].0));
        }
        let ghost xm = rmc.last();
        let (x, l) = pop_raw(&mut rev);
        proof {
            rmc = rmc.drop_last();
        }
        match x {
            Raw::Spacing => {},
            other => {
                out.push((other, l));
                proof {
                    om = om.push(xm);
                    assert(raw_models(out@[out.len() - 1].0, om[om.len() - 1].0));
                }
            },
        }
    }
    out
}

/// Located tokens and the plain values that describe them, element by element.
spec fn toks_rel(s: Seq<(Token, Loc)>, ms: Seq<(TokM, Loc)>) -> bool {
    s.len() == ms.len() && forall|k: int|
        0 <= k < s.len() ==> #[trigger] tok_models(s[k].0, ms[k].0) && s[k].1 == ms[k].1
}

/// Takes one raw token, right to left: a token goes onto `rev`, a marker
/// wraps the token on top of `rev`.
fn absorb(rev: &mut Vec<(Token, Loc)>, x: Raw, l: Loc, Ghost(revm): Ghost<Seq<(TokM, Loc)>>, Ghost(xm): Ghost<RawM>, Ghost(a): Ghost<int>, Ghost(b): Ghost<int>) -> (r: Result<(), (SyntaxError, Loc)>)
    requires
        toks_rel(old(rev)@, revm),
        raw_models(x, xm),
        raw_wf(x),
        all_toks_wf(old(rev)@),
        toks_within(old(rev)@, a, b),
        within(l, a, b),
    ensures
        all_toks_wf(final(rev)@),
        toks_within(final(rev)@, a, b),
        match xm {
            RawM::Tok(tm) => r is Ok && toks_rel(final(rev)@, revm.push((tm, l))),
            RawM::Mark => if revm.len() == 0 {
                r == Err::<(), (SyntaxError, Loc)>((SyntaxError::LonelyInverse, l))
            } else {
                r is Ok && toks_rel(final(rev)@, revm.drop_last().push((TokM::Inverse(Box::new(revm.last().0), l), l)))
            },
            _ => r is Ok && toks_rel(final(rev)@, revm),
        },
{
    let ghost rv0 = rev@;
    match x {
        Raw::Tok(t) => {
            rev.push((t, l));
            proof {
                let tm = xm->Tok_0;
                assert forall|k: int| 0 <= k < rev.len() implies #[trigger] tok_models(rev@[k].0, revm.push((tm, l))[k].0) && rev@[k].1 == revm.push((tm, l))[k].1 by {
                    if k < rv0.len() {
                        assert(rev@[k] == rv0[k]);
                        assert(tok_models(rv0[k].0, revm[k].0));
                    }
                }
            }
            Ok(())
        },
        Raw::Mark => {
            if rev.len() == 0 {
                return Err((SyntaxError::LonelyInverse, l));
            }
            let (t, _) = pop_tok(rev);
            proof {
                assert(tok_models(rv0[rv0.len() - 1].0, revm[revm.len() - 1].0));
            }
            rev.push((Token::Inverse(Box::new(t), l), l));
            proof {
                let nm = revm.drop_last().push((TokM::Inverse(Box::new(revm.last().0), l), l));
                assert forall|k: int| 0 <= k < rev.len() implies #[trigger] tok_models(rev@[k].0, nm[k].0) && rev@[k].1 == nm[k].1 by {
                    if k < rev.len() - 1 {
                        assert(rev@[k] == rv0[k]);
                        assert(tok_models(rv0[k].0, revm[k].0));
                    }
                }
            }
            Ok(())
        },
        _ => Ok(()),
    }
}

/// Gives each inverse marker the token that follows it.
fn resolve_marks(fwd: Vec<(Raw, Loc)>, Ghost(a): Ghost<int>, Ghost(b): Ghost<int>, Ghost(fm): Ghost<Seq<(RawM, Loc)>>) -> (r: Result<Vec<(Token, Loc)>, (SyntaxError, Loc)>)
    requires
        raws_wf(fwd@),
        raws_within(fwd@, a, b),
        raws_models(fwd@, fm),
    ensures
        r matches Ok(t) ==> all_toks_wf(t@),
        r matches Ok(t) ==> toks_within(t@, a, b),
        match marks_m(fm, Seq::empty()) {
            Ok(t) => r matches Ok(x) && toks_models(x@, t),
            Err(e) => r == Err::<Vec<(Token, Loc)>, (SyntaxError, Loc)>(e),
        },
{
    let mut fwd = fwd;
    let mut rev: Vec<(Token, Loc)> = Vec::new();
    let ghost mut fmc = fm;
    let ghost mut revm: Seq<(TokM, Loc)> = Seq::empty();
    while fwd.len() > 0
        invariant
            raws_wf(fwd@),
            all_toks_wf(rev@),
            raws_within(fwd@, a, b),
            toks_within(rev@, a, b),
            raws_models(fwd@, fmc),
            toks_rel(rev@, revm),
            marks_m(fmc, revm) == marks_m(fm, Seq::empty()),
        decreases fwd.len(),
    {
        proof {
            lemma_raws_drop_last(fwd@, fmc);
            assert(raw_models(fwd@[fwd.len() - 1].0, fmc[fmc.len() - 1].0));
            assert(raw_wf(fwd@[fwd.len() - 1].0));
        }
        let ghost xm = fmc.last();
        let (x, l) = pop_raw(&mut fwd);
        proof {
            fmc = fmc.drop_last();
        }
        match absorb(&mut rev, x, l, Ghost(revm), Ghost(xm.0), Ghost(a), Ghost(b)) {
            Ok(()) => {},
            Err(e) => {
                return Err(e);
            },
        }
        proof {
            revm = match xm.0 {
                RawM::Tok(tm) => revm.push((tm, l)),
                RawM::Mark => revm.drop_last().push((TokM::Inverse(Box::new(revm.last().0), l), l)),
                _ => revm,
            };
        }
    }
    proof {
        assert(marks_m(fmc, revm) == Ok::<Seq<(TokM, Loc)>, (SyntaxError, Loc)>(revm.reverse()));
    }
    let ghost rev0 = rev@;
    let ghost n = rev.len() as int;
    let mut out: Vec<(Token, Loc)> = Vec::new();
    while rev.len() > 0
        invariant
            all_toks_wf(rev@),
            all_toks_wf(out@),
            toks_within(rev@, a, b),
            toks_within(out@, a, b),
            out.len() + rev.len() == n,
            n == rev0.len(),
            rev@ == rev0.take(rev.len() as int),
            forall|k: int| 0 <= k < out.len() ==> #[trigger] out@[k] == rev0[n - 1 - k],
        decreases rev.len(),
    {
        let ghost before = rev@;
        let x = pop_tok(&mut rev);
        out.push(x);
        proof {
            assert(before.drop_last() =~= rev0.take(rev.len() as int));
            assert(out@[out.len() - 1] == rev0[n - 1 - (out.len() - 1)]);
        }
    }
    proof {
        assert(toks_rel(rev0, revm));
        assert(revm.len() == n);
        assert forall|k: int| 0 <= k < out.len() implies #[trigger] tok_models(out@[k].0, revm.reverse()[k].0) && out@[k].1 == revm.reverse()[k].1 by {
            assert(out@[k] == rev0[n - 1 - k]);
            assert(revm.reverse()[k] == revm[n - 1 - k]);
            assert(tok_models(rev0[n - 1 - k].0, revm[n - 1 - k].0));
        }
        lemma_toks_models(out@, revm.reverse());
    }
    Ok(out)
}


proof fn lemma_raws_drop_last(s: Seq<(Raw, Loc)>, ms: Seq<(RawM, Loc)>)
    requires
        raws_models(s, ms),
    ensures
        s.len() > 0 ==> raws_models(s.drop_last(), ms.drop_last()),
{
    if s.len() > 0 {
        assert forall|k: int| 0 <= k < s.len() - 1 implies #[trigger] raw_models(s.drop_last()[k].0, ms.drop_last()[k].0) && s.drop_last()[k].1 == ms.drop_last()[k].1 by {
            assert(raw_models(s[k].0, ms[k].0));
        }
    }
}

/// Twice a fraction: `q + q` stands for `2 n / d` where `q` stands for `n / d`.
proof fn lemma_double(q: Rat, z: Rat, n: int, d: int)
    requires
        q.dv() > 0,
        z.dv() > 0,
        d > 0,
        q.is(n, d),
        z.is(q.nv() * q.dv() + q.nv() * q.dv(), q.dv() * q.dv()),
    ensures
        z.is(2 * n, d),
{
    let (qn, qd, zn, zd) = (q.nv(), q.dv(), z.nv(), z.dv());
    assert(zn * qd * qd == 2 * qn * qd * zd) by (nonlinear_arith)
        requires
            zn * (qd * qd) == (qn * qd + qn * qd) * zd,
    ;
    assert(zn * qd == 2 * qn * zd) by (nonlinear_arith)
        requires
            zn * qd * qd == 2 * qn * qd * zd,
            qd > 0,
    ;
    assert(zn * d * qd == 2 * n * zd * qd) by (nonlinear_arith)
        requires
            zn * qd == 2 * qn * zd,
            qn * d == n * qd,
    ;
    assert(zn * d == 2 * n * zd) by (nonlinear_arith)
        requires
            zn * d * qd == 2 * n * zd * qd,
            qd > 0,
    ;
}

/// A negated fraction.
proof fn lemma_negated(q: Rat, z: Rat, n: int, d: int)
    requires
        q.is(n, d),
        z.nv() == -q.nv(),
        z.dv() == q.dv(),
    ensures
        z.is(-n, d),
{
    assert(z.nv() * d == (-n) * z.dv()) by (nonlinear_arith)
        requires
            q.nv() * d == n * q.dv(),
            z.nv() == -q.nv(),
            z.dv() == q.dv(),
    ;
}

/// One token scanned: the raw token, where it starts, and the index after it.
struct Scanned {
    raw: Raw,
    first: usize,
    line: usize,
    column: usize,
    next: usize,
}

fn scanned(raw: Raw, first: usize, line: usize, column: usize, next: usize) -> (r: Result<Scanned, (SyntaxError, Loc)>)
    ensures
        r matches Ok(sc) && sc.raw == raw && sc.next == next && sc.first == first && sc.line == line
            && sc.column == column,
{
    Ok(Scanned { raw, first, line, column, next })
}

#[verifier::rlimit(100)]
/// Scans the token that starts at `cs[i]` (not a bracket), at offset `p`,
/// line `line0` and column `col0`; literals before it that it absorbs are
/// taken off `tokens`.
fn scan_token(
    cs: &Vec<char>,
    i: usize,
    hi: usize,
    p: usize,
    line0: usize,
    col0: usize,
    tokens: &mut Vec<(Raw, Loc)>,
    Ghost(lo_off): Ghost<int>,
    Ghost(ms): Ghost<Seq<(RawM, Loc)>>,
) -> (r: Result<Scanned, (SyntaxError, Loc)>)
    requires
        i < hi <= cs.len(),
        cs@[i as int] != '(',
        p as int + (hi - i) <= usize::MAX,
        raws_wf(old(tokens)@),
        raws_models(old(tokens)@, ms),
        lo_off <= p,
        raws_within(old(tokens)@, lo_off, p as int),
    ensures
        raws_wf(final(tokens)@),
        raws_within(final(tokens)@, lo_off, p as int),
        r matches Ok(sc) ==> lo_off <= sc.first <= p,
        match step_m(cs@, i as int, hi as int, p as int, line0 as int, col0 as int, ms) {
            Ok((ts2, raw, first, line, column, next)) => r matches Ok(sc) && raws_models(final(tokens)@, ts2)
                && raw_models(sc.raw, raw) && sc.first == first && sc.line == line && sc.column == column
                && sc.next == next,
            Err((e, l, ts2)) => r == Err::<Scanned, (SyntaxError, Loc)>((e, l)) && raws_models(
                final(tokens)@,
                ts2,
            ),
        },
        r matches Ok(sc) ==> raw_wf(sc.raw),
        r matches Ok(sc) ==> i < sc.next <= hi,
        cs@[i as int] == ')' ==> final(tokens)@ == old(tokens)@,
        cs@[i as int] == ')' ==> r == Err::<Scanned, (SyntaxError, Loc)>(
            (SyntaxError::UnmatchedParenthesis(false), Loc { start: p, end: (p + 1) as usize, line: line0, column: col0 }),
        ),
{
    let c = cs[i];
    proof {
        lemma_raws_drop_last(tokens@, ms);
        if ms.len() > 0 {
            assert(raw_models(tokens@[ms.len() - 1].0, ms[ms.len() - 1].0));
        }
    }
    if c == ' ' || c == '\r' || c == '\n' {
        return scanned(Raw::Spacing, p, line0, col0, i + 1);
    }
    if digit_value(c).is_some() {
        let (first, line, column, negative) = match take_minus(tokens) {
            Some(ml) => (ml.start, ml.line, ml.column, true),
            None => (p, line0, col0, false),
        };
        let (t, e) = scan_number(cs, i, hi);
        let ghost tm = number_m(cs@, i as int, hi as int).0;
        let t = if negative {
            match t {
                Token::Integer(n) => Token::Integer(n.negate()),
                Token::Rational(q) => {
                    let ghost q0 = q;
                    let z = q.negate();
                    proof {
                        lemma_negated(q0, z, tm->Rational_0, tm->Rational_1);
                    }
                    Token::Rational(z)
                },
                other => other,
            }
        } else {
            t
        };
        proof {
            assert(raw_wf(Raw::Tok(t)));
        }
        return scanned(Raw::Tok(t), first, line, column, e);
    }
    if c == 'i' {
        let (re, first, line, column) = match take_real(tokens) {
            Some((q, l)) => (q, l.start, l.line, l.column),
            None => (Rat::from_int(Int::zero()), p, line0, col0),
        };
        let mut k = i + 1;
        let mut negative = false;
        if k < hi && cs[k] == '⁻' {
            negative = true;
            k += 1;
        }
        if k < hi && cs[k] == '.' {
            if negative {
                return Err((SyntaxError::InvalidSymbol('⁻'), span(first, p + (k - i), line, column)));
            }
            let one = Rat::from_int(Int::from_u64(1));
            proof {
                assert(raw_wf(Raw::Tok(Token::Complex(re, one))));
            }
            return scanned(Raw::Tok(Token::Complex(re, one)), first, line, column, k);
        }
        let ghost (mn, md) = if k < hi && is_digit(cs@[k as int]) {
            match number_m(cs@, k as int, hi as int).0 {
                TokM::Integer(v) => (v, 1int),
                TokM::Rational(a, b) => (a, b),
                _ => (1int, 1int),
            }
        } else {
            (1int, 1int)
        };
        let (mag, next) = if is_digit_at(cs, k, hi) {
            let (t, e) = scan_number(cs, k, hi);
            let q = rat_of(t);
            proof {
                assert(q.is(mn, md) && md > 0);
            }
            (q, e)
        } else {
            (Rat::from_int(Int::from_u64(1)), k)
        };
        let ghost mag0 = mag;
        let im = if negative {
            mag.negate()
        } else {
            mag
        };
        proof {
            if negative {
                lemma_negated(mag0, im, mn, md);
            }
        }
        proof {
            assert(raw_wf(Raw::Tok(Token::Complex(re, im))));
        }
        return scanned(Raw::Tok(Token::Complex(re, im)), first, line, column, next);
    }
    if c == 'π' || c == 'τ' {
        let (times, first, line, column) = match take_real(tokens) {
            Some((q, l)) => (q, l.start, l.line, l.column),
            None => (Rat::from_int(Int::from_u64(1)), p, line0, col0),
        };
        let ghost t0 = times;
        let m = if c == 'τ' {
            times.add(&times)
        } else {
            times
        };
        proof {
            if c == 'τ' {
                let (pn, pd) = if ms.len() > 0 {
                    match ms.last().0 {
                        RawM::Tok(TokM::Integer(kk)) => (kk, 1int),
                        RawM::Tok(TokM::Rational(a, b)) => (a, b),
                        _ => (1int, 1int),
                    }
                } else {
                    (1int, 1int)
                };
                lemma_double(t0, m, pn, pd);
            }
        }
        proof {
            assert(raw_wf(Raw::Tok(Token::Pi(m))));
        }
        return scanned(Raw::Tok(Token::Pi(m)), first, line, column, i + 1);
    }
    if c == '‿' {
        return match take_literal(tokens) {
            Some((t, l)) => {
                let mut items: Vec<Token> = Vec::new();
                items.push(t);
                proof {
                    assert(items@[0] == t);
                    assert(raw_wf(Raw::Chain(items)));
                    let tm = ms.last().0->Tok_0;
                    assert(tok_models(t, tm));
                    lemma_lits_models(items@, seq![tm]);
                }
                scanned(Raw::Chain(items), l.start, l.line, l.column, i + 1)
            },
            None => Err((SyntaxError::InvalidSymbol('‿'), span(p, p + 1, line0, col0))),
        };
    }
    if c == '⁻' && i + 1 < hi && cs[i + 1] == '¹' {
        return scanned(Raw::Mark, p, line0, col0, i + 2);
    }
    if c == ')' {
        return Err((SyntaxError::UnmatchedParenthesis(false), span(p, p + 1, line0, col0)));
    }
    let t = symbol_token(c);
    scanned(Raw::Tok(t), p, line0, col0, i + 1)
}

/// The token of a single symbol that stands alone.
fn symbol_token(c: char) -> (t: Token)
    ensures
        raw_wf(Raw::Tok(t)),
        tok_models(
            t,
            if c == '∞' {
                TokM::Infinity
            } else if c == 'ε' {
                TokM::Epsilon
            } else if c == '.' {
                TokM::Dup
            } else if c == ',' {
                TokM::Pop
            } else if c == '↔' {
                TokM::Flip
            } else if c == '⁻' {
                TokM::Minus
            } else {
                TokM::Call(c)
            },
        ),
{
    if c == '∞' {
        Token::Infinity
    } else if c == 'ε' {
        Token::Epsilon
    } else if c == '.' {
        Token::Dup
    } else if c == ',' {
        Token::Pop
    } else if c == '↔' {
        Token::Flip
    } else if c == '⁻' {
        Token::Minus
    } else {
        Token::FunctionCall(c)
    }
}

/// Parses `cs[lo..hi]`, the cursor `loc` standing at `cs[lo]`.
fn parse_range(cs: &Vec<char>, lo: usize, hi: usize, loc: &mut Loc) -> (r: Result<
    Vec<(Token, Loc)>,
    (SyntaxError, Loc, Vec<(Token, Loc)>),
>)
    requires
        lo <= hi <= cs.len(),
        cs.len() < usize::MAX,
        old(loc).end as int + (hi - lo) <= usize::MAX,
        old(loc).line as int + (hi - lo) <= usize::MAX,
        old(loc).column as int + (hi - lo) <= usize::MAX,
    ensures
        r matches Ok(t) ==> all_toks_wf(t@),
        r matches Ok(t) ==> toks_within(t@, old(loc).end as int, old(loc).end + (hi - lo)),
        r matches Err(e) ==> all_toks_wf(e.2@),
        r is Ok ==> final(loc).end == old(loc).end + (hi - lo) && final(loc).start == final(loc).end,
        final(loc).line <= old(loc).line + (hi - lo),
        final(loc).column <= old(loc).column + (hi - lo),
        lo < hi && cs@[lo as int] == ')' ==> (r matches Err(e) && e.0
            == SyntaxError::UnmatchedParenthesis(false) && e.1.start == old(loc).end && e.2.len() == 0),
        lo < hi && cs@[lo as int] == '(' && (forall|k: int| lo < k < hi ==> cs@[k] != ')') ==> (r matches Err(
            e,
        ) && e.0 == SyntaxError::UnmatchedParenthesis(true) && e.1.start == old(loc).end),
        match lex_range(cs@, lo as int, hi as int, *old(loc)) {
            Ok((tm, after)) => r matches Ok(t) && toks_models(t@, tm) && *final(loc) == after,
            Err((e, l, pm)) => r matches Err(x) && x.0 == e && x.1 == l && toks_models(x.2@, pm),
        },
    decreases hi - lo,
{
    let ghost l0 = *loc;
    loc.start = loc.end;
    let mut tokens: Vec<(Raw, Loc)> = Vec::new();
    let mut i = lo;
    let ghost mut ms: Seq<(RawM, Loc)> = Seq::empty();
    let ghost start = *loc;
    while i < hi
        invariant
            l0 == *old(loc),
            lo <= i <= hi <= cs.len(),
            cs.len() < usize::MAX,
            l0.end as int + (hi - lo) <= usize::MAX,
            l0.line as int + (hi - lo) <= usize::MAX,
            l0.column as int + (hi - lo) <= usize::MAX,
            loc.end == l0.end + (i - lo),
            loc.start == loc.end,
            loc.line <= l0.line + (i - lo),
            loc.column <= l0.column + (i - lo),
            raws_wf(tokens@),
            raws_within(tokens@, l0.end as int, loc.end as int),
            i == lo ==> tokens.len() == 0,
            lo < hi && (cs@[lo as int] == ')' || (cs@[lo as int] == '(' && forall|k: int|
                lo < k < hi ==> cs@[k] != ')')) ==> i == lo,
            raws_models(tokens@, ms),
            start == (Loc { start: l0.end, ..l0 }),
            scan_m(cs@, lo as int, hi as int, start, Seq::empty()) == scan_m(cs@, i as int, hi as int, *loc, ms),
        decreases hi - i,
    {
        let c = cs[i];
        let p = loc.end;
        let line0 = loc.line;
        let col0 = loc.column;
        if c == '(' {
            let j = match closing(cs, i + 1, hi) {
                Some(j) => j,
                None => {
                    return Err(
                        (SyntaxError::UnmatchedParenthesis(true), span(p, p + 1, line0, col0), plain(tokens, Ghost(ms))),
                    );
                },
            };
            loc.end = p + 1;
            loc.start = p + 1;
            loc.column = col0 + 1;
            let ghost inner = *loc;
            let sub = match parse_range(cs, i + 1, j, loc) {
                Ok(sub) => sub,
                Err(e) => {
                    return Err(e);
                },
            };
            let ghost after = *loc;
            let ghost subm = lex_range(cs@, i + 1, j as int, inner)->Ok_0.0;
            proof {
                lemma_toks_wf(sub@);
            }
            let scope = Raw::Tok(Token::Scope(sub));
            proof {
                assert(raw_wf(scope));
                assert(raw_models(scope, RawM::Tok(TokM::Scope(subm))));
            }
            tokens.push((scope, span(p, p + (j - i) + 1, line0, col0)));
            proof {
                ms = ms.push((RawM::Tok(TokM::Scope(subm)), span_m(p as int, p + (j - i) + 1, line0 as int, col0 as int)));
                assert(raw_models(tokens@[tokens.len() - 1].0, ms[ms.len() - 1].0));
            }
            loc.end = p + (j - i) + 1;
            loc.start = loc.end;
            loc.column = loc.column + 1;
            i = j + 1;
            continue;
        }
        let ghost step = step_m(cs@, i as int, hi as int, p as int, line0 as int, col0 as int, ms);
        let sc = match scan_token(cs, i, hi, p, line0, col0, &mut tokens, Ghost(l0.end as int), Ghost(ms)) {
            Ok(sc) => sc,
            Err((e, l)) => {
                return Err((e, l, plain(tokens, Ghost(step->Err_0.2))));
            },
        };
        let raw = sc.raw;
        let first = sc.first;
        let first_line = sc.line;
        let first_col = sc.column;
        let next = sc.next;
        proof {
            assert(raw_wf(raw));
        }
        tokens.push((raw, span(first, p + (next - i), first_line, first_col)));
        proof {
            let st = step->Ok_0;
            ms = st.0.push((st.1, span_m(first as int, p + (next - i), first_line as int, first_col as int)));
            assert(raw_models(tokens@[tokens.len() - 1].0, ms[ms.len() - 1].0));
        }
        loc.end = p + (next - i);
        loc.start = loc.end;
        if c == '\n' {
            loc.line = line0 + 1;
            loc.column = 1;
        } else {
            loc.column = col0 + (next - i);
        }
        i = next;
    }
    proof {
        assert(scan_m(cs@, i as int, hi as int, *loc, ms) == Ok::<(Seq<(RawM, Loc)>, Loc), (SyntaxError, Loc, Seq<(TokM, Loc)>)>((ms, *loc)));
    }
    let rev = match fold_chains(tokens, Ghost(l0.end as int), Ghost(l0.end + (hi - lo)), Ghost(ms)) {
        Ok(rev) => rev,
        Err((e, l)) => {
            return Err((e, l, Vec::new()));
        },
    };
    let ghost revm = fold_m(ms, Seq::empty())->Ok_0;
    let fwd = drop_spacing(rev, Ghost(l0.end as int), Ghost(l0.end + (hi - lo)), Ghost(revm));
    match resolve_marks(fwd, Ghost(l0.end as int), Ghost(l0.end + (hi - lo)), Ghost(drop_m(revm, Seq::empty()))) {
        Ok(out) => Ok(out),
        Err((e, l)) => Err((e, l, Vec::new())),
    }
}

/// Turns source text into located tokens, or a syntax error with where it
/// stands and the tokens read before it. `loc` is the cursor: where the text
/// starts, and after a success where it ends.
pub fn parse(input: &str, loc: &mut Loc) -> (r: Result<
    Vec<(Token, Loc)>,
    (SyntaxError, Loc, Vec<(Token, Loc)>),
>)
    requires
        input@.len() < usize::MAX,
        old(loc).end as int + input@.len() <= usize::MAX,
        old(loc).line as int + input@.len() <= usize::MAX,
        old(loc).column as int + input@.len() <= usize::MAX,
    ensures
        r matches Ok(t) ==> toks_wf(t@),
        r matches Ok(t) ==> forall|k: int|
            0 <= k < t.len() ==> within(#[trigger] t@[k].1, old(loc).end as int, old(loc).end + input@.len()),
        r matches Err(e) ==> toks_wf(e.2@),
        r is Ok ==> final(loc).end == old(loc).end + input@.len() && final(loc).start == final(loc).end,
        match lex(input@, *old(loc)) {
            Ok((tm, after)) => r matches Ok(t) && toks_models(t@, tm) && *final(loc) == after,
            Err((e, l, pm)) => r matches Err(x) && x.0 == e && x.1 == l && toks_models(x.2@, pm),
        },
        input@.len() > 0 && input@[0] == ')' ==> (r matches Err(e) && e.0
            == SyntaxError::UnmatchedParenthesis(false) && e.1.start == old(loc).end && e.2.len() == 0),
        input@.len() > 0 && input@[0] == '(' && (forall|k: int| 0 < k < input@.len() ==> input@[k]
            != ')') ==> (r matches Err(e) && e.0 == SyntaxError::UnmatchedParenthesis(true)
            && e.1.start == old(loc).end),
{
    let cs = chars_of(input);
    let r = parse_range(&cs, 0, cs.len(), loc);
    proof {
        match &r {
            Ok(t) => lemma_toks_wf(t@),
            Err(e) => lemma_toks_wf(e.2@),
        }
    }
    r
}

/// The characters of a string.
pub fn chars_of(s: &str) -> (r: Vec<char>)
    ensures
        r@ == s@,
{
    let mut r: Vec<char> = Vec::new();
    proof {
        broadcast use vstd::string::axiom_spec_iter;
    }
    for c in it: s.chars()
        invariant
            it.seq() == s@,
            r@ == s@.take(it.index() as int),
    {
        r.push(c);
        assert(r@ =~= s@.take(it.index() as int + 1));
    }
    assert(r@ =~= s@);
    r
}

} // verus!
