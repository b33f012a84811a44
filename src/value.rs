//! The runtime values and their arithmetic.
use crate::err::RuntimeError;
use crate::float::{
    float_add, float_div, float_is_negative, float_is_zero, float_mul, float_neg,
    float_of_int, float_pi, FLOAT_PRECISION,
};
use crate::num::{self, int_add, int_mul, Int, Rat};
use astro_float::BigFloat;
use vstd::prelude::*;

verus! {

/// A value on the operand stack.
#[derive(Debug, PartialEq)]
pub enum Value {
    Integer(Int),
    Rational(Rat),
    /// Real and imaginary parts, both floating approximations.
    Complex(BigFloat, BigFloat),
    Float(BigFloat),
    List(Vec<Value>),
    Infinity(i8),
    Undefined,
    /// A rational multiple of pi; the sign says pi (1) or 1/pi (-1).
    Pi(Rat, i8),
    /// The infinitesimal whose reciprocal is the infinity of the same sign.
    Epsilon(i8),
}

pub open spec fn is_sign(s: i8) -> bool {
    s == 1 || s == -1
}

/// `z` is `1 / q`.
pub open spec fn recip_of(q: Rat, z: Rat) -> bool {
    &&& q.nv() > 0 ==> z.nv() == q.dv() && z.dv() == q.nv()
    &&& q.nv() < 0 ==> z.nv() == -q.dv() && z.dv() == -q.nv()
}

/// Two rationals with the same numerator and denominator.
pub open spec fn same_rat(a: Rat, b: Rat) -> bool {
    a.nv() == b.nv() && a.dv() == b.dv()
}

/// The value is the Float kind.
pub open spec fn is_float_ok(r: Result<Value, RuntimeError>) -> bool {
    r matches Ok(Value::Float(_))
}

/// The value is the Complex kind.
pub open spec fn is_complex_ok(r: Result<Value, RuntimeError>) -> bool {
    r matches Ok(Value::Complex(..))
}

pub open spec fn is_mismatch(r: Result<Value, RuntimeError>) -> bool {
    r matches Err(RuntimeError::TypeMissmatch { .. })
}

/// The kind tags of a rank, as messages show them.
pub open spec fn kind_tags_text(rank: int) -> Seq<char> {
    if rank == 0 {
        "Number, Integer"@
    } else if rank == 1 {
        "Number, Rational"@
    } else if rank == 2 {
        "Number, Complex"@
    } else if rank == 3 {
        "Number, Float"@
    } else if rank == 4 {
        "Number, Float, Pi"@
    } else if rank == 5 {
        "Number, Infinity"@
    } else if rank == 6 {
        "Number, Epsilon"@
    } else if rank == 7 {
        "Number, Undefined"@
    } else {
        "List"@
    }
}

/// The type mismatch of two operands: a number was expected, and the
/// message names the kinds of both.
pub open spec fn mismatch_of(a: Value, b: Value, r: Result<Value, RuntimeError>) -> bool {
    mismatch_kinds(a.rank(), b.rank(), r)
}

/// The type mismatch of operands of ranks `ra` and `rb`.
pub open spec fn mismatch_kinds(ra: int, rb: int, r: Result<Value, RuntimeError>) -> bool {
    r matches Err(RuntimeError::TypeMissmatch { expected, got }) && expected@ == "Number"@ && got@
        == kind_tags_text(ra) + " and "@ + kind_tags_text(rb)
}

/// The type mismatch of one operand.
pub open spec fn mismatch_one_of(a: Value, r: Result<Value, RuntimeError>) -> bool {
    r matches Err(RuntimeError::TypeMissmatch { expected, got }) && expected@ == "Number"@ && got@
        == kind_tags_text(a.rank())
}

impl Value {
    pub open spec fn wf(self) -> bool
        decreases self,
    {
        match self {
            Value::Integer(n) => n.wf(),
            Value::Rational(q) => q.wf(),
            Value::Complex(..) => true,
            Value::Float(_) => true,
            Value::List(v) => all_wf(v@),
            Value::Infinity(s) => is_sign(s),
            Value::Undefined => true,
            Value::Pi(q, e) => q.wf() && is_sign(e),
            Value::Epsilon(s) => is_sign(s),
        }
    }

    /// Everything but a list takes part in arithmetic.
    pub open spec fn is_number(self) -> bool {
        !(self is List)
    }

    /// The order in which the arithmetic rules look at two operands.
    pub open spec fn rank(self) -> int {
        match self {
            Value::Integer(_) => 0,
            Value::Rational(_) => 1,
            Value::Complex(..) => 2,
            Value::Float(_) => 3,
            Value::Pi(..) => 4,
            Value::Infinity(_) => 5,
            Value::Epsilon(_) => 6,
            Value::Undefined => 7,
            Value::List(_) => 8,
        }
    }

    pub open spec fn is_exact(self) -> bool {
        self is Integer || self is Rational
    }

    /// Numerator of an exact value.
    pub open spec fn en(self) -> int {
        match self {
            Value::Integer(n) => n.val(),
            Value::Rational(q) => q.nv(),
            _ => 0,
        }
    }

    /// Denominator of an exact value.
    pub open spec fn ed(self) -> int {
        match self {
            Value::Rational(q) => q.dv(),
            _ => 1,
        }
    }

    /// Zero, for every kind but Float and Complex (whose digits are not
    /// modelled).
    pub open spec fn zero_spec(self) -> bool {
        match self {
            Value::Integer(n) => n.val() == 0,
            Value::Rational(q) => q.nv() == 0,
            Value::Pi(q, _) => q.nv() == 0,
            _ => false,
        }
    }

    /// The same value: equal exact numbers and symbols, lists of the same
    /// values; the digits of floats are not modelled, so any two floats (and
    /// any two complex numbers) count as the same here.
    pub open spec fn same(self, o: Value) -> bool
        decreases self,
    {
        match (self, o) {
            (Value::Integer(a), Value::Integer(b)) => a.val() == b.val(),
            (Value::Rational(a), Value::Rational(b)) => same_rat(a, b),
            (Value::Complex(..), Value::Complex(..)) => true,
            (Value::Float(_), Value::Float(_)) => true,
            (Value::List(u), Value::List(w)) => same_seq(u@, w@),
            (Value::Infinity(a), Value::Infinity(b)) => a == b,
            (Value::Undefined, Value::Undefined) => true,
            (Value::Pi(a, e), Value::Pi(b, f)) => same_rat(a, b) && e == f,
            (Value::Epsilon(a), Value::Epsilon(b)) => a == b,
            _ => false,
        }
    }
}

/// Every element is well formed.
pub open spec fn all_wf(s: Seq<Value>) -> bool
    decreases s,
{
    s.len() == 0 || (s[0].wf() && all_wf(s.drop_first()))
}

/// Element by element the same values.
pub open spec fn same_seq(s: Seq<Value>, t: Seq<Value>) -> bool
    decreases s,
{
    s.len() == t.len() && (s.len() == 0 || (s[0].same(t[0]) && same_seq(s.drop_first(), t.drop_first())))
}

/// The element type a value gives a list, weakest first.
pub open spec fn tier(v: Value) -> int {
    match v {
        Value::Rational(_) => 1,
        Value::Float(_) | Value::Pi(..) => 2,
        Value::Complex(..) => 3,
        Value::List(_) => 4,
        _ => 0,
    }
}

pub open spec fn tier_name(t: int) -> Seq<char> {
    if t == 0 {
        "Integer"@
    } else if t == 1 {
        "Rational"@
    } else if t == 2 {
        "Float"@
    } else if t == 3 {
        "Complex"@
    } else {
        "List"@
    }
}

/// The strongest element type of a sequence of numbers.
pub open spec fn max_tier(s: Seq<Value>) -> int
    decreases s.len(),
{
    if s.len() == 0 {
        0
    } else {
        let t = max_tier(s.drop_last());
        if tier(s.last()) > t {
            tier(s.last())
        } else {
            t
        }
    }
}

/// Numbers only, or lists only and all of one length.
pub open spec fn list_ok(s: Seq<Value>) -> bool {
    ||| forall|i: int| 0 <= i < s.len() ==> !(#[trigger] s[i] is List)
    ||| (forall|i: int| 0 <= i < s.len() ==> #[trigger] s[i] is List) && forall|i: int|
        0 <= i < s.len() ==> (#[trigger] s[i])->List_0.len() == s[0]->List_0.len()
}

/// Element `j` agrees with the first: both lists of one length, or both not lists.
pub open spec fn agrees(s: Seq<Value>, j: int) -> bool {
    &&& (s[j] is List) == (s[0] is List)
    &&& s[0] is List ==> s[j]->List_0.len() == s[0]->List_0.len()
}

/// Element `k` is the first that does not agree with the first element.
pub open spec fn first_bad(s: Seq<Value>, k: int) -> bool {
    &&& 0 < k < s.len()
    &&& forall|j: int| 0 <= j < k ==> #[trigger] agrees(s, j)
    &&& !agrees(s, k)
}

/// The element type of a consistent list.
pub open spec fn list_type(s: Seq<Value>) -> Seq<char> {
    if s.len() > 0 && s[0] is List {
        "List"@
    } else {
        tier_name(max_tier(s))
    }
}

/// The kind tags of a value: its family first.
pub open spec fn type_tags(v: Value) -> Seq<Seq<char>> {
    match v {
        Value::List(w) => if list_ok(w@) {
            seq!["List"@, list_type(w@)]
        } else {
            seq!["List"@]
        },
        Value::Pi(..) => seq!["Number"@, "Float"@, "Pi"@],
        Value::Infinity(_) => seq!["Number"@, "Infinity"@],
        Value::Epsilon(_) => seq!["Number"@, "Epsilon"@],
        Value::Undefined => seq!["Number"@, "Undefined"@],
        _ => seq!["Number"@, tier_name(tier(v))],
    }
}

/// What negation gives.
pub open spec fn neg_is(a: Value, r: Result<Value, RuntimeError>) -> bool {
    match a {
        Value::Integer(n) => r matches Ok(Value::Integer(z)) && z.val() == -n.val(),
        Value::Rational(q) => r matches Ok(Value::Rational(z)) && z.nv() == -q.nv() && z.dv() == q.dv(),
        Value::Complex(..) => is_complex_ok(r),
        Value::Float(_) => is_float_ok(r),
        Value::Infinity(s) => r == Ok::<Value, RuntimeError>(Value::Infinity((-s) as i8)),
        Value::Epsilon(s) => r == Ok::<Value, RuntimeError>(Value::Epsilon((-s) as i8)),
        Value::Pi(q, e) => r matches Ok(Value::Pi(z, f)) && f == e && z.nv() == -q.nv() && z.dv()
            == q.dv(),
        Value::Undefined | Value::List(_) => mismatch_one_of(a, r),
    }
}

/// What the reciprocal gives.
pub open spec fn recip_is(a: Value, r: Result<Value, RuntimeError>) -> bool {
    match a {
        Value::List(_) | Value::Undefined => mismatch_one_of(a, r),
        Value::Float(_) => r == Err::<Value, RuntimeError>(RuntimeError::DivideByZero) || is_float_ok(r),
        Value::Complex(..) => r == Err::<Value, RuntimeError>(RuntimeError::DivideByZero) || is_complex_ok(r),
        Value::Infinity(s) => r == Ok::<Value, RuntimeError>(Value::Epsilon(s)),
        Value::Epsilon(s) => r == Ok::<Value, RuntimeError>(Value::Infinity(s)),
        _ => if a.zero_spec() {
            r == Err::<Value, RuntimeError>(RuntimeError::DivideByZero)
        } else {
            match a {
                Value::Integer(n) => r matches Ok(Value::Rational(z)) && (n.val() > 0 ==> z.nv() == 1
                    && z.dv() == n.val()) && (n.val() < 0 ==> z.nv() == -1 && z.dv() == -n.val()),
                Value::Rational(q) => r matches Ok(Value::Rational(z)) && recip_of(q, z),
                Value::Pi(q, e) => r matches Ok(Value::Pi(z, f)) && f == -e && recip_of(q, z),
                _ => true,
            }
        },
    }
}

/// What addition gives, the operands taken in rank order.
pub open spec fn sum_ordered(a: Value, b: Value, r: Result<Value, RuntimeError>) -> bool {
    match b {
        Value::Undefined => r == Ok::<Value, RuntimeError>(Value::Undefined),
        Value::Epsilon(t) => match a {
            Value::Epsilon(s) => r == Ok::<Value, RuntimeError>(
                if s == t {
                    Value::Epsilon(s)
                } else {
                    Value::Undefined
                },
            ),
            _ => r == Ok::<Value, RuntimeError>(a),
        },
        Value::Infinity(t) => match a {
            Value::Infinity(s) => r == Ok::<Value, RuntimeError>(
                if s == t {
                    Value::Infinity(s)
                } else {
                    Value::Undefined
                },
            ),
            Value::Complex(..) => r == Ok::<Value, RuntimeError>(Value::Undefined),
            _ => r == Ok::<Value, RuntimeError>(Value::Infinity(t)),
        },
        Value::Pi(q, f) => match a {
            Value::Pi(p, e) => if e == f {
                r matches Ok(Value::Pi(z, g)) && g == e && z.is(
                    p.nv() * q.dv() + q.nv() * p.dv(),
                    p.dv() * q.dv(),
                )
            } else {
                is_float_ok(r)
            },
            Value::Complex(..) => is_complex_ok(r),
            _ => is_float_ok(r),
        },
        Value::Float(_) => match a {
            Value::Complex(..) => is_complex_ok(r),
            _ => is_float_ok(r),
        },
        Value::Complex(..) => is_complex_ok(r),
        Value::Rational(q) => r matches Ok(Value::Rational(z)) && z.is(
            a.en() * q.dv() + q.nv() * a.ed(),
            a.ed() * q.dv(),
        ),
        Value::Integer(m) => r matches Ok(Value::Integer(z)) && z.val() == a.en() + m.val(),
        Value::List(_) => true,
    }
}

/// What addition gives.
pub open spec fn sum_is(a: Value, b: Value, r: Result<Value, RuntimeError>) -> bool {
    if !a.is_number() || !b.is_number() {
        mismatch_of(a, b, r)
    } else if a.rank() <= b.rank() {
        sum_ordered(a, b, r)
    } else {
        sum_ordered(b, a, r)
    }
}

/// The sign of a finite operand that multiplies an infinity.
pub open spec fn sign_of(a: Value) -> int {
    match a {
        Value::Integer(n) => n.val(),
        Value::Rational(q) => q.nv(),
        Value::Pi(q, _) => q.nv(),
        _ => 0,
    }
}

/// What multiplication gives, the operands taken in rank order.
pub open spec fn product_ordered(a: Value, b: Value, r: Result<Value, RuntimeError>) -> bool {
    match b {
        Value::Undefined => r == Ok::<Value, RuntimeError>(Value::Undefined),
        Value::Epsilon(t) => match a {
            Value::Epsilon(s) => r == Ok::<Value, RuntimeError>(Value::Epsilon((s * t) as i8)),
            Value::Infinity(_) => r == Ok::<Value, RuntimeError>(Value::Undefined),
            _ => if t == 1 {
                r == Ok::<Value, RuntimeError>(a)
            } else {
                neg_is(a, r)
            },
        },
        Value::Infinity(t) => match a {
            Value::Infinity(s) => r == Ok::<Value, RuntimeError>(Value::Infinity((s * t) as i8)),
            Value::Complex(..) => r == Ok::<Value, RuntimeError>(Value::Undefined),
            Value::Float(_) => r == Ok::<Value, RuntimeError>(Value::Undefined) || r == Ok::<
                Value,
                RuntimeError,
            >(Value::Infinity(t)) || r == Ok::<Value, RuntimeError>(Value::Infinity((-t) as i8)),
            _ => r == Ok::<Value, RuntimeError>(
                if sign_of(a) > 0 {
                    Value::Infinity(t)
                } else if sign_of(a) < 0 {
                    Value::Infinity((-t) as i8)
                } else {
                    Value::Undefined
                },
            ),
        },
        Value::Pi(q, f) => match a {
            Value::Pi(p, e) => if e != f {
                r matches Ok(Value::Rational(z)) && z.is(p.nv() * q.nv(), p.dv() * q.dv())
            } else {
                is_float_ok(r)
            },
            Value::Complex(..) => is_complex_ok(r),
            _ => is_float_ok(r),
        },
        Value::Float(_) => match a {
            Value::Complex(..) => is_complex_ok(r),
            _ => is_float_ok(r),
        },
        Value::Complex(..) => is_complex_ok(r),
        Value::Rational(q) => r matches Ok(Value::Rational(z)) && z.is(
            a.en() * q.nv(),
            a.ed() * q.dv(),
        ),
        Value::Integer(m) => r matches Ok(Value::Integer(z)) && z.val() == a.en() * m.val(),
        Value::List(_) => true,
    }
}

/// What multiplication gives.
pub open spec fn product_is(a: Value, b: Value, r: Result<Value, RuntimeError>) -> bool {
    if !a.is_number() || !b.is_number() {
        mismatch_of(a, b, r)
    } else if a.rank() <= b.rank() {
        product_ordered(a, b, r)
    } else {
        product_ordered(b, a, r)
    }
}

/// `n` to the integer power `m`.
pub open spec fn pow_int(n: int, m: int, r: Result<Value, RuntimeError>) -> bool {
    if m >= 0 {
        if m <= u32::MAX {
            r matches Ok(Value::Integer(z)) && z.val() == vstd::arithmetic::power::pow(n, m as nat)
        } else {
            r matches Err(RuntimeError::ExponentTooBig(k)) && k.val() == m
        }
    } else if -m <= u32::MAX {
        if n == 0 {
            r == Err::<Value, RuntimeError>(RuntimeError::DivideByZero)
        } else {
            r matches Ok(Value::Rational(z)) && z.is(1, vstd::arithmetic::power::pow(n, (-m) as nat))
        }
    } else {
        r matches Err(RuntimeError::ExponentTooBig(k)) && k.val() == m
    }
}

/// The rational `q` to the integer power `m`.
pub open spec fn pow_rat(q: Rat, m: int, r: Result<Value, RuntimeError>) -> bool {
    if -(u32::MAX as int) <= m <= u32::MAX {
        if m < 0 && q.nv() == 0 {
            r == Err::<Value, RuntimeError>(RuntimeError::DivideByZero)
        } else if m >= 0 {
            r matches Ok(Value::Rational(z)) && z.is(
                vstd::arithmetic::power::pow(q.nv(), m as nat),
                vstd::arithmetic::power::pow(q.dv(), m as nat),
            )
        } else {
            r matches Ok(Value::Rational(z)) && z.is(
                vstd::arithmetic::power::pow(q.dv(), (-m) as nat),
                vstd::arithmetic::power::pow(q.nv(), (-m) as nat),
            )
        }
    } else {
        r matches Err(RuntimeError::ExponentTooBig(k)) && k.val() == m
    }
}

/// A value that is not a list to the integer power `m`.
pub open spec fn pow_by(a: Value, m: int, r: Result<Value, RuntimeError>) -> bool {
    match a {
        Value::Integer(n) => pow_int(n.val(), m, r),
        Value::Rational(q) => pow_rat(q, m, r),
        _ => mismatch_kinds(a.rank(), 0, r),
    }
}

/// What raising to a power gives; a list is raised element by element,
/// and its error is that of an element.
pub open spec fn pow_is(a: Value, b: Value, r: Result<Value, RuntimeError>) -> bool
    decreases a,
{
    match a {
        Value::List(v) => if !b.is_number() {
            mismatch_of(a, b, r)
        } else {
            (r is Ok ==> r->Ok_0 is List) && (r matches Ok(Value::List(w)) ==> pows_all(v@, w@, b)) && (
            r matches Err(e) ==> pows_err(v@, b, e)) && ((b matches Value::Integer(m) && forall|i: int|
                0 <= i < v.len() ==> #[trigger] pow_ok(v[i], m.val())) ==> r is Ok)
        },
        _ => match b {
            Value::Integer(m) => pow_by(a, m.val(), r),
            _ => mismatch_of(a, b, r),
        },
    }
}

/// Each `w[i]` is `v[i]` raised to `b`.
pub open spec fn pows_all(v: Seq<Value>, w: Seq<Value>, b: Value) -> bool
    decreases v,
{
    v.len() == w.len() && (v.len() == 0 || (pow_is(v[0], b, Ok(w[0])) && pows_all(
        v.drop_first(),
        w.drop_first(),
        b,
    )))
}

/// Raising some element of `v` to `b` fails with `e`.
pub open spec fn pows_err(v: Seq<Value>, b: Value, e: RuntimeError) -> bool
    decreases v,
{
    v.len() > 0 && (pow_is(v[0], b, Err(e)) || pows_err(v.drop_first(), b, e))
}

pub proof fn lemma_pows_all(v: Seq<Value>, w: Seq<Value>, b: Value)
    ensures
        pows_all(v, w, b) <==> (v.len() == w.len() && forall|i: int|
            0 <= i < v.len() ==> #[trigger] pow_is(v[i], b, Ok(w[i]))),
    decreases v.len(),
{
    if v.len() > 0 && v.len() == w.len() {
        let (d, e) = (v.drop_first(), w.drop_first());
        lemma_pows_all(d, e, b);
        assert(pows_all(v, w, b) == (pow_is(v[0], b, Ok(w[0])) && pows_all(d, e, b)));
        if forall|i: int| 0 <= i < v.len() ==> #[trigger] pow_is(v[i], b, Ok(w[i])) {
            assert(pow_is(v[0], b, Ok(w[0])));
            assert forall|i: int| 0 <= i < d.len() implies #[trigger] pow_is(d[i], b, Ok(e[i])) by {
                assert(d[i] == v[i + 1] && e[i] == w[i + 1]);
                assert(pow_is(v[i + 1], b, Ok(w[i + 1])));
            }
        }
        if pows_all(v, w, b) {
            assert forall|i: int| 0 <= i < v.len() implies #[trigger] pow_is(v[i], b, Ok(w[i])) by {
                if i > 0 {
                    assert(d[i - 1] == v[i] && e[i - 1] == w[i]);
                    assert(pow_is(d[i - 1], b, Ok(e[i - 1])));
                }
            }
        }
    }
}

pub proof fn lemma_pows_err(v: Seq<Value>, b: Value, e: RuntimeError, i: int)
    requires
        0 <= i < v.len(),
        pow_is(v[i], b, Err(e)),
    ensures
        pows_err(v, b, e),
    decreases i,
{
    if i > 0 {
        assert(v.drop_first()[i - 1] == v[i]);
        lemma_pows_err(v.drop_first(), b, e, i - 1);
    }
}

/// Raising `a` to the integer power `m` succeeds.
pub open spec fn pow_ok(a: Value, m: int) -> bool {
    let zero = match a {
        Value::Integer(n) => n.val() == 0,
        Value::Rational(q) => q.nv() == 0,
        _ => true,
    };
    &&& (a is Integer || a is Rational)
    &&& -(u32::MAX as int) <= m <= u32::MAX
    &&& (m < 0 ==> !zero)
}

/// What the root gives: the power by the negated exponent.
pub open spec fn root_is(a: Value, b: Value, r: Result<Value, RuntimeError>) -> bool {
    if b is List || b is Undefined {
        mismatch_one_of(b, r)
    } else {
        exists|nb: Value| #[trigger] neg_is(b, Ok(nb)) && nb.wf() && pow_is(a, nb, r)
    }
}

/// Relies on `String::push_str`: appends `t` to `s`.
#[verifier::external_body]
fn push_text(s: &mut String, t: &str)
    ensures
        final(s)@ == old(s)@ + t@,
{
    s.push_str(t)
}

/// The kind tags of a rank, as they are shown in messages.
pub fn kind_text(rank: u8) -> (r: &'static str)
    ensures
        r@ == kind_tags_text(rank as int),
{
    if rank == 0 {
        "Number, Integer"
    } else if rank == 1 {
        "Number, Rational"
    } else if rank == 2 {
        "Number, Complex"
    } else if rank == 3 {
        "Number, Float"
    } else if rank == 4 {
        "Number, Float, Pi"
    } else if rank == 5 {
        "Number, Infinity"
    } else if rank == 6 {
        "Number, Epsilon"
    } else if rank == 7 {
        "Number, Undefined"
    } else {
        "List"
    }
}

/// A type mismatch between operands of the two ranks.
fn mismatch(a: u8, b: u8) -> (r: RuntimeError)
    ensures
        r is TypeMissmatch,
        r->TypeMissmatch_expected@ == "Number"@,
        r->TypeMissmatch_got@ == kind_tags_text(a as int) + " and "@ + kind_tags_text(b as int),
{
    let mut got = kind_text(a).to_owned();
    push_text(&mut got, " and ");
    push_text(&mut got, kind_text(b));
    RuntimeError::TypeMissmatch { expected: "Number".to_owned(), got }
}

/// A type mismatch on one operand.
fn mismatch1(a: u8) -> (r: RuntimeError)
    ensures
        r is TypeMissmatch,
        r->TypeMissmatch_expected@ == "Number"@,
        r->TypeMissmatch_got@ == kind_tags_text(a as int),
{
    RuntimeError::TypeMissmatch { expected: "Number".to_owned(), got: kind_text(a).to_owned() }
}

/// The exact value as a rational.
fn exact_rat(a: Value) -> (r: Rat)
    requires
        a.wf(),
        a.is_exact(),
    ensures
        r.wf(),
        r.nv() == a.en(),
        r.dv() == a.ed(),
{
    match a {
        Value::Integer(n) => Rat::from_int(n),
        Value::Rational(q) => q,
        _ => Rat::from_int(Int::zero()),
    }
}

/// A rational rounded to a float.
pub(crate) fn rat_float(q: &Rat) -> BigFloat {
    let n = float_of_int(&q.num, FLOAT_PRECISION);
    let d = float_of_int(&q.den, FLOAT_PRECISION);
    float_div(&n, &d, FLOAT_PRECISION)
}

/// `q` times pi, or `q` over pi.
pub(crate) fn pi_float(q: &Rat, e: i8) -> BigFloat {
    let c = rat_float(q);
    let pi = float_pi(FLOAT_PRECISION);
    if e == 1 {
        float_mul(&c, &pi, FLOAT_PRECISION)
    } else {
        float_div(&c, &pi, FLOAT_PRECISION)
    }
}

/// An integer, rational, float or pi-multiple as a float.
pub(crate) fn approx(a: &Value) -> BigFloat {
    match a {
        Value::Integer(n) => float_of_int(n, FLOAT_PRECISION),
        Value::Rational(q) => rat_float(q),
        Value::Float(x) => x.clone(),
        Value::Pi(q, e) => pi_float(q, *e),
        _ => float_of_int(&Int::zero(), FLOAT_PRECISION),
    }
}

impl Value {
    pub fn rank_of(&self) -> (r: u8)
        ensures
            r == self.rank(),
    {
        match self {
            Value::Integer(_) => 0,
            Value::Rational(_) => 1,
            Value::Complex(..) => 2,
            Value::Float(_) => 3,
            Value::Pi(..) => 4,
            Value::Infinity(_) => 5,
            Value::Epsilon(_) => 6,
            Value::Undefined => 7,
            Value::List(_) => 8,
        }
    }

    /// A deep copy.
    pub fn copy(&self) -> (r: Value)
        ensures
            r.same(*self),
            self.wf() ==> r.wf(),
        decreases self,
    {
        let r = match self {
            Value::Integer(n) => Value::Integer(n.copy()),
            Value::Rational(q) => Value::Rational(q.copy()),
            Value::Complex(a, b) => Value::Complex(a.clone(), b.clone()),
            Value::Float(x) => Value::Float(x.clone()),
            Value::List(v) => {
                let w = copy_list(v);
                let ghost vv: Vec<Value> = *v;
                proof {
                    lemma_same_seq(w@, vv@);
                    lemma_all_wf(w@);
                    lemma_all_wf(vv@);
                }
                assert(forall|j: int| 0 <= j < w.len() ==> #[trigger] w[j].same(vv[j]));
                assert((forall|j: int| 0 <= j < vv.len() ==> #[trigger] vv[j].wf()) ==> forall|j: int|
                    0 <= j < w.len() ==> #[trigger] w[j].wf());
                Value::List(w)
            },
            Value::Infinity(s) => Value::Infinity(*s),
            Value::Undefined => Value::Undefined,
            Value::Pi(q, e) => Value::Pi(q.copy(), *e),
            Value::Epsilon(s) => Value::Epsilon(*s),
        };
        assert(self is Integer ==> r.same(*self));
        assert(self is Rational ==> r.same(*self));
        assert(self is Complex ==> r.same(*self));
        assert(self is Float ==> r.same(*self));
        assert(self is List ==> r.same(*self));
        assert(self is Pi ==> r.same(*self));
        r
    }

    /// Zero; a list is not zero.
    pub fn is_zero(&self) -> (r: bool)
        requires
            self.wf(),
        ensures
            !(self is Float) && !(self is Complex) ==> r == self.zero_spec(),
    {
        match self {
            Value::Integer(n) => n.is_zero(),
            Value::Rational(q) => q.is_zero(),
            Value::Complex(a, b) => float_is_zero(a) && float_is_zero(b),
            Value::Float(x) => float_is_zero(x),
            Value::Pi(q, _) => q.is_zero(),
            _ => false,
        }
    }

    pub fn neg(self) -> (r: Result<Value, RuntimeError>)
        requires
            self.wf(),
        ensures
            neg_is(self, r),
            r matches Ok(v) ==> v.wf(),
    {
        match self {
            Value::Integer(n) => Ok(Value::Integer(n.negate())),
            Value::Rational(q) => Ok(Value::Rational(q.negate())),
            Value::Complex(a, b) => Ok(Value::Complex(float_neg(&a), float_neg(&b))),
            Value::Float(x) => Ok(Value::Float(float_neg(&x))),
            Value::Infinity(s) => Ok(Value::Infinity((-s) as i8)),
            Value::Epsilon(s) => Ok(Value::Epsilon((-s) as i8)),
            Value::Pi(q, e) => Ok(Value::Pi(q.negate(), e)),
            Value::Undefined => Err(mismatch1(7)),
            Value::List(_) => Err(mismatch1(8)),
        }
    }

    pub fn reciprocal(self) -> (r: Result<Value, RuntimeError>)
        requires
            self.wf(),
        ensures
            recip_is(self, r),
            r matches Ok(v) ==> v.wf(),
    {
        let k = self.rank_of();
        if k >= 7 {
            return Err(mismatch1(k));
        }
        if self.is_zero() {
            return Err(RuntimeError::DivideByZero);
        }
        match self {
            Value::Integer(n) => Ok(Value::Rational(Rat::from_int(n).recip())),
            Value::Rational(q) => Ok(Value::Rational(q.recip())),
            Value::Complex(a, b) => {
                let aa = float_mul(&a, &a, FLOAT_PRECISION);
                let bb = float_mul(&b, &b, FLOAT_PRECISION);
                let m = float_add(&aa, &bb, FLOAT_PRECISION);
                let re = float_div(&a, &m, FLOAT_PRECISION);
                let im = float_div(&float_neg(&b), &m, FLOAT_PRECISION);
                Ok(Value::Complex(re, im))
            },
            Value::Float(x) => {
                let one = float_of_int(&Int::from_u64(1), FLOAT_PRECISION);
                Ok(Value::Float(float_div(&one, &x, FLOAT_PRECISION)))
            },
            Value::Infinity(s) => Ok(Value::Epsilon(s)),
            Value::Epsilon(s) => Ok(Value::Infinity(s)),
            Value::Pi(q, e) => Ok(Value::Pi(q.recip(), -e)),
            _ => Ok(Value::Undefined),
        }
    }

    /// Raises to a power; a list is raised element by element.
    pub fn pow(&self, rhs: &Value) -> (r: Result<Value, RuntimeError>)
        requires
            self.wf(),
            rhs.wf(),
        ensures
            pow_is(*self, *rhs, r),
            r matches Ok(v) ==> v.wf(),
        decreases self,
    {
        let ka = self.rank_of();
        let kb = rhs.rank_of();
        match self {
            Value::List(v) => {
                if kb == 8 {
                    return Err(mismatch(ka, kb));
                }
                let mut w: Vec<Value> = Vec::new();
                let mut i: usize = 0;
                while i < v.len()
                    invariant
                        *self == Value::List(*v),
                        self.wf(),
                        rhs.wf(),
                        rhs.is_number(),
                        i <= v.len(),
                        w.len() == i,
                        forall|j: int| 0 <= j < i ==> #[trigger] w[j].wf(),
                        forall|j: int| 0 <= j < i ==> #[trigger] pow_is(v[j], *rhs, Ok(w[j])),
                    decreases v.len() - i,
                {
                    proof {
                        assert(decreases_to!(*v => v[i as int]));
                        lemma_all_wf(v@);
                    }
                    match v[i].pow(rhs) {
                        Ok(x) => w.push(x),
                        Err(e) => {
                            proof {
                                assert(!(rhs is Integer && pow_ok(v[i as int], rhs->Integer_0.val())));
                                lemma_pows_err(v@, *rhs, e, i as int);
                            }
                            return Err(e);
                        },
                    }
                    i += 1;
                }
                proof {
                    lemma_all_wf(w@);
                    lemma_pows_all(v@, w@, *rhs);
                }
                Ok(Value::List(w))
            },
            _ => match rhs {
                Value::Integer(m) => pow_by_int(self, m),
                _ => Err(mismatch(ka, kb)),
            },
        }
    }

    /// The power by the negated exponent.
    pub fn root(&self, rhs: &Value) -> (r: Result<Value, RuntimeError>)
        requires
            self.wf(),
            rhs.wf(),
        ensures
            root_is(*self, *rhs, r),
            r matches Ok(v) ==> v.wf(),
    {
        let c = rhs.copy();
        proof {
            assert(c.rank() == rhs.rank());
        }
        match c.neg() {
            Ok(e) => {
                proof {
                    assert(neg_is(*rhs, Ok(e)));
                }
                self.pow(&e)
            },
            Err(err) => Err(err),
        }
    }

    /// The element type of a list, or why its elements do not agree.
    pub fn validate_list(&self) -> (r: Result<String, RuntimeError>)
        ensures
            self matches Value::List(v) ==> (r is Ok <==> list_ok(v@)) && (r matches Ok(t) ==> t@
                == list_type(v@)) && (r matches Err(e) ==> (e is ListTypeMissmatch
                || e is ListElementSizeMissmatch)),
            self matches Value::List(v) ==> (r matches Err(RuntimeError::ListTypeMissmatch {
                first,
                second,
            }) ==> exists|k: int|
                #[trigger] first_bad(v@, k) && (v[k] is List) != (v[0] is List) && first@ == tier_name(
                    tier(v[0]),
                ) && second@ == tier_name(tier(v[k]))),
            self matches Value::List(v) ==> (r matches Err(RuntimeError::ListElementSizeMissmatch {
                first,
                second,
            }) ==> exists|k: int|
                #[trigger] first_bad(v@, k) && v[k] is List && v[0] is List && first
                    == v[0]->List_0.len() && second == v[k]->List_0.len()),
            !(self is List) ==> (r matches Ok(t) && t@ == "Integer"@),
    {
        match self {
            Value::List(v) => {
                if v.len() == 0 {
                    return Ok("Integer".to_owned());
                }
                let lists = v[0].rank_of() == 8;
                let mut best: u8 = 0;
                let mut i: usize = 0;
                while i < v.len()
                    invariant
                        *self == Value::List(*v),
                        v.len() > 0,
                        lists == (v[0] is List),
                        i <= v.len(),
                        best == max_tier(v@.take(i as int)),
                        forall|j: int| 0 <= j < i ==> (#[trigger] v[j] is List) == lists,
                        lists ==> forall|j: int|
                            0 <= j < i ==> (#[trigger] v[j])->List_0.len() == v[0]->List_0.len(),
                    decreases v.len() - i,
                {
                    let k = v[i].rank_of();
                    if (k == 8) != lists {
                        proof {
                            assert forall|j: int| 0 <= j < i implies #[trigger] agrees(v@, j) by {}
                            assert(first_bad(v@, i as int));
                        }
                        return Err(
                            RuntimeError::ListTypeMissmatch {
                                first: tier_text(&v[0]).to_owned(),
                                second: tier_text(&v[i]).to_owned(),
                            },
                        );
                    }
                    match (&v[0], &v[i]) {
                        (Value::List(a), Value::List(b)) => {
                            if a.len() != b.len() {
                                proof {
                                    assert forall|j: int| 0 <= j < i implies #[trigger] agrees(v@, j) by {}
                                    assert(first_bad(v@, i as int));
                                }
                                return Err(
                                    RuntimeError::ListElementSizeMissmatch {
                                        first: a.len(),
                                        second: b.len(),
                                    },
                                );
                            }
                        },
                        _ => {},
                    }
                    let t = tier_of(&v[i]);
                    proof {
                        assert(v@.take(i as int + 1).drop_last() =~= v@.take(i as int));
                    }
                    if t > best {
                        best = t;
                    }
                    i += 1;
                }
                proof {
                    assert(v@.take(i as int) =~= v@);
                }
                if lists {
                    Ok("List".to_owned())
                } else {
                    Ok(tier_name_text(best).to_owned())
                }
            },
            _ => Ok("Integer".to_owned()),
        }
    }

    /// The kind tags, as shown in messages.
    pub fn types(&self) -> (r: Vec<String>)
        ensures
            r.len() == type_tags(*self).len(),
            forall|i: int| 0 <= i < r.len() ==> #[trigger] r[i]@ == type_tags(*self)[i],
    {
        let mut r: Vec<String> = Vec::new();
        match self {
            Value::List(_) => {
                r.push("List".to_owned());
                match self.validate_list() {
                    Ok(t) => r.push(t),
                    Err(_) => {},
                }
            },
            Value::Pi(..) => {
                r.push("Number".to_owned());
                r.push("Float".to_owned());
                r.push("Pi".to_owned());
            },
            Value::Infinity(_) => {
                r.push("Number".to_owned());
                r.push("Infinity".to_owned());
            },
            Value::Epsilon(_) => {
                r.push("Number".to_owned());
                r.push("Epsilon".to_owned());
            },
            Value::Undefined => {
                r.push("Number".to_owned());
                r.push("Undefined".to_owned());
            },
            _ => {
                r.push("Number".to_owned());
                r.push(tier_text(self).to_owned());
            },
        }
        r
    }

    /// Addition under the promotion rules.
    pub fn add(self, rhs: Value) -> (r: Result<Value, RuntimeError>)
        requires
            self.wf(),
            rhs.wf(),
        ensures
            sum_is(self, rhs, r),
            r matches Ok(v) ==> v.wf(),
    {
        let ka = self.rank_of();
        let kb = rhs.rank_of();
        if ka == 8 || kb == 8 {
            return Err(mismatch(ka, kb));
        }
        if ka <= kb {
            add_ordered(self, rhs)
        } else {
            add_ordered(rhs, self)
        }
    }

    /// Multiplication under the promotion rules.
    pub fn mul(self, rhs: Value) -> (r: Result<Value, RuntimeError>)
        requires
            self.wf(),
            rhs.wf(),
        ensures
            product_is(self, rhs, r),
            r matches Ok(v) ==> v.wf(),
    {
        let ka = self.rank_of();
        let kb = rhs.rank_of();
        if ka == 8 || kb == 8 {
            return Err(mismatch(ka, kb));
        }
        if ka <= kb {
            mul_ordered(self, rhs)
        } else {
            mul_ordered(rhs, self)
        }
    }
}

fn pow_by_int(a: &Value, m: &Int) -> (r: Result<Value, RuntimeError>)
    requires
        a.wf(),
        m.wf(),
        !(a is List),
    ensures
        pow_by(*a, m.val(), r),
        r matches Ok(v) ==> v.wf(),
{
    match a {
        Value::Integer(n) => {
            if m.is_negative() {
                match m.copy().negate().to_u32() {
                    None => Err(RuntimeError::ExponentTooBig(m.copy())),
                    Some(k) => {
                        if n.is_zero() {
                            Err(RuntimeError::DivideByZero)
                        } else {
                            let p = num::int_pow(n, k);
                            proof {
                                num::lemma_pow_nonzero(n.val(), k as nat);
                            }
                            Ok(Value::Rational(Rat::new(&Int::from_u64(1), &p)))
                        }
                    },
                }
            } else {
                match m.to_u32() {
                    None => Err(RuntimeError::ExponentTooBig(m.copy())),
                    Some(k) => Ok(Value::Integer(num::int_pow(n, k))),
                }
            }
        },
        Value::Rational(q) => {
            let e: Option<i64> = if m.is_negative() {
                match m.copy().negate().to_u32() {
                    Some(k) => Some(-(k as i64)),
                    None => None,
                }
            } else {
                match m.to_u32() {
                    Some(k) => Some(k as i64),
                    None => None,
                }
            };
            match e {
                None => Err(RuntimeError::ExponentTooBig(m.copy())),
                Some(e) => {
                    if e < 0 && q.is_zero() {
                        Err(RuntimeError::DivideByZero)
                    } else {
                        match q.pow(e) {
                            Some(z) => Ok(Value::Rational(z)),
                            None => Err(RuntimeError::ExponentTooBig(m.copy())),
                        }
                    }
                },
            }
        },
        _ => Err(mismatch(a.rank_of(), 0)),
    }
}

fn tier_of(v: &Value) -> (r: u8)
    ensures
        r == tier(*v),
{
    match v {
        Value::Rational(_) => 1,
        Value::Float(_) | Value::Pi(..) => 2,
        Value::Complex(..) => 3,
        Value::List(_) => 4,
        _ => 0,
    }
}

fn tier_name_text(t: u8) -> (r: &'static str)
    ensures
        r@ == tier_name(t as int),
{
    if t == 0 {
        "Integer"
    } else if t == 1 {
        "Rational"
    } else if t == 2 {
        "Float"
    } else if t == 3 {
        "Complex"
    } else {
        "List"
    }
}

fn tier_text(v: &Value) -> (r: &'static str)
    ensures
        r@ == tier_name(tier(*v)),
{
    tier_name_text(tier_of(v))
}

fn add_ordered(a: Value, b: Value) -> (r: Result<Value, RuntimeError>)
    requires
        a.wf(),
        b.wf(),
        a.is_number(),
        b.is_number(),
        a.rank() <= b.rank(),
    ensures
        sum_ordered(a, b, r),
        r matches Ok(v) ==> v.wf(),
{
    let ka = a.rank_of();
    let kb = b.rank_of();
    match b {
        Value::Undefined => Ok(Value::Undefined),
        Value::Epsilon(t) => match a {
            Value::Epsilon(s) => Ok(
                if s == t {
                    Value::Epsilon(s)
                } else {
                    Value::Undefined
                },
            ),
            _ => Ok(a),
        },
        Value::Infinity(t) => match a {
            Value::Infinity(s) => Ok(
                if s == t {
                    Value::Infinity(s)
                } else {
                    Value::Undefined
                },
            ),
            Value::Complex(..) => Ok(Value::Undefined),
            _ => Ok(Value::Infinity(t)),
        },
        Value::Pi(q, f) => match a {
            Value::Pi(p, e) => {
                if e == f {
                    Ok(Value::Pi(p.add(&q), e))
                } else {
                    let x = pi_float(&p, e);
                    let y = pi_float(&q, f);
                    Ok(Value::Float(float_add(&x, &y, FLOAT_PRECISION)))
                }
            },
            Value::Complex(x, y) => {
                let p = pi_float(&q, f);
                Ok(Value::Complex(float_add(&x, &p, FLOAT_PRECISION), y))
            },
            _ => {
                let x = approx(&a);
                let y = pi_float(&q, f);
                Ok(Value::Float(float_add(&x, &y, FLOAT_PRECISION)))
            },
        },
        Value::Float(y) => match a {
            Value::Complex(x, yi) => Ok(Value::Complex(float_add(&x, &y, FLOAT_PRECISION), yi)),
            _ => {
                let x = approx(&a);
                Ok(Value::Float(float_add(&x, &y, FLOAT_PRECISION)))
            },
        },
        Value::Complex(c, d) => match a {
            Value::Complex(x, y) => Ok(
                Value::Complex(float_add(&x, &c, FLOAT_PRECISION), float_add(&y, &d, FLOAT_PRECISION)),
            ),
            _ => {
                let x = approx(&a);
                Ok(Value::Complex(float_add(&x, &c, FLOAT_PRECISION), d))
            },
        },
        Value::Rational(q) => {
            let x = exact_rat(a);
            Ok(Value::Rational(x.add(&q)))
        },
        Value::Integer(m) => match a {
            Value::Integer(n) => Ok(Value::Integer(int_add(&n, &m))),
            _ => Ok(Value::Undefined),
        },
        Value::List(_) => Ok(Value::Undefined),
    }
}

/// `a` times the sign `t`.
fn signed(a: Value, t: i8) -> (r: Result<Value, RuntimeError>)
    requires
        a.wf(),
        is_sign(t),
    ensures
        t == 1 ==> r == Ok::<Value, RuntimeError>(a),
        t == -1 ==> neg_is(a, r),
        r matches Ok(v) ==> v.wf(),
{
    if t == 1 {
        Ok(a)
    } else {
        a.neg()
    }
}

fn mul_ordered(a: Value, b: Value) -> (r: Result<Value, RuntimeError>)
    requires
        a.wf(),
        b.wf(),
        a.is_number(),
        b.is_number(),
        a.rank() <= b.rank(),
    ensures
        product_ordered(a, b, r),
        r matches Ok(v) ==> v.wf(),
{
    let ka = a.rank_of();
    let kb = b.rank_of();
    match b {
        Value::Undefined => Ok(Value::Undefined),
        Value::Epsilon(t) => match a {
            Value::Epsilon(s) => Ok(Value::Epsilon(s * t)),
            Value::Infinity(_) => Ok(Value::Undefined),
            _ => signed(a, t),
        },
        Value::Infinity(t) => match a {
            Value::Infinity(s) => Ok(Value::Infinity(s * t)),
            Value::Complex(..) => Ok(Value::Undefined),
            Value::Float(x) => {
                if float_is_zero(&x) {
                    Ok(Value::Undefined)
                } else if float_is_negative(&x) {
                    Ok(Value::Infinity(-t))
                } else {
                    Ok(Value::Infinity(t))
                }
            },
            _ => {
                let (pos, negative) = match a {
                    Value::Integer(n) => (n.is_positive(), n.is_negative()),
                    Value::Rational(q) => (q.is_positive(), q.is_negative()),
                    Value::Pi(q, _) => (q.is_positive(), q.is_negative()),
                    _ => (false, false),
                };
                if pos {
                    Ok(Value::Infinity(t))
                } else if negative {
                    Ok(Value::Infinity(-t))
                } else {
                    Ok(Value::Undefined)
                }
            },
        },
        Value::Pi(q, f) => match a {
            Value::Pi(p, e) => {
                if e != f {
                    Ok(Value::Rational(p.mul(&q)))
                } else {
                    let x = pi_float(&p, e);
                    let y = pi_float(&q, f);
                    Ok(Value::Float(float_mul(&x, &y, FLOAT_PRECISION)))
                }
            },
            Value::Complex(x, y) => {
                let p = pi_float(&q, f);
                Ok(Value::Complex(float_mul(&x, &p, FLOAT_PRECISION), float_mul(&y, &p, FLOAT_PRECISION)))
            },
            _ => {
                let x = approx(&a);
                let y = pi_float(&q, f);
                Ok(Value::Float(float_mul(&x, &y, FLOAT_PRECISION)))
            },
        },
        Value::Float(y) => match a {
            Value::Complex(x, yi) => Ok(
                Value::Complex(float_mul(&x, &y, FLOAT_PRECISION), float_mul(&yi, &y, FLOAT_PRECISION)),
            ),
            _ => {
                let x = approx(&a);
                Ok(Value::Float(float_mul(&x, &y, FLOAT_PRECISION)))
            },
        },
        Value::Complex(c, d) => match a {
            Value::Complex(x, y) => {
                let xc = float_mul(&x, &c, FLOAT_PRECISION);
                let yd = float_mul(&y, &d, FLOAT_PRECISION);
                let xd = float_mul(&x, &d, FLOAT_PRECISION);
                let yc = float_mul(&y, &c, FLOAT_PRECISION);
                Ok(
                    Value::Complex(
                        float_add(&xc, &float_neg(&yd), FLOAT_PRECISION),
                        float_add(&xd, &yc, FLOAT_PRECISION),
                    ),
                )
            },
            _ => {
                let x = approx(&a);
                Ok(Value::Complex(float_mul(&x, &c, FLOAT_PRECISION), float_mul(&x, &d, FLOAT_PRECISION)))
            },
        },
        Value::Rational(q) => {
            let x = exact_rat(a);
            Ok(Value::Rational(x.mul(&q)))
        },
        Value::Integer(m) => match a {
            Value::Integer(n) => Ok(Value::Integer(int_mul(&n, &m))),
            _ => Ok(Value::Undefined),
        },
        Value::List(_) => Ok(Value::Undefined),
    }
}

/// Deep copies of the elements.
pub fn copy_list(v: &Vec<Value>) -> (w: Vec<Value>)
    ensures
        w.len() == v.len(),
        forall|j: int| 0 <= j < v.len() ==> #[trigger] w[j].same(v[j]),
        (forall|j: int| 0 <= j < v.len() ==> #[trigger] v[j].wf()) ==> forall|j: int|
            0 <= j < v.len() ==> #[trigger] w[j].wf(),
    decreases v,
{
    let mut w: Vec<Value> = Vec::new();
    let mut i: usize = 0;
    while i < v.len()
        invariant
            i <= v.len(),
            w.len() == i,
            forall|j: int| 0 <= j < i ==> #[trigger] w[j].same(v[j]),
            (forall|j: int| 0 <= j < v.len() ==> #[trigger] v[j].wf()) ==> forall|j: int|
                0 <= j < i ==> #[trigger] w[j].wf(),
        decreases v.len() - i,
    {
        proof {
            assert(decreases_to!(*v => v[i as int]));
        }
        let c = v[i].copy();
        w.push(c);
        i += 1;
    }
    w
}

pub proof fn lemma_all_wf(s: Seq<Value>)
    ensures
        all_wf(s) <==> forall|i: int| 0 <= i < s.len() ==> #[trigger] s[i].wf(),
    decreases s.len(),
{
    if s.len() > 0 {
        let d = s.drop_first();
        lemma_all_wf(d);
        assert(all_wf(s) == (s[0].wf() && all_wf(d)));
        assert forall|i: int| 0 <= i < d.len() implies #[trigger] d[i] == s[i + 1] by {}
        if forall|i: int| 0 <= i < s.len() ==> #[trigger] s[i].wf() {
            assert(s[0].wf());
            assert forall|i: int| 0 <= i < d.len() implies #[trigger] d[i].wf() by {
                assert(s[i + 1].wf());
            }
            assert(all_wf(d));
        }
        if all_wf(s) {
            assert forall|i: int| 0 <= i < s.len() implies #[trigger] s[i].wf() by {
                if i > 0 {
                    assert(d[i - 1] == s[i]);
                    assert(d[i - 1].wf());
                }
            }
        }
    }
}

pub proof fn lemma_same_seq(s: Seq<Value>, t: Seq<Value>)
    ensures
        same_seq(s, t) <==> (s.len() == t.len() && forall|i: int|
            0 <= i < s.len() ==> #[trigger] s[i].same(t[i])),
    decreases s.len(),
{
    if s.len() > 0 && s.len() == t.len() {
        let d = s.drop_first();
        let e = t.drop_first();
        lemma_same_seq(d, e);
        assert(same_seq(s, t) == (s[0].same(t[0]) && same_seq(d, e)));
        if forall|i: int| 0 <= i < s.len() ==> #[trigger] s[i].same(t[i]) {
            assert(s[0].same(t[0]));
            assert forall|i: int| 0 <= i < d.len() implies #[trigger] d[i].same(e[i]) by {
                assert(d[i] == s[i + 1] && e[i] == t[i + 1]);
                assert(s[i + 1].same(t[i + 1]));
            }
        }
        if same_seq(s, t) {
            assert forall|i: int| 0 <= i < s.len() implies #[trigger] s[i].same(t[i]) by {
                if i > 0 {
                    assert(d[i - 1] == s[i] && e[i - 1] == t[i]);
                    assert(d[i - 1].same(e[i - 1]));
                }
            }
        }
    }
}


} // verus!
