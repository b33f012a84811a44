//! Exact numbers: arbitrary-precision integers and rationals held as plain
//! values (a sign and base 2^32 limbs), with the arithmetic itself done by
//! `num-bigint` and `num-rational`.
use num_bigint::{BigInt, Sign};
use num_rational::BigRational;
use num_traits::Pow;
use vstd::prelude::*;

verus! {

/// The base of a limb.
pub open spec fn limb_base() -> nat {
    4294967296
}

/// The magnitude that little-endian base 2^32 limbs stand for.
pub open spec fn mag_val(s: Seq<u32>) -> nat
    decreases s.len(),
{
    if s.len() == 0 {
        0
    } else {
        s[0] as nat + limb_base() * mag_val(s.drop_first())
    }
}

pub open spec fn abs(x: int) -> int {
    if x < 0 {
        -x
    } else {
        x
    }
}

/// `a` and `b` (both non-negative) share no divisor above one.
pub open spec fn coprime(a: int, b: int) -> bool {
    forall|k: int| #![trigger a % k] #![trigger b % k] k > 1 ==> !(a % k == 0 && b % k == 0)
}

/// An exact integer of any size.
#[derive(Debug, Clone, PartialEq, Eq, Hash)]
pub struct Int {
    pub neg: bool,
    pub mag: Vec<u32>,
}

/// An exact rational number, kept in lowest terms with a positive denominator.
#[derive(Debug, Clone, PartialEq, Eq, Hash)]
pub struct Rat {
    pub num: Int,
    pub den: Int,
}

proof fn lemma_mag_pos(s: Seq<u32>)
    requires
        s.len() > 0,
        s.last() != 0,
    ensures
        mag_val(s) >= 1,
    decreases s.len(),
{
    if s.len() > 1 {
        assert(s.drop_first().last() == s.last());
        lemma_mag_pos(s.drop_first());
    }
}

proof fn lemma_mag_big(s: Seq<u32>)
    requires
        s.len() > 1,
        s.last() != 0,
    ensures
        mag_val(s) >= limb_base(),
{
    assert(s.drop_first().last() == s.last());
    lemma_mag_pos(s.drop_first());
}

proof fn lemma_mag_bigger(s: Seq<u32>)
    requires
        s.len() > 2,
        s.last() != 0,
    ensures
        mag_val(s) >= limb_base() * limb_base(),
{
    assert(s.drop_first().last() == s.last());
    lemma_mag_big(s.drop_first());
    assert(mag_val(s) >= limb_base() * mag_val(s.drop_first())) by (nonlinear_arith)
        requires
            mag_val(s) == s[0] as nat + limb_base() * mag_val(s.drop_first()),
    ;
    assert(limb_base() * mag_val(s.drop_first()) >= limb_base() * limb_base()) by (nonlinear_arith)
        requires
            mag_val(s.drop_first()) >= limb_base(),
    ;
}

impl Int {
    /// Limbs without a trailing zero, and no sign on zero.
    pub open spec fn wf(&self) -> bool {
        &&& (self.mag@.len() > 0 ==> self.mag@.last() != 0)
        &&& (self.neg ==> self.mag@.len() > 0)
    }

    pub open spec fn val(&self) -> int {
        if self.neg {
            -(mag_val(self.mag@) as int)
        } else {
            mag_val(self.mag@) as int
        }
    }

    pub proof fn lemma_zero_iff(&self)
        requires
            self.wf(),
        ensures
            (self.val() == 0) == (self.mag@.len() == 0),
            self.val() < 0 <==> self.neg,
    {
        if self.mag@.len() > 0 {
            lemma_mag_pos(self.mag@);
        }
    }

    pub fn zero() -> (r: Int)
        ensures
            r.wf(),
            r.val() == 0,
    {
        Int { neg: false, mag: Vec::new() }
    }

    pub fn from_u64(n: u64) -> (r: Int)
        ensures
            r.wf(),
            r.val() == n,
    {
        let mut mag: Vec<u32> = Vec::new();
        if n == 0 {
        } else if n < 4294967296 {
            mag.push(n as u32);
            proof {
                reveal_with_fuel(mag_val, 2);
            }
        } else {
            let lo = (n % 4294967296) as u32;
            let hi = (n / 4294967296) as u32;
            mag.push(lo);
            mag.push(hi);
            proof {
                reveal_with_fuel(mag_val, 3);
                assert(mag@.drop_first().drop_first().len() == 0);
                assert(mag@.drop_first()[0] == hi);
            }
        }
        Int { neg: false, mag }
    }

    pub fn from_i64(n: i64) -> (r: Int)
        ensures
            r.wf(),
            r.val() == n,
    {
        if n < 0 {
            let m: u64 = (-(n as i128)) as u64;
            Int::from_u64(m).negate()
        } else {
            Int::from_u64(n as u64)
        }
    }

    pub fn copy(&self) -> (r: Int)
        ensures
            r.neg == self.neg,
            r.mag@ == self.mag@,
            r.val() == self.val(),
            self.wf() ==> r.wf(),
    {
        Int { neg: self.neg, mag: self.mag.clone() }
    }

    pub fn is_zero(&self) -> (r: bool)
        requires
            self.wf(),
        ensures
            r == (self.val() == 0),
    {
        proof {
            self.lemma_zero_iff();
        }
        self.mag.len() == 0
    }

    pub fn is_negative(&self) -> (r: bool)
        requires
            self.wf(),
        ensures
            r == (self.val() < 0),
    {
        proof {
            self.lemma_zero_iff();
        }
        self.neg
    }

    pub fn is_positive(&self) -> (r: bool)
        requires
            self.wf(),
        ensures
            r == (self.val() > 0),
    {
        proof {
            self.lemma_zero_iff();
        }
        !self.neg && self.mag.len() > 0
    }

    pub fn negate(self) -> (r: Int)
        requires
            self.wf(),
        ensures
            r.wf(),
            r.val() == -self.val(),
    {
        let neg = if self.mag.len() == 0 {
            false
        } else {
            !self.neg
        };
        Int { neg, mag: self.mag }
    }

    pub fn abs(self) -> (r: Int)
        requires
            self.wf(),
        ensures
            r.wf(),
            r.val() == abs(self.val()),
    {
        proof {
            self.lemma_zero_iff();
        }
        Int { neg: false, mag: self.mag }
    }

    /// The value as a `u32`, where it fits.
    pub fn to_u32(&self) -> (r: Option<u32>)
        requires
            self.wf(),
        ensures
            r is Some <==> 0 <= self.val() <= u32::MAX,
            r matches Some(x) ==> x == self.val(),
    {
        proof {
            reveal_with_fuel(mag_val, 2);
            if self.mag@.len() > 1 {
                lemma_mag_big(self.mag@);
            }
        }
        if self.neg || self.mag.len() > 1 {
            None
        } else if self.mag.len() == 0 {
            Some(0)
        } else {
            Some(self.mag[0])
        }
    }

    /// The value as a `u64`, where it fits.
    pub fn to_u64(&self) -> (r: Option<u64>)
        requires
            self.wf(),
        ensures
            r is Some <==> 0 <= self.val() <= u64::MAX,
            r matches Some(x) ==> x == self.val(),
    {
        proof {
            reveal_with_fuel(mag_val, 3);
            if self.mag@.len() > 2 {
                lemma_mag_bigger(self.mag@);
            }
        }
        if self.neg || self.mag.len() > 2 {
            None
        } else if self.mag.len() == 0 {
            Some(0)
        } else if self.mag.len() == 1 {
            Some(self.mag[0] as u64)
        } else {
            proof {
                assert(self.mag@.drop_first()[0] == self.mag@[1]);
                assert(self.mag@.drop_first().drop_first().len() == 0);
            }
            Some(self.mag[0] as u64 + 4294967296 * (self.mag[1] as u64))
        }
    }
}

#[verifier::external_type_specification]
#[verifier::external_body]
pub struct ExBigInt(BigInt);

/// Builds a `num_bigint::BigInt` from the limbs (`BigInt::from_slice`).
#[verifier::external_body]
pub(crate) fn big_of(a: &Int) -> BigInt {
    BigInt::from_slice(if a.neg { Sign::Minus } else { Sign::Plus }, &a.mag)
}

/// Reads the sign and limbs back (`BigInt::to_u32_digits`).
#[verifier::external_body]
fn int_of(b: &BigInt) -> Int {
    let (sign, mag) = b.to_u32_digits();
    Int { neg: sign == Sign::Minus, mag }
}

/// Relies on `BigInt + BigInt`: the exact sum, in normalised limbs.
#[verifier::external_body]
pub(crate) fn int_add(a: &Int, b: &Int) -> (r: Int)
    ensures
        r.wf(),
        r.val() == a.val() + b.val(),
{
    int_of(&(big_of(a) + big_of(b)))
}

/// Relies on `BigInt * BigInt`: the exact product, in normalised limbs.
#[verifier::external_body]
pub(crate) fn int_mul(a: &Int, b: &Int) -> (r: Int)
    ensures
        r.wf(),
        r.val() == a.val() * b.val(),
{
    int_of(&(big_of(a) * big_of(b)))
}

/// Relies on `BigInt::pow`: the exact power, in normalised limbs.
#[verifier::external_body]
pub(crate) fn int_pow(a: &Int, e: u32) -> (r: Int)
    ensures
        r.wf(),
        r.val() == vstd::arithmetic::power::pow(a.val(), e as nat),
{
    int_of(&Pow::pow(&big_of(a), e))
}

/// Relies on `BigRational::new`, which divides both parts by their greatest
/// common divisor and then makes the denominator positive.
#[verifier::external_body]
pub(crate) fn rat_reduce(n: &Int, d: &Int) -> (r: Rat)
    requires
        d.val() != 0,
    ensures
        r.wf(),
        r.num.val() * d.val() == n.val() * r.den.val(),
{
    let q = BigRational::new(big_of(n), big_of(d));
    Rat { num: int_of(q.numer()), den: int_of(q.denom()) }
}

impl Rat {
    pub open spec fn wf(&self) -> bool {
        &&& self.num.wf()
        &&& self.den.wf()
        &&& self.den.val() > 0
        &&& coprime(abs(self.num.val()), self.den.val())
    }

    /// `self` stands for the fraction `n / d` (with `d != 0`).
    pub open spec fn is(&self, n: int, d: int) -> bool {
        self.num.val() * d == n * self.den.val()
    }

    pub open spec fn nv(&self) -> int {
        self.num.val()
    }

    pub open spec fn dv(&self) -> int {
        self.den.val()
    }

    pub fn from_int(n: Int) -> (r: Rat)
        requires
            n.wf(),
        ensures
            r.wf(),
            r.nv() == n.val(),
            r.dv() == 1,
    {
        let one = Int::from_u64(1);
        proof {
            assert forall|k: int| k > 1 implies !(#[trigger] (abs(n.val()) % k) == 0 && 1int % k == 0) by {
                vstd::arithmetic::div_mod::lemma_small_mod(1, k as nat);
            }
        }
        Rat { num: n, den: one }
    }

    /// The fraction `n / d` in lowest terms.
    pub fn new(n: &Int, d: &Int) -> (r: Rat)
        requires
            n.wf(),
            d.wf(),
            d.val() != 0,
        ensures
            r.wf(),
            r.is(n.val(), d.val()),
    {
        rat_reduce(n, d)
    }

    pub fn copy(&self) -> (r: Rat)
        ensures
            r.nv() == self.nv(),
            r.dv() == self.dv(),
            self.wf() ==> r.wf(),
    {
        Rat { num: self.num.copy(), den: self.den.copy() }
    }

    pub fn is_zero(&self) -> (r: bool)
        requires
            self.wf(),
        ensures
            r == (self.nv() == 0),
    {
        self.num.is_zero()
    }

    pub fn is_negative(&self) -> (r: bool)
        requires
            self.wf(),
        ensures
            r == (self.nv() < 0),
    {
        self.num.is_negative()
    }

    pub fn is_positive(&self) -> (r: bool)
        requires
            self.wf(),
        ensures
            r == (self.nv() > 0),
    {
        self.num.is_positive()
    }

    pub fn negate(self) -> (r: Rat)
        requires
            self.wf(),
        ensures
            r.wf(),
            r.nv() == -self.nv(),
            r.dv() == self.dv(),
    {
        Rat { num: self.num.negate(), den: self.den }
    }

    /// `1 / self`, with the sign moved onto the numerator.
    pub fn recip(self) -> (r: Rat)
        requires
            self.wf(),
            self.nv() != 0,
        ensures
            r.wf(),
            self.nv() > 0 ==> r.nv() == self.dv() && r.dv() == self.nv(),
            self.nv() < 0 ==> r.nv() == -self.dv() && r.dv() == -self.nv(),
    {
        let negative = self.num.is_negative();
        let den = self.num.abs();
        let num = if negative {
            self.den.negate()
        } else {
            self.den
        };
        Rat { num, den }
    }

    pub fn add(&self, o: &Rat) -> (r: Rat)
        requires
            self.wf(),
            o.wf(),
        ensures
            r.wf(),
            r.is(self.nv() * o.dv() + o.nv() * self.dv(), self.dv() * o.dv()),
    {
        let a = int_mul(&self.num, &o.den);
        let b = int_mul(&o.num, &self.den);
        let n = int_add(&a, &b);
        let d = int_mul(&self.den, &o.den);
        proof {
            vstd::arithmetic::mul::lemma_mul_strictly_positive(self.dv(), o.dv());
        }
        rat_reduce(&n, &d)
    }

    pub fn mul(&self, o: &Rat) -> (r: Rat)
        requires
            self.wf(),
            o.wf(),
        ensures
            r.wf(),
            r.is(self.nv() * o.nv(), self.dv() * o.dv()),
    {
        let n = int_mul(&self.num, &o.num);
        let d = int_mul(&self.den, &o.den);
        proof {
            vstd::arithmetic::mul::lemma_mul_strictly_positive(self.dv(), o.dv());
        }
        rat_reduce(&n, &d)
    }

    /// `self` to the power `e`; a negative `e` takes the reciprocal.
    pub fn pow(&self, e: i64) -> (r: Option<Rat>)
        requires
            self.wf(),
            e < 0 ==> self.nv() != 0,
        ensures
            r is Some <==> -(u32::MAX as int) <= e <= u32::MAX,
            r matches Some(q) ==> q.wf() && (e >= 0 ==> q.is(
                vstd::arithmetic::power::pow(self.nv(), e as nat),
                vstd::arithmetic::power::pow(self.dv(), e as nat),
            )) && (e < 0 ==> q.is(
                vstd::arithmetic::power::pow(self.dv(), (-e) as nat),
                vstd::arithmetic::power::pow(self.nv(), (-e) as nat),
            )),
    {
        if e > u32::MAX as i64 || e < -(u32::MAX as i64) {
            return None;
        }
        let k: u32 = if e < 0 {
            (-e) as u32
        } else {
            e as u32
        };
        let n = int_pow(&self.num, k);
        let d = int_pow(&self.den, k);
        proof {
            vstd::arithmetic::power::lemma_pow_positive(self.dv(), k as nat);
            if e < 0 {
                lemma_pow_nonzero(self.nv(), k as nat);
            }
        }
        if e < 0 {
            Some(rat_reduce(&d, &n))
        } else {
            Some(rat_reduce(&n, &d))
        }
    }
}

pub proof fn lemma_pow_nonzero(b: int, e: nat)
    requires
        b != 0,
    ensures
        vstd::arithmetic::power::pow(b, e) != 0,
    decreases e,
{
    reveal(vstd::arithmetic::power::pow);
    if e > 0 {
        lemma_pow_nonzero(b, (e - 1) as nat);
        let p = vstd::arithmetic::power::pow(b, (e - 1) as nat);
        assert(b * p != 0) by (nonlinear_arith)
            requires
                b != 0,
                p != 0,
        ;
    }
}

} // verus!
