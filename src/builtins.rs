//! The builtin operators: what each does to the stack, its inverse and its
//! arity, looked up by symbol.
use crate::err::RuntimeError;
use crate::float::{
    float_add, float_asin, float_asinh, float_atan, float_cos, float_cosh, float_div, float_is_negative,
    float_is_zero, float_ln, float_mul, float_neg, float_of_int, float_pi, float_sin, float_sinh,
    float_sqrt, FLOAT_PRECISION,
};
use astro_float::BigFloat;
use crate::num::Int;
use crate::value::{
    is_complex_ok, is_float_ok, kind_tags_text, kind_text, mismatch_one_of, neg_is, pow_is, product_is, recip_is,
    root_is, sum_is, Value,
};
use vstd::prelude::*;

verus! {

/// What a builtin does to the stack.
#[derive(Debug, Clone, Copy, PartialEq, Eq)]
pub enum Op {
    /// Pushes a copy of the top value.
    Dup,
    /// Drops the top value.
    Pop,
    /// Swaps the top two values.
    Flip,
    /// Turns the top three values around (its own inverse).
    Roll,
    Add,
    /// The value below minus the top value.
    Sub,
    Mul,
    /// The value below over the top value.
    Div,
    /// The value below to the power of the top value.
    Pow,
    /// The value below to the power of the negated top value.
    Root,
    Sin,
    Asin,
    Sinh,
    Asinh,
    /// The list `1, 2, ..., n` for a positive integer `n`.
    Iota,
    /// Fails: the operator has no inverse.
    NoInverse,
}

/// A builtin operator: `action` is what it does to the stack, `inverse`
/// undoes it, and `arity` is how many stack elements it takes.
#[derive(Debug, Clone, Copy, PartialEq, Eq)]
pub struct Builtin {
    pub action: Op,
    pub inverse: Op,
    pub arity: usize,
}

/// The operands an operation reads from the top of the stack.
pub open spec fn op_arity(op: Op) -> nat {
    match op {
        Op::Dup | Op::Pop | Op::Sin | Op::Asin | Op::Sinh | Op::Asinh | Op::Iota => 1,
        Op::Flip | Op::Add | Op::Sub | Op::Mul | Op::Div | Op::Pow | Op::Root => 2,
        Op::Roll => 3,
        Op::NoInverse => 0,
    }
}

pub open spec fn stack_wf(s: Seq<Value>) -> bool {
    forall|i: int| 0 <= i < s.len() ==> #[trigger] s[i].wf()
}

/// A binary operation: the two operands replaced by one result, which `rel`
/// relates to them; or the error that `rel` allows.
pub open spec fn binary(
    s: Seq<Value>,
    r: Result<Vec<Value>, RuntimeError>,
    rel: spec_fn(Value, Value, Result<Value, RuntimeError>) -> bool,
) -> bool {
    let n = s.len() as int;
    &&& r matches Ok(t) ==> t@ == s.take(n - 2).push(t@[n - 2]) && rel(
        s[n - 2],
        s[n - 1],
        Ok(t@[n - 2]),
    )
    &&& r matches Err(e) ==> rel(s[n - 2], s[n - 1], Err(e))
}

/// `x - y`, that is `x + (-y)`.
pub open spec fn diff_is(x: Value, y: Value, r: Result<Value, RuntimeError>) -> bool {
    ||| (neg_is(y, r) && r is Err)
    ||| exists|ny: Value| neg_is(y, Ok(ny)) && ny.wf() && sum_is(x, ny, r)
}

/// `x / y`, that is `x * (1 / y)`.
pub open spec fn quot_is(x: Value, y: Value, r: Result<Value, RuntimeError>) -> bool {
    ||| (recip_is(y, r) && r is Err)
    ||| exists|ry: Value| recip_is(y, Ok(ry)) && ry.wf() && product_is(x, ry, r)
}

/// A floating function of one number; `pi` says whether pi-multiples are taken.
pub open spec fn float_fn_is(x: Value, pi: bool, r: Result<Value, RuntimeError>) -> bool {
    match x {
        Value::Integer(_) | Value::Rational(_) | Value::Float(_) => is_float_ok(r),
        Value::Pi(..) => if pi {
            is_float_ok(r)
        } else {
            mismatch_one_of(x, r)
        },
        Value::Complex(..) => is_complex_ok(r),
        _ => mismatch_one_of(x, r),
    }
}

/// The sine of a value is taken without error: a number that is not a
/// limit.
pub open spec fn sin_ok(x: Value) -> bool {
    x is Integer || x is Rational || x is Float || x is Pi || x is Complex
}

/// The sine: numbers give floats (complex numbers complex ones), a list is
/// taken element by element; its error is that of an element.
pub open spec fn sin_is(x: Value, r: Result<Value, RuntimeError>) -> bool
    decreases x,
{
    match x {
        Value::List(v) => (r is Ok ==> r->Ok_0 is List) && (r matches Ok(Value::List(w)) ==> sins_all(
            v@,
            w@,
        )) && (r matches Err(e) ==> sins_err(v@, e)) && ((forall|i: int|
            0 <= i < v.len() ==> #[trigger] sin_ok(v[i])) ==> r is Ok),
        _ => float_fn_is(x, true, r),
    }
}

/// Each `w[i]` is the sine of `v[i]`.
pub open spec fn sins_all(v: Seq<Value>, w: Seq<Value>) -> bool
    decreases v,
{
    v.len() == w.len() && (v.len() == 0 || (sin_is(v[0], Ok(w[0])) && sins_all(v.drop_first(), w.drop_first())))
}

/// The sine of some element of `v` fails with `e`.
pub open spec fn sins_err(v: Seq<Value>, e: RuntimeError) -> bool
    decreases v,
{
    v.len() > 0 && (sin_is(v[0], Err(e)) || sins_err(v.drop_first(), e))
}

pub proof fn lemma_sins_all(v: Seq<Value>, w: Seq<Value>)
    ensures
        sins_all(v, w) <==> (v.len() == w.len() && forall|i: int|
            0 <= i < v.len() ==> #[trigger] sin_is(v[i], Ok(w[i]))),
    decreases v.len(),
{
    if v.len() > 0 && v.len() == w.len() {
        let (d, e) = (v.drop_first(), w.drop_first());
        lemma_sins_all(d, e);
        assert(sins_all(v, w) == (sin_is(v[0], Ok(w[0])) && sins_all(d, e)));
        if forall|i: int| 0 <= i < v.len() ==> #[trigger] sin_is(v[i], Ok(w[i])) {
            assert(sin_is(v[0], Ok(w[0])));
            assert forall|i: int| 0 <= i < d.len() implies #[trigger] sin_is(d[i], Ok(e[i])) by {
                assert(d[i] == v[i + 1] && e[i] == w[i + 1]);
                assert(sin_is(v[i + 1], Ok(w[i + 1])));
            }
        }
        if sins_all(v, w) {
            assert forall|i: int| 0 <= i < v.len() implies #[trigger] sin_is(v[i], Ok(w[i])) by {
                if i > 0 {
                    assert(d[i - 1] == v[i] && e[i - 1] == w[i]);
                    assert(sin_is(d[i - 1], Ok(e[i - 1])));
                }
            }
        }
    }
}

pub proof fn lemma_sins_err(v: Seq<Value>, e: RuntimeError, i: int)
    requires
        0 <= i < v.len(),
        sin_is(v[i], Err(e)),
    ensures
        sins_err(v, e),
    decreases i,
{
    if i > 0 {
        assert(v.drop_first()[i - 1] == v[i]);
        lemma_sins_err(v.drop_first(), e, i - 1);
    }
}

/// A unary operation: the operand replaced by one result.
pub open spec fn unary(
    s: Seq<Value>,
    r: Result<Vec<Value>, RuntimeError>,
    rel: spec_fn(Value, Result<Value, RuntimeError>) -> bool,
) -> bool {
    let n = s.len() as int;
    &&& r matches Ok(t) ==> t@ == s.take(n - 1).push(t@[n - 1]) && rel(s[n - 1], Ok(t@[n - 1]))
    &&& r matches Err(e) ==> rel(s[n - 1], Err(e))
}

/// The list `1, 2, ..., n`.
pub open spec fn is_iota(w: Seq<Value>, n: int) -> bool {
    w.len() == n && forall|i: int|
        0 <= i < n ==> (#[trigger] w[i] matches Value::Integer(k) && k.val() == i + 1)
}

/// What iota gives for its operand.
pub open spec fn iota_is(x: Value, r: Result<Value, RuntimeError>) -> bool {
    match x {
        Value::Integer(n) => if 0 < n.val() <= usize::MAX {
            r matches Ok(Value::List(w)) && is_iota(w@, n.val())
        } else {
            r == Err::<Value, RuntimeError>(RuntimeError::InvalidIotaValue)
        },
        _ => r matches Err(RuntimeError::TypeMissmatch { expected, got }) && expected@ == "Integer"@
            && got@ == kind_tags_text(x.rank()),
    }
}

/// What an operation does to a stack that holds at least its arity.
pub open spec fn op_is(op: Op, s: Seq<Value>, r: Result<Vec<Value>, RuntimeError>) -> bool {
    let n = s.len() as int;
    match op {
        Op::Dup => r matches Ok(t) && t@.len() == n + 1 && t@.take(n) == s && t@[n].same(s[n - 1]),
        Op::Pop => r matches Ok(t) && t@ == s.take(n - 1),
        Op::Flip => r matches Ok(t) && t@ == s.take(n - 2).push(s[n - 1]).push(s[n - 2]),
        Op::Roll => r matches Ok(t) && t@ == s.take(n - 3).push(s[n - 1]).push(s[n - 2]).push(
            s[n - 3],
        ),
        Op::Add => binary(s, r, |x: Value, y: Value, q: Result<Value, RuntimeError>| sum_is(x, y, q)),
        Op::Sub => binary(s, r, |x: Value, y: Value, q: Result<Value, RuntimeError>| diff_is(x, y, q)),
        Op::Mul => binary(
            s,
            r,
            |x: Value, y: Value, q: Result<Value, RuntimeError>| product_is(x, y, q),
        ),
        Op::Div => binary(s, r, |x: Value, y: Value, q: Result<Value, RuntimeError>| quot_is(x, y, q)),
        Op::Pow => binary(s, r, |x: Value, y: Value, q: Result<Value, RuntimeError>| pow_is(x, y, q)),
        Op::Root => binary(s, r, |x: Value, y: Value, q: Result<Value, RuntimeError>| root_is(x, y, q)),
        Op::Sin => unary(s, r, |x: Value, q: Result<Value, RuntimeError>| sin_is(x, q)),
        Op::Asin => unary(s, r, |x: Value, q: Result<Value, RuntimeError>| float_fn_is(x, true, q)),
        Op::Sinh => unary(s, r, |x: Value, q: Result<Value, RuntimeError>| float_fn_is(x, false, q)),
        Op::Asinh => unary(s, r, |x: Value, q: Result<Value, RuntimeError>| float_fn_is(x, false, q)),
        Op::Iota => unary(s, r, |x: Value, q: Result<Value, RuntimeError>| iota_is(x, q)),
        Op::NoInverse => r == Err::<Vec<Value>, RuntimeError>(RuntimeError::NoInverse),
    }
}

/// What calling a builtin with `op` does: the arity is checked first.
pub open spec fn call_is(op: Op, arity: usize, s: Seq<Value>, r: Result<Vec<Value>, RuntimeError>) -> bool {
    if arity > s.len() {
        r == Err::<Vec<Value>, RuntimeError>(RuntimeError::InvalidPop { len: s.len() as usize, arity })
    } else {
        op_is(op, s, r)
    }
}

/// The builtin table's entries are consistent: each operation reads no more
/// than the arity it is called with.
pub open spec fn fits(b: Builtin) -> bool {
    op_arity(b.action) <= b.arity && op_arity(b.inverse) <= b.arity
}

/// The builtin of a symbol.
pub open spec fn builtin_spec(c: char) -> Option<Builtin> {
    if c == '.' {
        Some(Builtin { action: Op::Dup, inverse: Op::NoInverse, arity: 1 })
    } else if c == ',' {
        Some(Builtin { action: Op::Pop, inverse: Op::NoInverse, arity: 1 })
    } else if c == '↕' {
        Some(Builtin { action: Op::Flip, inverse: Op::Flip, arity: 2 })
    } else if c == '↺' {
        Some(Builtin { action: Op::Roll, inverse: Op::Roll, arity: 3 })
    } else if c == '+' {
        Some(Builtin { action: Op::Add, inverse: Op::Sub, arity: 2 })
    } else if c == '-' {
        Some(Builtin { action: Op::Sub, inverse: Op::Add, arity: 2 })
    } else if c == '×' {
        Some(Builtin { action: Op::Mul, inverse: Op::Div, arity: 2 })
    } else if c == '÷' {
        Some(Builtin { action: Op::Div, inverse: Op::Mul, arity: 2 })
    } else if c == 'ⁿ' {
        Some(Builtin { action: Op::Pow, inverse: Op::Root, arity: 2 })
    } else if c == '√' {
        Some(Builtin { action: Op::Root, inverse: Op::Pow, arity: 2 })
    } else if c == '◯' {
        Some(Builtin { action: Op::Sin, inverse: Op::Asin, arity: 1 })
    } else if c == 'ⓔ' {
        Some(Builtin { action: Op::Sinh, inverse: Op::Asinh, arity: 1 })
    } else if c == 'ι' {
        Some(Builtin { action: Op::Iota, inverse: Op::NoInverse, arity: 1 })
    } else {
        None
    }
}

/// Looks a symbol up in the builtin table.
pub fn builtin(c: char) -> (r: Option<Builtin>)
    ensures
        r == builtin_spec(c),
        r matches Some(b) ==> fits(b),
{
    if c == '.' {
        Some(Builtin::new(Op::Dup, Op::NoInverse, 1))
    } else if c == ',' {
        Some(Builtin::new(Op::Pop, Op::NoInverse, 1))
    } else if c == '↕' {
        Some(Builtin::new(Op::Flip, Op::Flip, 2))
    } else if c == '↺' {
        Some(Builtin::new(Op::Roll, Op::Roll, 3))
    } else if c == '+' {
        Some(Builtin::new(Op::Add, Op::Sub, 2))
    } else if c == '-' {
        Some(Builtin::new(Op::Sub, Op::Add, 2))
    } else if c == '×' {
        Some(Builtin::new(Op::Mul, Op::Div, 2))
    } else if c == '÷' {
        Some(Builtin::new(Op::Div, Op::Mul, 2))
    } else if c == 'ⁿ' {
        Some(Builtin::new(Op::Pow, Op::Root, 2))
    } else if c == '√' {
        Some(Builtin::new(Op::Root, Op::Pow, 2))
    } else if c == '◯' {
        Some(Builtin::new(Op::Sin, Op::Asin, 1))
    } else if c == 'ⓔ' {
        Some(Builtin::new(Op::Sinh, Op::Asinh, 1))
    } else if c == 'ι' {
        Some(Builtin::new(Op::Iota, Op::NoInverse, 1))
    } else {
        None
    }
}

impl Builtin {
    pub fn new(action: Op, inverse: Op, arity: usize) -> (r: Builtin)
        ensures
            r == (Builtin { action, inverse, arity }),
    {
        Builtin { action, inverse, arity }
    }

    /// Runs the action on the stack, after checking that it holds `arity` values.
    pub fn call(&self, stack: Vec<Value>) -> (r: Result<Vec<Value>, RuntimeError>)
        requires
            fits(*self),
            stack_wf(stack@),
        ensures
            call_is(self.action, self.arity, stack@, r),
            r matches Ok(t) ==> stack_wf(t@),
    {
        if self.arity > stack.len() {
            return Err(RuntimeError::InvalidPop { len: stack.len(), arity: self.arity });
        }
        apply(self.action, stack)
    }

    /// Runs the inverse on the stack, after checking that it holds `arity` values.
    pub fn call_inverse(&self, stack: Vec<Value>) -> (r: Result<Vec<Value>, RuntimeError>)
        requires
            fits(*self),
            stack_wf(stack@),
        ensures
            call_is(self.inverse, self.arity, stack@, r),
            r matches Ok(t) ==> stack_wf(t@),
    {
        if self.arity > stack.len() {
            return Err(RuntimeError::InvalidPop { len: stack.len(), arity: self.arity });
        }
        apply(self.inverse, stack)
    }
}

/// Takes the top value off a stack that is not empty.
fn take_top(stack: &mut Vec<Value>) -> (x: Value)
    requires
        old(stack).len() > 0,
    ensures
        final(stack)@ == old(stack)@.drop_last(),
        x == old(stack)@.last(),
{
    match stack.pop() {
        Some(x) => x,
        None => Value::Undefined,
    }
}

/// Runs an operation on a stack that holds at least its arity.
pub fn apply(op: Op, stack: Vec<Value>) -> (r: Result<Vec<Value>, RuntimeError>)
    requires
        stack.len() >= op_arity(op),
        stack_wf(stack@),
    ensures
        op_is(op, stack@, r),
        r matches Ok(t) ==> stack_wf(t@),
{
    let ghost s = stack@;
    let n = stack.len();
    let mut stack = stack;
    match op {
        Op::Dup => {
            let x = take_top(&mut stack);
            let c = x.copy();
            stack.push(x);
            stack.push(c);
            proof {
                assert(stack@.take(n as int) =~= s);
            }
            Ok(stack)
        },
        Op::Pop => {
            let _ = take_top(&mut stack);
            Ok(stack)
        },
        Op::Flip => {
            let y = take_top(&mut stack);
            let x = take_top(&mut stack);
            stack.push(y);
            stack.push(x);
            proof {
                assert(stack@ =~= s.take(n - 2).push(s[n - 1]).push(s[n - 2]));
            }
            Ok(stack)
        },
        Op::Roll => {
            let z = take_top(&mut stack);
            let y = take_top(&mut stack);
            let x = take_top(&mut stack);
            stack.push(z);
            stack.push(y);
            stack.push(x);
            proof {
                assert(stack@ =~= s.take(n - 3).push(s[n - 1]).push(s[n - 2]).push(s[n - 3]));
            }
            Ok(stack)
        },
        Op::Add | Op::Sub | Op::Mul | Op::Div | Op::Pow | Op::Root => {
            let y = take_top(&mut stack);
            let x = take_top(&mut stack);
            proof {
                assert(s[n - 1].wf() && s[n - 2].wf());
            }
            let res = match op {
                Op::Add => x.add(y),
                Op::Sub => match y.neg() {
                    Ok(ny) => x.add(ny),
                    Err(e) => Err(e),
                },
                Op::Mul => x.mul(y),
                Op::Div => match y.reciprocal() {
                    Ok(ry) => x.mul(ry),
                    Err(e) => Err(e),
                },
                Op::Pow => x.pow(&y),
                _ => x.root(&y),
            };
            match res {
                Ok(v) => {
                    stack.push(v);
                    proof {
                        assert(stack@ =~= s.take(n - 2).push(stack@[n - 2]));
                    }
                    Ok(stack)
                },
                Err(e) => Err(e),
            }
        },
        Op::Sin | Op::Asin | Op::Sinh | Op::Asinh | Op::Iota => {
            let x = take_top(&mut stack);
            proof {
                assert(s[n - 1].wf());
            }
            let res = match op {
                Op::Sin => sin(&x),
                Op::Asin => float_fn(&x, 1),
                Op::Sinh => float_fn(&x, 2),
                Op::Asinh => float_fn(&x, 3),
                _ => iota(&x),
            };
            match res {
                Ok(v) => {
                    stack.push(v);
                    proof {
                        assert(stack@ =~= s.take(n - 1).push(stack@[n - 1]));
                    }
                    Ok(stack)
                },
                Err(e) => Err(e),
            }
        },
        Op::NoInverse => Err(RuntimeError::NoInverse),
    }
}

/// One of the floating functions of a number: 0 sine, 1 arcsine, 2
/// hyperbolic sine, 3 hyperbolic arcsine.
fn float_fn(x: &Value, f: u8) -> (r: Result<Value, RuntimeError>)
    requires
        x.wf(),
        f <= 3,
    ensures
        float_fn_is(*x, f <= 1, r),
{
    let arg = match x {
        Value::Integer(_) | Value::Rational(_) | Value::Float(_) => crate::value::approx(x),
        Value::Pi(q, e) => {
            if f <= 1 {
                crate::value::pi_float(q, *e)
            } else {
                return Err(mismatch_one("Number", x));
            }
        },
        Value::Complex(a, b) => {
            let (re, im) = if f == 0 {
                complex_sin(a, b)
            } else if f == 1 {
                complex_asin(a, b)
            } else if f == 2 {
                complex_sinh(a, b)
            } else {
                complex_asinh(a, b)
            };
            return Ok(Value::Complex(re, im));
        },
        _ => return Err(mismatch_one("Number", x)),
    };
    let y = if f == 0 {
        float_sin(&arg, FLOAT_PRECISION)
    } else if f == 1 {
        float_asin(&arg, FLOAT_PRECISION)
    } else if f == 2 {
        float_sinh(&arg, FLOAT_PRECISION)
    } else {
        float_asinh(&arg, FLOAT_PRECISION)
    };
    Ok(Value::Float(y))
}

fn fsub(a: &BigFloat, b: &BigFloat) -> BigFloat {
    float_add(a, &float_neg(b), FLOAT_PRECISION)
}

fn fnum(n: u64) -> BigFloat {
    float_of_int(&Int::from_u64(n), FLOAT_PRECISION)
}

/// `sin(a + b i) = sin a cosh b + i cos a sinh b`.
fn complex_sin(a: &BigFloat, b: &BigFloat) -> (BigFloat, BigFloat) {
    let p = FLOAT_PRECISION;
    (
        float_mul(&float_sin(a, p), &float_cosh(b, p), p),
        float_mul(&float_cos(a, p), &float_sinh(b, p), p),
    )
}

/// `sinh(a + b i) = sinh a cos b + i cosh a sin b`.
fn complex_sinh(a: &BigFloat, b: &BigFloat) -> (BigFloat, BigFloat) {
    let p = FLOAT_PRECISION;
    (
        float_mul(&float_sinh(a, p), &float_cos(b, p), p),
        float_mul(&float_cosh(a, p), &float_sin(b, p), p),
    )
}

/// `|a + b i|`.
fn complex_abs(a: &BigFloat, b: &BigFloat) -> BigFloat {
    let p = FLOAT_PRECISION;
    float_sqrt(&float_add(&float_mul(a, a, p), &float_mul(b, b, p), p), p)
}

/// The argument of `a + b i`, in `(-pi, pi]`.
fn complex_arg(a: &BigFloat, b: &BigFloat) -> BigFloat {
    let p = FLOAT_PRECISION;
    let t = float_atan(&float_div(b, a, p), p);
    if float_is_negative(a) {
        if float_is_negative(b) {
            fsub(&t, &float_pi(p))
        } else {
            float_add(&t, &float_pi(p), p)
        }
    } else {
        t
    }
}

/// The principal square root of `a + b i`.
fn complex_sqrt(a: &BigFloat, b: &BigFloat) -> (BigFloat, BigFloat) {
    let p = FLOAT_PRECISION;
    let r = complex_abs(a, b);
    let two = fnum(2);
    let re = float_sqrt(&float_div(&float_add(&r, a, p), &two, p), p);
    let im = float_sqrt(&float_div(&fsub(&r, a), &two, p), p);
    if float_is_negative(b) {
        (re, float_neg(&im))
    } else {
        (re, im)
    }
}

/// The principal logarithm of `a + b i`.
fn complex_ln(a: &BigFloat, b: &BigFloat) -> (BigFloat, BigFloat) {
    (float_ln(&complex_abs(a, b), FLOAT_PRECISION), complex_arg(a, b))
}

/// `asinh z = ln(z + sqrt(z^2 + 1))`.
fn complex_asinh(a: &BigFloat, b: &BigFloat) -> (BigFloat, BigFloat) {
    let p = FLOAT_PRECISION;
    let zr = float_add(&fsub(&float_mul(a, a, p), &float_mul(b, b, p)), &fnum(1), p);
    let zi = float_mul(&fnum(2), &float_mul(a, b, p), p);
    let (sr, si) = complex_sqrt(&zr, &zi);
    complex_ln(&float_add(a, &sr, p), &float_add(b, &si, p))
}

/// `asin z = -i asinh(i z)`.
fn complex_asin(a: &BigFloat, b: &BigFloat) -> (BigFloat, BigFloat) {
    let (u, v) = complex_asinh(&float_neg(b), a);
    (v, float_neg(&u))
}

/// A type mismatch: `expected` was wanted, and `x` came.
fn mismatch_one(expected: &str, x: &Value) -> (r: RuntimeError)
    ensures
        r is TypeMissmatch,
        r->TypeMissmatch_expected@ == expected@,
        r->TypeMissmatch_got@ == kind_tags_text(x.rank()),
{
    RuntimeError::TypeMissmatch { expected: expected.to_owned(), got: kind_text(x.rank_of()).to_owned() }
}

/// The sine of a number, or of each element of a list.
fn sin(x: &Value) -> (r: Result<Value, RuntimeError>)
    requires
        x.wf(),
    ensures
        sin_is(*x, r),
        r matches Ok(v) ==> v.wf(),
    decreases x,
{
    match x {
        Value::List(v) => {
            let mut w: Vec<Value> = Vec::new();
            let mut i: usize = 0;
            while i < v.len()
                invariant
                    *x == Value::List(*v),
                    x.wf(),
                    i <= v.len(),
                    w.len() == i,
                    forall|j: int| 0 <= j < i ==> #[trigger] w[j].wf(),
                    forall|j: int| 0 <= j < i ==> #[trigger] sin_is(v[j], Ok(w[j])),
                decreases v.len() - i,
            {
                proof {
                    assert(decreases_to!(*v => v[i as int]));
                    crate::value::lemma_all_wf(v@);
                }
                match sin(&v[i]) {
                    Ok(y) => w.push(y),
                    Err(e) => {
                        proof {
                            assert(!sin_ok(v[i as int]));
                            lemma_sins_err(v@, e, i as int);
                        }
                        return Err(e);
                    },
                }
                i += 1;
            }
            proof {
                crate::value::lemma_all_wf(w@);
                lemma_sins_all(v@, w@);
            }
            Ok(Value::List(w))
        },
        _ => float_fn(x, 0),
    }
}

/// The list `1, 2, ..., n` for a positive integer `n`.
fn iota(x: &Value) -> (r: Result<Value, RuntimeError>)
    requires
        x.wf(),
    ensures
        iota_is(*x, r),
        r matches Ok(v) ==> v.wf(),
{
    match x {
        Value::Integer(n) => {
            if !n.is_positive() {
                return Err(RuntimeError::InvalidIotaValue);
            }
            let up_to: usize = match n.to_u64() {
                Some(k) => {
                    if k > usize::MAX as u64 {
                        return Err(RuntimeError::InvalidIotaValue);
                    }
                    k as usize
                },
                None => return Err(RuntimeError::InvalidIotaValue),
            };
            let mut w: Vec<Value> = Vec::new();
            let mut i: usize = 0;
            while i < up_to
                invariant
                    i <= up_to,
                    is_iota(w@, i as int),
                    forall|j: int| 0 <= j < w.len() ==> #[trigger] w[j].wf(),
                decreases up_to - i,
            {
                i += 1;
                w.push(Value::Integer(Int::from_u64(i as u64)));
            }
            proof {
                crate::value::lemma_all_wf(w@);
            }
            Ok(Value::List(w))
        },
        _ => Err(mismatch_one("Integer", x)),
    }
}

} // verus!
