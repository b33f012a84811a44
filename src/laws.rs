//! Laws that relate the operations to one another.
use crate::builtins::{op_is, stack_wf, Op};
use crate::err::RuntimeError;
use crate::num::{Int, Rat};
use crate::parser::{Loc, Token};
use crate::vm::{outcome, runs, scope_leaves, step_done};
use crate::value::{neg_is, product_is, product_ordered, recip_is, sum_is, Value};
use vstd::prelude::*;

verus! {

/// Adding the negation of an integer is subtracting it: for integers `a`
/// and `b`, `-b` is an integer and `a + (-b)` is the integer `a - b`.
pub proof fn law_add_negation_subtracts(a: Int, b: Int)
    requires
        a.wf(),
        b.wf(),
    ensures
        forall|e: RuntimeError| !neg_is(Value::Integer(b), Err(e)),
        forall|nb: Value, r: Result<Value, RuntimeError>|
            neg_is(Value::Integer(b), Ok(nb)) && #[trigger] sum_is(Value::Integer(a), nb, r) ==> (
            r matches Ok(Value::Integer(z)) && z.val() == a.val() - b.val()),
{
}

/// The reciprocal of the reciprocal of a non-zero rational, infinity,
/// epsilon or pi-multiple is the same value.
pub proof fn law_reciprocal_twice(v: Value)
    requires
        v.wf(),
        v is Rational || v is Infinity || v is Epsilon || v is Pi,
        !v.zero_spec(),
    ensures
        forall|w: Value, r: Result<Value, RuntimeError>|
            recip_is(v, Ok(w)) && #[trigger] recip_is(w, r) ==> (r matches Ok(u) && u.same(v)),
{
}

/// The reciprocal of the reciprocal of a non-zero integer `n` is the
/// rational `n / 1`.
pub proof fn law_reciprocal_twice_integer(n: Int)
    requires
        n.wf(),
        n.val() != 0,
    ensures
        forall|w: Value, r: Result<Value, RuntimeError>|
            recip_is(Value::Integer(n), Ok(w)) && #[trigger] recip_is(w, r) ==> (r matches Ok(
                Value::Rational(q),
            ) && q.nv() == n.val() && q.dv() == 1),
{
}

/// Swapping the top two values twice restores the stack.
pub proof fn law_flip_twice(s: Seq<Value>)
    requires
        s.len() >= 2,
    ensures
        forall|r1: Result<Vec<Value>, RuntimeError>, r2: Result<Vec<Value>, RuntimeError>|
            op_is(Op::Flip, s, r1) && #[trigger] op_is(Op::Flip, r1->Ok_0@, r2) ==> (r2 matches Ok(
                t,
            ) && t@ == s),
{
    assert forall|r1: Result<Vec<Value>, RuntimeError>, r2: Result<Vec<Value>, RuntimeError>|
        op_is(Op::Flip, s, r1) && #[trigger] op_is(Op::Flip, r1->Ok_0@, r2) implies (r2 matches Ok(
            t,
        ) && t@ == s) by {
        let n = s.len() as int;
        let t1 = r1->Ok_0@;
        assert(t1.take(n - 2) =~= s.take(n - 2));
        assert(r2->Ok_0@ =~= s);
    }
}

/// Turning the top three values around twice restores the stack.
pub proof fn law_roll_twice(s: Seq<Value>)
    requires
        s.len() >= 3,
    ensures
        forall|r1: Result<Vec<Value>, RuntimeError>, r2: Result<Vec<Value>, RuntimeError>|
            op_is(Op::Roll, s, r1) && #[trigger] op_is(Op::Roll, r1->Ok_0@, r2) ==> (r2 matches Ok(
                t,
            ) && t@ == s),
{
    assert forall|r1: Result<Vec<Value>, RuntimeError>, r2: Result<Vec<Value>, RuntimeError>|
        op_is(Op::Roll, s, r1) && #[trigger] op_is(Op::Roll, r1->Ok_0@, r2) implies (r2 matches Ok(
            t,
        ) && t@ == s) by {
        let n = s.len() as int;
        let t1 = r1->Ok_0@;
        assert(t1.take(n - 3) =~= s.take(n - 3));
        assert(r2->Ok_0@ =~= s);
    }
}

/// Adding an integer `y` and then subtracting it again (pushed once more)
/// gives back the integer `x` below it; the rest of the stack is kept.
pub proof fn law_add_then_subtract(p: Seq<Value>, x: Int, y: Int)
    requires
        x.wf(),
        y.wf(),
    ensures
        forall|r1: Result<Vec<Value>, RuntimeError>, r2: Result<Vec<Value>, RuntimeError>|
            op_is(Op::Add, p.push(Value::Integer(x)).push(Value::Integer(y)), r1) && #[trigger] op_is(
                Op::Sub,
                r1->Ok_0@.push(Value::Integer(y)),
                r2,
            ) ==> r1 is Ok && (r2 matches Ok(t) && t@.len() == p.len() + 1 && t@.take(p.len() as int)
                == p && (t@[p.len() as int] matches Value::Integer(z) && z.val() == x.val())),
{
    assert forall|r1: Result<Vec<Value>, RuntimeError>, r2: Result<Vec<Value>, RuntimeError>|
        op_is(Op::Add, p.push(Value::Integer(x)).push(Value::Integer(y)), r1) && #[trigger] op_is(
            Op::Sub,
            r1->Ok_0@.push(Value::Integer(y)),
            r2,
        ) implies r1 is Ok && (r2 matches Ok(t) && t@.len() == p.len() + 1 && t@.take(p.len() as int)
            == p && (t@[p.len() as int] matches Value::Integer(z) && z.val() == x.val())) by {
        let s = p.push(Value::Integer(x)).push(Value::Integer(y));
        let n = s.len() as int;
        assert(s[n - 2] == Value::Integer(x));
        assert(s[n - 1] == Value::Integer(y));
        assert(s.take(n - 2) =~= p);
        let t1 = r1->Ok_0@;
        let u = t1.push(Value::Integer(y));
        assert(u[n - 1] == Value::Integer(y));
        assert(u.take(n - 2) =~= p);
    }
}

/// Subtracting an integer `y` and then adding it again (pushed once more)
/// gives back the integer `x` below it; the rest of the stack is kept.
pub proof fn law_subtract_then_add(p: Seq<Value>, x: Int, y: Int)
    requires
        x.wf(),
        y.wf(),
    ensures
        forall|r1: Result<Vec<Value>, RuntimeError>, r2: Result<Vec<Value>, RuntimeError>|
            op_is(Op::Sub, p.push(Value::Integer(x)).push(Value::Integer(y)), r1) && #[trigger] op_is(
                Op::Add,
                r1->Ok_0@.push(Value::Integer(y)),
                r2,
            ) ==> r1 is Ok && (r2 matches Ok(t) && t@.len() == p.len() + 1 && t@.take(p.len() as int)
                == p && (t@[p.len() as int] matches Value::Integer(z) && z.val() == x.val())),
{
    assert forall|r1: Result<Vec<Value>, RuntimeError>, r2: Result<Vec<Value>, RuntimeError>|
        op_is(Op::Sub, p.push(Value::Integer(x)).push(Value::Integer(y)), r1) && #[trigger] op_is(
            Op::Add,
            r1->Ok_0@.push(Value::Integer(y)),
            r2,
        ) implies r1 is Ok && (r2 matches Ok(t) && t@.len() == p.len() + 1 && t@.take(p.len() as int)
            == p && (t@[p.len() as int] matches Value::Integer(z) && z.val() == x.val())) by {
        let s = p.push(Value::Integer(x)).push(Value::Integer(y));
        let n = s.len() as int;
        assert(s[n - 2] == Value::Integer(x));
        assert(s[n - 1] == Value::Integer(y));
        assert(s.take(n - 2) =~= p);
        let t1 = r1->Ok_0@;
        let u = t1.push(Value::Integer(y));
        assert(u[n - 1] == Value::Integer(y));
        assert(u.take(n - 2) =~= p);
    }
}

/// Multiplying by a non-zero integer `y` and then dividing by it again
/// (pushed once more) gives back the number `x` below it, as a rational;
/// the rest of the stack is kept.
pub proof fn law_multiply_then_divide(p: Seq<Value>, x: Int, y: Int)
    requires
        x.wf(),
        y.wf(),
        y.val() != 0,
    ensures
        forall|r1: Result<Vec<Value>, RuntimeError>, r2: Result<Vec<Value>, RuntimeError>|
            op_is(Op::Mul, p.push(Value::Integer(x)).push(Value::Integer(y)), r1) && #[trigger] op_is(
                Op::Div,
                r1->Ok_0@.push(Value::Integer(y)),
                r2,
            ) ==> r1 is Ok && (r2 matches Ok(t) && t@.len() == p.len() + 1 && t@.take(p.len() as int)
                == p && (t@[p.len() as int] matches Value::Rational(z) && z.nv() == x.val() * z.dv())),
{
    assert forall|r1: Result<Vec<Value>, RuntimeError>, r2: Result<Vec<Value>, RuntimeError>|
        op_is(Op::Mul, p.push(Value::Integer(x)).push(Value::Integer(y)), r1) && #[trigger] op_is(
            Op::Div,
            r1->Ok_0@.push(Value::Integer(y)),
            r2,
        ) implies r1 is Ok && (r2 matches Ok(t) && t@.len() == p.len() + 1 && t@.take(p.len() as int)
            == p && (t@[p.len() as int] matches Value::Rational(z) && z.nv() == x.val() * z.dv())) by {
        let s = p.push(Value::Integer(x)).push(Value::Integer(y));
        let n = s.len() as int;
        assert(s[n - 2] == Value::Integer(x));
        assert(s[n - 1] == Value::Integer(y));
        assert(s.take(n - 2) =~= p);
        let t1 = r1->Ok_0@;
        let u = t1.push(Value::Integer(y));
        assert(u[n - 1] == Value::Integer(y));
        assert(u.take(n - 2) =~= p);
        let xy = t1[n - 2];
        assert(xy matches Value::Integer(m) && m.val() == x.val() * y.val());
        let t = r2->Ok_0@;
        let ry = choose|ry: Value| recip_is(Value::Integer(y), Ok(ry)) && ry.wf() && crate::value::product_is(xy, ry, Ok(t[n - 2]));
        assert(ry is Rational);
        let q = ry->Rational_0;
        assert(xy.rank() <= ry.rank());
        assert(product_ordered(xy, ry, Ok(t[n - 2])));
        assert(t[n - 2] is Rational);
        let z = t[n - 2]->Rational_0;
        let (xv, yv) = (x.val(), y.val());
        assert(z.nv() * q.dv() == (xv * yv) * q.nv() * z.dv());
        if yv > 0 {
            assert(z.nv() == xv * z.dv()) by (nonlinear_arith)
                requires
                    z.nv() * q.dv() == (xv * yv) * q.nv() * z.dv(),
                    q.nv() == 1,
                    q.dv() == yv,
                    yv > 0,
            ;
        } else {
            assert(z.nv() == xv * z.dv()) by (nonlinear_arith)
                requires
                    z.nv() * q.dv() == (xv * yv) * q.nv() * z.dv(),
                    q.nv() == -1,
                    q.dv() == -yv,
                    yv < 0,
            ;
        }
    }
}

/// Cross-multiplied, `(x + y) - y` is `x` again.
proof fn lemma_add_sub_cancel(xn: int, xd: int, yn: int, yd: int, wn: int, wd: int, zn: int, zd: int)
    requires
        xd > 0,
        yd > 0,
        wd > 0,
        zd > 0,
        wn * (xd * yd) == (xn * yd + yn * xd) * wd,
        zn * (wd * yd) == (wn * yd + (-yn) * wd) * zd,
    ensures
        zn * xd == xn * zd,
{
    let a = wn * yd - yn * wd;
    let h1 = wn * (xd * yd);
    let h2 = (xn * yd + yn * xd) * wd;
    assert(yd * h1 == yd * h2);
    assert(a * xd * yd == yd * h1 - yn * wd * xd * yd) by (nonlinear_arith)
        requires
            a == wn * yd - yn * wd,
            h1 == wn * (xd * yd),
    ;
    assert(yd * h2 == xn * yd * wd * yd + yn * wd * xd * yd) by (nonlinear_arith)
        requires
            h2 == (xn * yd + yn * xd) * wd,
    ;
    assert(a * xd * yd == xn * yd * wd * yd);
    assert(wn * yd + (-yn) * wd == a) by (nonlinear_arith)
        requires
            a == wn * yd - yn * wd,
    ;
    assert(a * xd == xn * yd * wd) by (nonlinear_arith)
        requires
            a * xd * yd == xn * yd * wd * yd,
            yd > 0,
    ;
    assert(zn * xd * (wd * yd) == xn * zd * (wd * yd)) by (nonlinear_arith)
        requires
            zn * (wd * yd) == a * zd,
            a * xd == xn * yd * wd,
    ;
    assert(wd * yd > 0) by (nonlinear_arith)
        requires
            wd > 0,
            yd > 0,
    ;
    assert(zn * xd == xn * zd) by (nonlinear_arith)
        requires
            zn * xd * (wd * yd) == xn * zd * (wd * yd),
            wd * yd > 0,
    ;
}

/// The sum of two exact values is exact, and stands for the sum of their
/// fractions.
proof fn lemma_sum_exact(a: Value, b: Value, r: Value)
    requires
        a.is_exact(),
        b.is_exact(),
        a.wf(),
        b.wf(),
        r.wf(),
        sum_is(a, b, Ok(r)),
    ensures
        r.is_exact(),
        r.ed() > 0,
        r.en() * (a.ed() * b.ed()) == (a.en() * b.ed() + b.en() * a.ed()) * r.ed(),
{
    let (an, ad, bn, bd, rn, rd) = (a.en(), a.ed(), b.en(), b.ed(), r.en(), r.ed());
    if a is Integer && b is Integer {
        assert(rn * (ad * bd) == (an * bd + bn * ad) * rd) by (nonlinear_arith)
            requires
                ad == 1,
                bd == 1,
                rd == 1,
                rn == an + bn,
        ;
    } else if a.rank() <= b.rank() {
        assert(r is Rational);
    } else {
        assert(r is Rational);
        assert(rn * (ad * bd) == (an * bd + bn * ad) * rd) by (nonlinear_arith)
            requires
                rn * (bd * ad) == (bn * ad + an * bd) * rd,
        ;
    }
}

/// The product of two exact values is exact, and stands for the product of
/// their fractions.
proof fn lemma_product_exact(a: Value, b: Value, r: Value)
    requires
        a.is_exact(),
        b.is_exact(),
        a.wf(),
        b.wf(),
        r.wf(),
        product_is(a, b, Ok(r)),
    ensures
        r.is_exact(),
        r.ed() > 0,
        r.en() * (a.ed() * b.ed()) == (a.en() * b.en()) * r.ed(),
{
    let (an, ad, bn, bd, rn, rd) = (a.en(), a.ed(), b.en(), b.ed(), r.en(), r.ed());
    if a is Integer && b is Integer {
        assert(rn * (ad * bd) == (an * bn) * rd) by (nonlinear_arith)
            requires
                ad == 1,
                bd == 1,
                rd == 1,
                rn == an * bn,
        ;
    } else if a.rank() <= b.rank() {
        assert(r is Rational);
    } else {
        assert(r is Rational);
        assert(rn * (ad * bd) == (an * bn) * rd) by (nonlinear_arith)
            requires
                rn * (bd * ad) == (bn * an) * rd,
        ;
    }
}

/// Adding an integer or rational `y` to an integer or rational `x` and then
/// subtracting `y` again (pushed once more) gives back the number `x`; the
/// rest of the stack is kept. (The calls give well-formed stacks, which the
/// law uses.)
pub proof fn law_add_then_subtract_exact(p: Seq<Value>, x: Value, y: Value)
    requires
        x.wf(),
        y.wf(),
        x.is_exact(),
        y.is_exact(),
    ensures
        forall|r1: Result<Vec<Value>, RuntimeError>, r2: Result<Vec<Value>, RuntimeError>|
            op_is(Op::Add, p.push(x).push(y), r1) && (r1 is Ok ==> stack_wf(r1->Ok_0@)) && #[trigger] op_is(
                Op::Sub,
                r1->Ok_0@.push(y),
                r2,
            ) && (r2 is Ok ==> stack_wf(r2->Ok_0@)) ==> r1 is Ok && (r2 matches Ok(t) && t@.len() == p.len()
                + 1 && t@.take(p.len() as int) == p && t@[p.len() as int].is_exact() && t@[p.len() as int].en()
                * x.ed() == x.en() * t@[p.len() as int].ed()),
{
    assert forall|r1: Result<Vec<Value>, RuntimeError>, r2: Result<Vec<Value>, RuntimeError>|
        op_is(Op::Add, p.push(x).push(y), r1) && (r1 is Ok ==> stack_wf(r1->Ok_0@)) && #[trigger] op_is(
            Op::Sub,
            r1->Ok_0@.push(y),
            r2,
        ) && (r2 is Ok ==> stack_wf(r2->Ok_0@)) implies r1 is Ok && (r2 matches Ok(t) && t@.len() == p.len()
            + 1 && t@.take(p.len() as int) == p && t@[p.len() as int].is_exact() && t@[p.len() as int].en()
            * x.ed() == x.en() * t@[p.len() as int].ed()) by {
        let s = p.push(x).push(y);
        let n = s.len() as int;
        assert(s[n - 2] == x);
        assert(s[n - 1] == y);
        assert(s.take(n - 2) =~= p);
        assert(x.is_number() && y.is_number());
        let t1 = r1->Ok_0@;
        let w = t1[n - 2];
        assert(w.wf());
        lemma_sum_exact(x, y, w);
        let u = t1.push(y);
        assert(u[n - 1] == y);
        assert(u.take(n - 2) =~= p);
        let t = r2->Ok_0@;
        let ny = choose|ny: Value| neg_is(y, Ok(ny)) && ny.wf() && sum_is(w, ny, Ok(t[n - 2]));
        assert(ny.is_exact() && ny.en() == -y.en() && ny.ed() == y.ed());
        assert(t[n - 2].wf());
        lemma_sum_exact(w, ny, t[n - 2]);
        assert(x.ed() > 0 && y.ed() > 0 && w.ed() > 0);
        let (yn, wd) = (y.en(), w.ed());
        assert(ny.en() * wd == (-yn) * wd);
        lemma_add_sub_cancel(x.en(), x.ed(), y.en(), y.ed(), w.en(), w.ed(), t[n - 2].en(), t[n - 2].ed());
    }
}

/// Cross-multiplied, `(x y) / y` is `x` again, for `y` not zero; `q` stands
/// for `1 / y`.
proof fn lemma_mul_div_cancel(xn: int, xd: int, yn: int, yd: int, wn: int, wd: int, qn: int, qd: int, zn: int, zd: int)
    requires
        xd > 0,
        yd > 0,
        wd > 0,
        qd > 0,
        zd > 0,
        yn != 0,
        wn * (xd * yd) == (xn * yn) * wd,
        qn * yn == yd * qd,
        zn * (wd * qd) == (wn * qn) * zd,
    ensures
        zn * xd == xn * zd,
{
    let k = xd * yd * yn;
    let a = wn * xd * yd;
    let b = qn * yn;
    let m = wd * qd * yn * yd;
    assert(zn * (wd * qd) * k == (wn * qn) * zd * k);
    assert(zn * (wd * qd) * k == zn * xd * m) by (nonlinear_arith)
        requires
            k == xd * yd * yn,
            m == wd * qd * yn * yd,
    ;
    assert((wn * qn) * zd * k == a * b * zd) by (nonlinear_arith)
        requires
            k == xd * yd * yn,
            a == wn * xd * yd,
            b == qn * yn,
    ;
    assert(a == xn * yn * wd) by (nonlinear_arith)
        requires
            a == wn * xd * yd,
            wn * (xd * yd) == (xn * yn) * wd,
    ;
    assert(a * b * zd == (xn * yn * wd) * (yd * qd) * zd);
    assert((xn * yn * wd) * (yd * qd) * zd == xn * zd * m) by (nonlinear_arith)
        requires
            m == wd * qd * yn * yd,
    ;
    assert(zn * xd * (wd * qd * yn * yd) == xn * zd * (wd * qd * yn * yd));
    assert(wd * qd * yn * yd != 0) by (nonlinear_arith)
        requires
            wd > 0,
            qd > 0,
            yn != 0,
            yd > 0,
    ;
    assert(zn * xd == xn * zd) by (nonlinear_arith)
        requires
            zn * xd * (wd * qd * yn * yd) == xn * zd * (wd * qd * yn * yd),
            wd * qd * yn * yd != 0,
    ;
}

/// The reciprocal of a non-zero exact value stands for the inverted fraction.
proof fn lemma_recip_exact(y: Value, q: Value)
    requires
        y.wf(),
        y.is_exact(),
        y.en() != 0,
        q.wf(),
        recip_is(y, Ok(q)),
    ensures
        q.is_exact(),
        q.ed() > 0,
        q.en() * y.en() == y.ed() * q.ed(),
{
    assert(!y.zero_spec());
    assert(q is Rational);
    if y is Integer {
        let n = y.en();
        if n > 0 {
            assert(q.en() == 1 && q.ed() == n);
            assert(q.en() * n == y.ed() * q.ed()) by (nonlinear_arith)
                requires
                    q.en() == 1,
                    q.ed() == n,
                    y.ed() == 1,
            ;
        } else {
            assert(q.en() == -1 && q.ed() == -n);
            assert(q.en() * n == y.ed() * q.ed()) by (nonlinear_arith)
                requires
                    q.en() == -1,
                    q.ed() == -n,
                    y.ed() == 1,
            ;
        }
    } else {
        let (yn, yd) = (y.en(), y.ed());
        if yn > 0 {
            assert(q.en() == yd && q.ed() == yn);
            assert(q.en() * yn == yd * q.ed()) by (nonlinear_arith)
                requires
                    q.en() == yd,
                    q.ed() == yn,
            ;
        } else {
            assert(q.en() == -yd && q.ed() == -yn);
            assert(q.en() * yn == yd * q.ed()) by (nonlinear_arith)
                requires
                    q.en() == -yd,
                    q.ed() == -yn,
            ;
        }
    }
}

/// Multiplying an integer or rational `x` by a non-zero integer or rational
/// `y` and then dividing by `y` again (pushed once more) gives back the
/// number `x`; the rest of the stack is kept. (The calls give well-formed
/// stacks, which the law uses.)
pub proof fn law_multiply_then_divide_exact(p: Seq<Value>, x: Value, y: Value)
    requires
        x.wf(),
        y.wf(),
        x.is_exact(),
        y.is_exact(),
        y.en() != 0,
    ensures
        forall|r1: Result<Vec<Value>, RuntimeError>, r2: Result<Vec<Value>, RuntimeError>|
            op_is(Op::Mul, p.push(x).push(y), r1) && (r1 is Ok ==> stack_wf(r1->Ok_0@)) && #[trigger] op_is(
                Op::Div,
                r1->Ok_0@.push(y),
                r2,
            ) && (r2 is Ok ==> stack_wf(r2->Ok_0@)) ==> r1 is Ok && (r2 matches Ok(t) && t@.len() == p.len()
                + 1 && t@.take(p.len() as int) == p && t@[p.len() as int].is_exact() && t@[p.len() as int].en()
                * x.ed() == x.en() * t@[p.len() as int].ed()),
{
    assert forall|r1: Result<Vec<Value>, RuntimeError>, r2: Result<Vec<Value>, RuntimeError>|
        op_is(Op::Mul, p.push(x).push(y), r1) && (r1 is Ok ==> stack_wf(r1->Ok_0@)) && #[trigger] op_is(
            Op::Div,
            r1->Ok_0@.push(y),
            r2,
        ) && (r2 is Ok ==> stack_wf(r2->Ok_0@)) implies r1 is Ok && (r2 matches Ok(t) && t@.len() == p.len()
            + 1 && t@.take(p.len() as int) == p && t@[p.len() as int].is_exact() && t@[p.len() as int].en()
            * x.ed() == x.en() * t@[p.len() as int].ed()) by {
        let s = p.push(x).push(y);
        let n = s.len() as int;
        assert(s[n - 2] == x);
        assert(s[n - 1] == y);
        assert(s.take(n - 2) =~= p);
        assert(x.is_number() && y.is_number());
        let t1 = r1->Ok_0@;
        let w = t1[n - 2];
        assert(w.wf());
        lemma_product_exact(x, y, w);
        let u = t1.push(y);
        assert(u[n - 1] == y);
        assert(u.take(n - 2) =~= p);
        let t = r2->Ok_0@;
        assert(!y.zero_spec());
        let q = choose|q: Value| recip_is(y, Ok(q)) && q.wf() && crate::value::product_is(w, q, Ok(t[n - 2]));
        lemma_recip_exact(y, q);
        assert(t[n - 2].wf());
        lemma_product_exact(w, q, t[n - 2]);
        lemma_mul_div_cancel(x.en(), x.ed(), y.en(), y.ed(), w.en(), w.ed(), q.en(), q.ed(), t[n - 2].en(), t[n - 2].ed());
    }
}

/// Dividing by a non-zero integer `y` and then multiplying by it again
/// (pushed once more) gives back the number `x` below it, as a rational;
/// the rest of the stack is kept. (The calls give well-formed stacks, which
/// the law uses.)
pub proof fn law_divide_then_multiply(p: Seq<Value>, x: Int, y: Int)
    requires
        x.wf(),
        y.wf(),
        y.val() != 0,
    ensures
        forall|r1: Result<Vec<Value>, RuntimeError>, r2: Result<Vec<Value>, RuntimeError>|
            op_is(Op::Div, p.push(Value::Integer(x)).push(Value::Integer(y)), r1) && (r1 is Ok
                ==> stack_wf(r1->Ok_0@)) && #[trigger] op_is(
                Op::Mul,
                r1->Ok_0@.push(Value::Integer(y)),
                r2,
            ) ==> r1 is Ok && (r2 matches Ok(t) && t@.len() == p.len() + 1 && t@.take(p.len() as int)
                == p && (t@[p.len() as int] matches Value::Rational(z) && z.nv() == x.val() * z.dv())),
{
    assert forall|r1: Result<Vec<Value>, RuntimeError>, r2: Result<Vec<Value>, RuntimeError>|
        op_is(Op::Div, p.push(Value::Integer(x)).push(Value::Integer(y)), r1) && (r1 is Ok
            ==> stack_wf(r1->Ok_0@)) && #[trigger] op_is(
            Op::Mul,
            r1->Ok_0@.push(Value::Integer(y)),
            r2,
        ) implies r1 is Ok && (r2 matches Ok(t) && t@.len() == p.len() + 1 && t@.take(p.len() as int)
            == p && (t@[p.len() as int] matches Value::Rational(z) && z.nv() == x.val() * z.dv())) by {
        let s = p.push(Value::Integer(x)).push(Value::Integer(y));
        let n = s.len() as int;
        assert(s[n - 2] == Value::Integer(x));
        assert(s[n - 1] == Value::Integer(y));
        assert(s.take(n - 2) =~= p);
        let t1 = r1->Ok_0@;
        let ry = choose|ry: Value| recip_is(Value::Integer(y), Ok(ry)) && ry.wf() && crate::value::product_is(Value::Integer(x), ry, Ok(t1[n - 2]));
        assert(ry is Rational);
        let q = ry->Rational_0;
        assert(product_ordered(Value::Integer(x), ry, Ok(t1[n - 2])));
        assert(t1[n - 2] is Rational);
        let w = t1[n - 2]->Rational_0;
        let u = t1.push(Value::Integer(y));
        assert(u[n - 1] == Value::Integer(y));
        assert(u.take(n - 2) =~= p);
        let t = r2->Ok_0@;
        assert(product_ordered(Value::Integer(y), t1[n - 2], Ok(t[n - 2])));
        assert(t[n - 2] is Rational);
        let z = t[n - 2]->Rational_0;
        let (xv, yv) = (x.val(), y.val());
        // w stands for x * q, z for y * w
        assert(w.nv() * q.dv() == (xv * q.nv()) * w.dv());
        assert(z.nv() * w.dv() == (yv * w.nv()) * z.dv());
        assert(t1[n - 2].wf());
        if yv > 0 {
            assert(z.nv() == xv * z.dv()) by (nonlinear_arith)
                requires
                    w.nv() * q.dv() == (xv * q.nv()) * w.dv(),
                    z.nv() * w.dv() == (yv * w.nv()) * z.dv(),
                    q.nv() == 1,
                    q.dv() == yv,
                    yv > 0,
                    w.dv() != 0,
            ;
        } else {
            assert(z.nv() == xv * z.dv()) by (nonlinear_arith)
                requires
                    w.nv() * q.dv() == (xv * q.nv()) * w.dv(),
                    z.nv() * w.dv() == (yv * w.nv()) * z.dv(),
                    q.nv() == -1,
                    q.dv() == -yv,
                    yv < 0,
                    w.dv() != 0,
            ;
        }
    }
}

/// Cross-multiplied, `(x / y) y` is `x` again, for `y` not zero; `q` stands
/// for `1 / y`.
proof fn lemma_div_mul_cancel(xn: int, xd: int, yn: int, yd: int, wn: int, wd: int, qn: int, qd: int, zn: int, zd: int)
    requires
        xd > 0,
        yd > 0,
        wd > 0,
        qd > 0,
        zd > 0,
        wn * (xd * qd) == (xn * qn) * wd,
        qn * yn == yd * qd,
        zn * (wd * yd) == (wn * yn) * zd,
    ensures
        zn * xd == xn * zd,
{
    let m = wd * yd * qd;
    let a = wn * xd * qd;
    let b = qn * yn;
    assert(zn * (wd * yd) * (xd * qd) == (wn * yn) * zd * (xd * qd));
    assert(zn * (wd * yd) * (xd * qd) == zn * xd * m) by (nonlinear_arith)
        requires
            m == wd * yd * qd,
    ;
    assert((wn * yn) * zd * (xd * qd) == a * yn * zd) by (nonlinear_arith)
        requires
            a == wn * xd * qd,
    ;
    assert(a == xn * qn * wd) by (nonlinear_arith)
        requires
            a == wn * xd * qd,
            wn * (xd * qd) == (xn * qn) * wd,
    ;
    assert(a * yn * zd == xn * wd * zd * b) by (nonlinear_arith)
        requires
            a == xn * qn * wd,
            b == qn * yn,
    ;
    assert(xn * wd * zd * b == xn * zd * m) by (nonlinear_arith)
        requires
            b == yd * qd,
            m == wd * yd * qd,
    ;
    assert(m > 0) by (nonlinear_arith)
        requires
            m == wd * yd * qd,
            wd > 0,
            yd > 0,
            qd > 0,
    ;
    assert(zn * xd == xn * zd) by (nonlinear_arith)
        requires
            zn * xd * m == xn * zd * m,
            m > 0,
    ;
}

/// Dividing an integer or rational `x` by a non-zero integer or rational
/// `y` and then multiplying by `y` again (pushed once more) gives back the
/// number `x`; the rest of the stack is kept. (The calls give well-formed
/// stacks, which the law uses.)
pub proof fn law_divide_then_multiply_exact(p: Seq<Value>, x: Value, y: Value)
    requires
        x.wf(),
        y.wf(),
        x.is_exact(),
        y.is_exact(),
        y.en() != 0,
    ensures
        forall|r1: Result<Vec<Value>, RuntimeError>, r2: Result<Vec<Value>, RuntimeError>|
            op_is(Op::Div, p.push(x).push(y), r1) && (r1 is Ok ==> stack_wf(r1->Ok_0@)) && #[trigger] op_is(
                Op::Mul,
                r1->Ok_0@.push(y),
                r2,
            ) && (r2 is Ok ==> stack_wf(r2->Ok_0@)) ==> r1 is Ok && (r2 matches Ok(t) && t@.len() == p.len()
                + 1 && t@.take(p.len() as int) == p && t@[p.len() as int].is_exact() && t@[p.len() as int].en()
                * x.ed() == x.en() * t@[p.len() as int].ed()),
{
    assert forall|r1: Result<Vec<Value>, RuntimeError>, r2: Result<Vec<Value>, RuntimeError>|
        op_is(Op::Div, p.push(x).push(y), r1) && (r1 is Ok ==> stack_wf(r1->Ok_0@)) && #[trigger] op_is(
            Op::Mul,
            r1->Ok_0@.push(y),
            r2,
        ) && (r2 is Ok ==> stack_wf(r2->Ok_0@)) implies r1 is Ok && (r2 matches Ok(t) && t@.len() == p.len()
            + 1 && t@.take(p.len() as int) == p && t@[p.len() as int].is_exact() && t@[p.len() as int].en()
            * x.ed() == x.en() * t@[p.len() as int].ed()) by {
        let s = p.push(x).push(y);
        let n = s.len() as int;
        assert(s[n - 2] == x);
        assert(s[n - 1] == y);
        assert(s.take(n - 2) =~= p);
        assert(x.is_number() && y.is_number());
        assert(!y.zero_spec());
        let t1 = r1->Ok_0@;
        let w = t1[n - 2];
        assert(w.wf());
        let q = choose|q: Value| recip_is(y, Ok(q)) && q.wf() && product_is(x, q, Ok(w));
        lemma_recip_exact(y, q);
        lemma_product_exact(x, q, w);
        let u = t1.push(y);
        assert(u[n - 1] == y);
        assert(u.take(n - 2) =~= p);
        let t = r2->Ok_0@;
        assert(t[n - 2].wf());
        lemma_product_exact(w, y, t[n - 2]);
        lemma_div_mul_cancel(x.en(), x.ed(), y.en(), y.ed(), w.en(), w.ed(), q.en(), q.ed(), t[n - 2].en(), t[n - 2].ed());
    }
}

/// A bracketed sub-program run on a stack whose top is a list sees only the
/// list's elements: whatever it ends in is what running the sub-program on
/// those elements alone leaves on the rest of the stack, which is kept.
pub proof fn law_scope_sees_only_its_list(sub: Vec<(Token, Loc)>, loc: Loc, s: Seq<Value>, v: Vec<Value>, r: Result<Seq<Value>, (RuntimeError, Loc)>)
    requires
        runs(seq![(Token::Scope(sub), loc)], s.push(Value::List(v)), r),
    ensures
        exists|res: Result<Seq<Value>, (RuntimeError, Loc)>| #[trigger] outcome(res) && runs(sub@, v@, res) && scope_leaves(res, s, r),
{
    let toks = seq![(Token::Scope(sub), loc)];
    let st = s.push(Value::List(v));
    assert(toks.last() == (Token::Scope(sub), loc));
    assert(toks.drop_last() =~= Seq::<(Token, Loc)>::empty());
    assert(st.last() == Value::List(v));
    assert(st.drop_last() =~= s);
    let mid = choose|mid: Result<Seq<Value>, (RuntimeError, Loc)>|
        #[trigger] outcome(mid) && step_done(toks.last().0, toks.last().1, st, mid) && match mid {
            Ok(s2) => runs(toks.drop_last(), s2, r),
            Err(e) => r == Err::<Seq<Value>, (RuntimeError, Loc)>(e),
        };
    assert(r == mid);
    let res = choose|res: Result<Seq<Value>, (RuntimeError, Loc)>|
        #[trigger] outcome(res) && runs(sub@, st.last()->List_0@, res) && scope_leaves(res, st.drop_last(), mid);
    assert(outcome(res) && runs(sub@, v@, res) && scope_leaves(res, s, r));
}

} // verus!
