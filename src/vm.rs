//! The evaluator: runs a token sequence right to left against a stack.
use crate::builtins::{builtin, builtin_spec, call_is, fits, stack_wf, Builtin, Op};
use crate::err::RuntimeError;
use crate::parser::{is_literal, lemma_lits_wf, lemma_toks_wf, toks_wf, Loc, Token};
use crate::value::{lemma_all_wf, neg_is, rat_float, same_rat, Value};
use vstd::prelude::*;

verus! {

/// The value a literal token stands for (a complex literal is rounded to
/// floating parts).
pub open spec fn scalar_lit_is(t: Token, v: Value) -> bool {
    match t {
        Token::Integer(n) => v matches Value::Integer(m) && m.val() == n.val(),
        Token::Rational(q) => v matches Value::Rational(z) && same_rat(z, q),
        Token::Complex(..) => v is Complex,
        Token::Pi(q) => v matches Value::Pi(z, e) && same_rat(z, q) && e == 1,
        Token::Infinity => v == Value::Infinity(1),
        Token::Epsilon => v == Value::Epsilon(1),
        _ => false,
    }
}

/// The value a literal or a list of literals pushes.
pub open spec fn lit_is(t: Token, v: Value) -> bool {
    match t {
        Token::List(ts) => v matches Value::List(w) && w.len() == ts.len() && forall|i: int|
            0 <= i < ts.len() ==> scalar_lit_is(#[trigger] ts[i], w[i]),
        _ => scalar_lit_is(t, v),
    }
}

pub open spec fn view_res(r: Result<Vec<Value>, (RuntimeError, Loc)>) -> Result<Seq<Value>, (RuntimeError, Loc)> {
    match r {
        Ok(t) => Ok(t@),
        Err(e) => Err(e),
    }
}

pub open spec fn call_res(r: Result<Vec<Value>, RuntimeError>, loc: Loc) -> Result<Seq<Value>, (RuntimeError, Loc)> {
    match r {
        Ok(t) => Ok(t@),
        Err(e) => Err((e, loc)),
    }
}

/// A builtin call at `loc`, its error located there.
pub open spec fn call_at(op: Op, arity: usize, s: Seq<Value>, loc: Loc, r: Result<Seq<Value>, (RuntimeError, Loc)>) -> bool {
    exists|c: Result<Vec<Value>, RuntimeError>| call_is(op, arity, s, c) && r == call_res(c, loc)
}

pub open spec fn underflow(s: Seq<Value>, loc: Loc) -> Result<Seq<Value>, (RuntimeError, Loc)> {
    Err((RuntimeError::InvalidPop { len: s.len() as usize, arity: 1 }, loc))
}

/// What one token at `loc` does to the stack `s`. For a bracketed
/// sub-program on a list this gives only the shape of the result; `step_done`
/// ties it to the run of the sub-program.
pub open spec fn step_is(tok: Token, loc: Loc, s: Seq<Value>, r: Result<Seq<Value>, (RuntimeError, Loc)>) -> bool
    decreases tok,
{
    let n = s.len() as int;
    match tok {
        Token::Dup => if n == 0 {
            r == underflow(s, loc)
        } else {
            r matches Ok(t) && t.len() == n + 1 && t.take(n) == s && t[n].same(s[n - 1])
        },
        Token::Pop => if n == 0 {
            r == underflow(s, loc)
        } else {
            r == Ok::<Seq<Value>, (RuntimeError, Loc)>(s.drop_last())
        },
        Token::Minus => if n == 0 {
            r == underflow(s, loc)
        } else {
            (r matches Ok(t) ==> t.len() == n && t.take(n - 1) == s.take(n - 1) && neg_is(
                s[n - 1],
                Ok(t[n - 1]),
            )) && (r matches Err(e) ==> e.1 == loc && neg_is(s[n - 1], Err(e.0)))
        },
        Token::Flip => call_at(Op::Flip, 2, s, loc, r),
        Token::FunctionCall(c) => match builtin_spec(c) {
            Some(b) => call_at(b.action, b.arity, s, loc, r),
            None => r == Err::<Seq<Value>, (RuntimeError, Loc)>((RuntimeError::FunctionNotFound(c), loc)),
        },
        Token::Inverse(b, _) => match *b {
            Token::FunctionCall(c) => match builtin_spec(c) {
                Some(bi) => call_at(bi.inverse, bi.arity, s, loc, r),
                None => r == Err::<Seq<Value>, (RuntimeError, Loc)>((RuntimeError::FunctionNotFound(c), loc)),
            },
            _ => r == Err::<Seq<Value>, (RuntimeError, Loc)>((RuntimeError::InverseOfNonFunction, loc)),
        },
        Token::Scope(sub) => if n == 0 {
            r == underflow(s, loc)
        } else {
            match s[n - 1] {
                Value::List(_) => r matches Ok(t) ==> (t.len() == n - 1 || t.len() == n) && t.take(
                    n - 1,
                ) == s.drop_last(),
                _ => r matches Err(e) && e.1 == loc && e.0 is TypeMissmatch,
            }
        },
        _ => r matches Ok(t) && t.len() == n + 1 && t.take(n) == s && lit_is(tok, t[n]),
    }
}

proof fn lemma_runs_step(
    toks: Seq<(Token, Loc)>,
    s: Seq<Value>,
    mid: Result<Seq<Value>, (RuntimeError, Loc)>,
    r: Result<Seq<Value>, (RuntimeError, Loc)>,
)
    requires
        toks.len() > 0,
        step_done(toks.last().0, toks.last().1, s, mid),
        match mid {
            Ok(s2) => runs(toks.drop_last(), s2, r),
            Err(e) => r == Err::<Seq<Value>, (RuntimeError, Loc)>(e),
        },
    ensures
        runs(toks, s, r),
{
    assert(outcome(mid));
}

/// Names an outcome, so that the quantifiers below have a term to match.
pub open spec fn outcome(r: Result<Seq<Value>, (RuntimeError, Loc)>) -> bool {
    true
}

/// What a bracketed sub-program whose run ended in `res` leaves on `rest`:
/// nothing, its one value, or a list of its values; or its error.
pub open spec fn scope_leaves(
    res: Result<Seq<Value>, (RuntimeError, Loc)>,
    rest: Seq<Value>,
    r: Result<Seq<Value>, (RuntimeError, Loc)>,
) -> bool {
    match res {
        Ok(st) => if st.len() == 0 {
            r == Ok::<Seq<Value>, (RuntimeError, Loc)>(rest)
        } else if st.len() == 1 {
            r == Ok::<Seq<Value>, (RuntimeError, Loc)>(rest.push(st[0]))
        } else {
            r matches Ok(t) && t.len() == rest.len() + 1 && t.take(rest.len() as int) == rest && (t.last() matches Value::List(
                w,
            ) && w@ == st)
        },
        Err(e) => r == Err::<Seq<Value>, (RuntimeError, Loc)>(e),
    }
}

/// What one token does, a bracketed sub-program on a list included: it runs
/// on a new stack that holds the list's elements.
pub open spec fn step_done(tok: Token, loc: Loc, s: Seq<Value>, r: Result<Seq<Value>, (RuntimeError, Loc)>) -> bool
    decreases tok,
{
    match tok {
        Token::Scope(sub) => if s.len() > 0 && s.last() is List {
            exists|res: Result<Seq<Value>, (RuntimeError, Loc)>|
                #[trigger] outcome(res) && runs(sub@, s.last()->List_0@, res) && scope_leaves(
                    res,
                    s.drop_last(),
                    r,
                )
        } else {
            step_is(tok, loc, s, r)
        },
        _ => step_is(tok, loc, s, r),
    }
}

/// Running `toks` right to left from the stack `s` may end in `r`.
pub open spec fn runs(toks: Seq<(Token, Loc)>, s: Seq<Value>, r: Result<Seq<Value>, (RuntimeError, Loc)>) -> bool
    decreases toks,
{
    if toks.len() == 0 {
        r == Ok::<Seq<Value>, (RuntimeError, Loc)>(s)
    } else {
        exists|mid: Result<Seq<Value>, (RuntimeError, Loc)>|
            #[trigger] outcome(mid) && step_done(toks.last().0, toks.last().1, s, mid) && match mid {
                Ok(s2) => runs(toks.drop_last(), s2, r),
                Err(e) => r == Err::<Seq<Value>, (RuntimeError, Loc)>(e),
            }
    }
}

/// The value of a literal token.
fn scalar_value(t: &Token) -> (v: Value)
    requires
        is_literal(*t),
        t.wf(),
    ensures
        scalar_lit_is(*t, v),
        v.wf(),
{
    match t {
        Token::Integer(n) => Value::Integer(n.copy()),
        Token::Rational(q) => Value::Rational(q.copy()),
        Token::Complex(a, b) => Value::Complex(rat_float(a), rat_float(b)),
        Token::Pi(q) => Value::Pi(q.copy(), 1),
        Token::Infinity => Value::Infinity(1),
        _ => Value::Epsilon(1),
    }
}

/// The value a literal token, or a list of literals, pushes.
pub fn literal_value(t: &Token) -> (v: Value)
    requires
        t.wf(),
        is_literal(*t) || t is List,
    ensures
        lit_is(*t, v),
        v.wf(),
{
    match t {
        Token::List(ts) => {
            proof {
                lemma_lits_wf(ts@);
            }
            let mut w: Vec<Value> = Vec::new();
            let mut i: usize = 0;
            while i < ts.len()
                invariant
                    *t == Token::List(*ts),
                    forall|j: int| 0 <= j < ts.len() ==> is_literal(#[trigger] ts[j]) && ts[j].wf(),
                    i <= ts.len(),
                    w.len() == i,
                    forall|j: int| 0 <= j < i ==> scalar_lit_is(#[trigger] ts[j], w[j]),
                    forall|j: int| 0 <= j < i ==> #[trigger] w[j].wf(),
                decreases ts.len() - i,
            {
                let v = scalar_value(&ts[i]);
                w.push(v);
                i += 1;
            }
            proof {
                lemma_all_wf(w@);
            }
            Value::List(w)
        },
        _ => scalar_value(t),
    }
}

/// Takes the top value off a stack that is not empty.
fn pop_top(stack: &mut Vec<Value>) -> (x: Value)
    requires
        old(stack).len() > 0,
    ensures
        final(stack)@ == old(stack)@.drop_last(),
        x == old(stack)@.last(),
{
    match stack.pop() {
        Some(x) => x,
        None => Value::Undefined,
    }
}

/// Runs a builtin at `loc`.
fn call_builtin(b: Builtin, inverse: bool, stack: Vec<Value>, loc: Loc) -> (r: Result<Vec<Value>, (RuntimeError, Loc)>)
    requires
        fits(b),
        stack_wf(stack@),
    ensures
        call_at(if inverse { b.inverse } else { b.action }, b.arity, stack@, loc, view_res(r)),
        r matches Ok(t) ==> stack_wf(t@),
{
    let c = if inverse {
        b.call_inverse(stack)
    } else {
        b.call(stack)
    };
    proof {
        assert(view_res(match c { Ok(t) => Ok(t), Err(e) => Err((e, loc)) }) == call_res(c, loc));
    }
    match c {
        Ok(t) => Ok(t),
        Err(e) => Err((e, loc)),
    }
}

/// Runs one token at `loc`.
pub fn step(tok: &Token, loc: Loc, stack: Vec<Value>) -> (r: Result<Vec<Value>, (RuntimeError, Loc)>)
    requires
        tok.wf(),
        stack_wf(stack@),
    ensures
        step_is(*tok, loc, stack@, view_res(r)),
        step_done(*tok, loc, stack@, view_res(r)),
        r matches Ok(t) ==> stack_wf(t@),
    decreases tok,
{
    let ghost s = stack@;
    let n = stack.len();
    let mut stack = stack;
    match tok {
        Token::Dup => {
            if n == 0 {
                return Err((RuntimeError::InvalidPop { len: 0, arity: 1 }, loc));
            }
            let c = stack[n - 1].copy();
            stack.push(c);
            proof {
                assert(stack@.take(n as int) =~= s);
            }
            Ok(stack)
        },
        Token::Pop => {
            if n == 0 {
                return Err((RuntimeError::InvalidPop { len: 0, arity: 1 }, loc));
            }
            let _ = pop_top(&mut stack);
            Ok(stack)
        },
        Token::Minus => {
            if n == 0 {
                return Err((RuntimeError::InvalidPop { len: 0, arity: 1 }, loc));
            }
            let x = pop_top(&mut stack);
            match x.neg() {
                Ok(v) => {
                    stack.push(v);
                    proof {
                        assert(stack@.take(n - 1) =~= s.take(n - 1));
                    }
                    Ok(stack)
                },
                Err(e) => Err((e, loc)),
            }
        },
        Token::Flip => call_builtin(Builtin::new(Op::Flip, Op::Flip, 2), false, stack, loc),
        Token::FunctionCall(c) => match builtin(*c) {
            Some(b) => call_builtin(b, false, stack, loc),
            None => Err((RuntimeError::FunctionNotFound(*c), loc)),
        },
        Token::Inverse(b, _) => match &**b {
            Token::FunctionCall(c) => match builtin(*c) {
                Some(bi) => call_builtin(bi, true, stack, loc),
                None => Err((RuntimeError::FunctionNotFound(*c), loc)),
            },
            _ => Err((RuntimeError::InverseOfNonFunction, loc)),
        },
        Token::Scope(sub) => {
            if n == 0 {
                return Err((RuntimeError::InvalidPop { len: 0, arity: 1 }, loc));
            }
            let top = pop_top(&mut stack);
            proof {
                assert(s[n - 1].wf());
                assert forall|j: int| 0 <= j < stack.len() implies #[trigger] stack@[j].wf() by {
                    assert(s[j].wf());
                }
            }
            match top {
                Value::List(vals) => {
                    proof {
                        lemma_all_wf(vals@);
                        assert(decreases_to!(*tok => *sub));
                    }
                    let res = run_tokens(sub, vals);
                    proof {
                        assert(outcome(view_res(res)));
                    }
                    match res {
                        Ok(st) => {
                            let ghost stv = st@;
                            let mut st = st;
                            if st.len() == 0 {
                                proof {
                                    assert(stack@.take(n - 1) =~= s.drop_last());
                                }
                                Ok(stack)
                            } else if st.len() == 1 {
                                let v = pop_top(&mut st);
                                stack.push(v);
                                proof {
                                    assert(stack@.take(n - 1) =~= s.drop_last());
                                }
                                Ok(stack)
                            } else {
                                proof {
                                    lemma_all_wf(st@);
                                }
                                stack.push(Value::List(st));
                                proof {
                                    assert(stack@.take(n - 1) =~= s.drop_last());
                                }
                                Ok(stack)
                            }
                        },
                        Err(e) => Err(e),
                    }
                },
                _ => Err((RuntimeError::TypeMissmatch { expected: "List".to_owned(), got: "Number".to_owned() }, loc)),
            }
        },
        _ => {
            let v = literal_value(tok);
            stack.push(v);
            proof {
                assert(stack@.take(n as int) =~= s);
            }
            Ok(stack)
        },
    }
}

/// Runs `toks` right to left from `stack`.
pub fn run_tokens(toks: &Vec<(Token, Loc)>, stack: Vec<Value>) -> (r: Result<Vec<Value>, (RuntimeError, Loc)>)
    requires
        toks_wf(toks@),
        stack_wf(stack@),
    ensures
        runs(toks@, stack@, view_res(r)),
        r matches Ok(t) ==> stack_wf(t@),
    decreases toks,
{
    proof {
        lemma_toks_wf(toks@);
    }
    let ghost s0 = stack@;
    let mut cur = stack;
    proof {
        assert(toks@.take(toks.len() as int) =~= toks@);
    }
    let mut i: usize = toks.len();
    while i > 0
        invariant
            s0 == stack@,
            i <= toks.len(),
            forall|j: int| 0 <= j < toks.len() ==> (#[trigger] toks@[j]).0.wf(),
            stack_wf(cur@),
            forall|r: Result<Seq<Value>, (RuntimeError, Loc)>|
                runs(toks@.take(i as int), cur@, r) ==> #[trigger] runs(toks@, s0, r),
        decreases i,
    {
        let ghost before = cur@;
        let ghost pre = toks@.take(i as int);
        proof {
            assert(decreases_to!(*toks => toks@));
            assert(decreases_to!(toks@ => toks@[i - 1]));
            assert(pre.last() == toks@[i - 1]);
            assert(pre.drop_last() =~= toks@.take(i - 1));
        }
        let res = step(&toks[i - 1].0, toks[i - 1].1, cur);
        match res {
            Ok(t) => {
                cur = t;
                proof {
                    assert forall|r: Result<Seq<Value>, (RuntimeError, Loc)>|
                        runs(toks@.take(i - 1), cur@, r) implies #[trigger] runs(toks@, s0, r) by {
                        let mid = Ok::<Seq<Value>, (RuntimeError, Loc)>(cur@);
                        assert(step_done(pre.last().0, pre.last().1, before, mid));
                        lemma_runs_step(pre, before, mid, r);
                    }
                }
            },
            Err(e) => {
                proof {
                    let mid = Err::<Seq<Value>, (RuntimeError, Loc)>(e);
                    assert(step_done(pre.last().0, pre.last().1, before, mid));
                    lemma_runs_step(pre, before, mid, mid);
                    assert(runs(toks@, s0, mid));
                    assert(view_res(Err::<Vec<Value>, (RuntimeError, Loc)>(e)) == mid);
                }
                return Err(e);
            },
        }
        i -= 1;
    }
    proof {
        assert(toks@.take(0) =~= Seq::<(Token, Loc)>::empty());
        assert(runs(toks@.take(0), cur@, Ok(cur@)));
    }
    Ok(cur)
}

/// The evaluator's state: the stack, and the tokens it runs.
pub struct Env {
    pub stack: Vec<Value>,
    pub tokens: Vec<(Token, Loc)>,
}

impl Env {
    pub open spec fn tokens_spec(&self) -> Seq<(Token, Loc)> {
        self.tokens@
    }

    pub fn new(tokens: Vec<(Token, Loc)>) -> (r: Env)
        ensures
            r.stack@.len() == 0,
            r.tokens_spec() == tokens@,
    {
        Env { stack: Vec::new(), tokens }
    }

    /// Takes new tokens to run; the stack stays.
    pub fn repurpose(&mut self, tokens: Vec<(Token, Loc)>)
        ensures
            final(self).tokens_spec() == tokens@,
            final(self).stack == old(self).stack,
    {
        self.tokens = tokens;
    }

    /// Runs the tokens right to left on the stack. On success the stack is
    /// the run's result; a failed run leaves the stack empty.
    pub fn run(&mut self) -> (r: Result<(), (RuntimeError, Loc)>)
        requires
            toks_wf(old(self).tokens_spec()),
            stack_wf(old(self).stack@),
        ensures
            final(self).tokens_spec() == old(self).tokens_spec(),
            stack_wf(final(self).stack@),
            runs(
                old(self).tokens_spec(),
                old(self).stack@,
                match r {
                    Ok(_) => Ok(final(self).stack@),
                    Err(e) => Err(e),
                },
            ),
            r is Err ==> final(self).stack@.len() == 0,
    {
        let mut start: Vec<Value> = Vec::new();
        core::mem::swap(&mut start, &mut self.stack);
        let res = run_tokens(&self.tokens, start);
        match res {
            Ok(t) => {
                self.stack = t;
                Ok(())
            },
            Err(e) => Err(e),
        }
    }
}

} // verus!
