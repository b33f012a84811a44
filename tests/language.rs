use astro_float::BigFloat;
use kuhi::builtins::{apply, builtin, Op};
use kuhi::err::{RuntimeError, SyntaxError};
use kuhi::formatter::Formatter;
use kuhi::num::{Int, Rat};
use kuhi::parser::{parse, Loc, Token};
use kuhi::value::Value;
use kuhi::vm::Env;

fn start() -> Loc {
    Loc { start: 0, end: 0, line: 1, column: 1 }
}

fn tokens(src: &str) -> Vec<(Token, Loc)> {
    let mut loc = start();
    match parse(src, &mut loc) {
        Ok(t) => t,
        Err((e, l, _)) => panic!("syntax error {:?} at {:?}", e, l),
    }
}

fn run(src: &str) -> Result<Vec<Value>, (RuntimeError, Loc)> {
    let mut env = Env::new(tokens(src));
    match env.run() {
        Ok(()) => Ok(env.stack),
        Err(e) => Err(e),
    }
}

fn whole(n: i64) -> Int {
    Int::from_i64(n)
}

fn rat(n: i64, d: i64) -> Rat {
    Rat::new(&whole(n), &whole(d))
}

fn cf(re: f64, im: f64) -> Value {
    Value::Complex(BigFloat::from_f64(re, 128), BigFloat::from_f64(im, 128))
}

fn integer(n: i64) -> Value {
    Value::Integer(whole(n))
}

#[test]
fn complex_literal_with_real_part() {
    let t = tokens("2i3");
    assert_eq!(t.len(), 1);
    assert_eq!(t[0].0, Token::Complex(rat(2, 1), rat(3, 1)));
    assert_eq!(t[0].1.start, 0);
    assert_eq!(t[0].1.end, 3);
}

#[test]
fn complex_literal_without_real_part() {
    let t = tokens("i3");
    assert_eq!(t.len(), 1);
    assert_eq!(t[0].0, Token::Complex(rat(0, 1), rat(3, 1)));
}

#[test]
fn complex_literal_defaults_and_signs() {
    assert_eq!(tokens("i")[0].0, Token::Complex(rat(0, 1), rat(1, 1)));
    assert_eq!(tokens("1i⁻2")[0].0, Token::Complex(rat(1, 1), rat(-2, 1)));
    assert_eq!(tokens("0.5i1.25")[0].0, Token::Complex(rat(1, 2), rat(5, 4)));
}

#[test]
fn minus_then_dot_after_i_is_an_error() {
    let mut loc = start();
    let r = parse("i⁻.5", &mut loc);
    assert!(matches!(r, Err((SyntaxError::InvalidSymbol('⁻'), _, _))));
}

#[test]
fn pi_literal_keeps_its_multiplier() {
    let t = tokens("3π");
    assert_eq!(t.len(), 1);
    assert_eq!(t[0].0, Token::Pi(rat(3, 1)));
    let stack = run("3π").unwrap();
    assert_eq!(stack, vec![Value::Pi(rat(3, 1), 1)]);
}

#[test]
fn tau_is_twice_pi() {
    assert_eq!(tokens("τ")[0].0, Token::Pi(rat(2, 1)));
    assert_eq!(tokens("1.5τ")[0].0, Token::Pi(rat(3, 1)));
    assert_eq!(tokens("π")[0].0, Token::Pi(rat(1, 1)));
}

#[test]
fn add_runs_right_to_left() {
    assert_eq!(run("+ 1 2").unwrap(), vec![integer(3)]);
}

#[test]
fn subtract_takes_top_from_below() {
    // 2 is pushed first, then 5 on top: the top is taken from the value below.
    assert_eq!(run("- 5 2").unwrap(), vec![integer(-3)]);
}

#[test]
fn multiply_and_power_exactly() {
    assert_eq!(run("× 6 7").unwrap(), vec![integer(42)]);
    assert_eq!(run("ⁿ 2 3").unwrap(), vec![integer(9)]);
    assert_eq!(run("ⁿ 10 2").unwrap(), vec![integer(1024)]);
    assert_eq!(run("ⁿ ⁻2 2").unwrap(), vec![Value::Rational(rat(1, 4))]);
    assert_eq!(run("√ 2 3").unwrap(), vec![Value::Rational(rat(1, 9))]);
}

#[test]
fn big_integers_carry_into_new_limbs() {
    let stack = run("+ 4294967295 1").unwrap();
    assert_eq!(stack, vec![Value::Integer(Int { neg: false, mag: vec![0, 1] })]);
    assert_eq!(run("× 4294967296 4294967296").unwrap()[0], Value::Integer(Int { neg: false, mag: vec![0, 0, 1] }));
}

#[test]
fn decimal_literals_are_reduced_rationals() {
    assert_eq!(tokens("0.5")[0].0, Token::Rational(rat(1, 2)));
    assert_eq!(tokens("2.50")[0].0, Token::Rational(rat(5, 2)));
    assert_eq!(tokens("⁻1.5")[0].0, Token::Rational(rat(-3, 2)));
    // a point with no digit after it is a duplicate
    let t = tokens("3.");
    assert_eq!(t[0].0, Token::Integer(whole(3)));
    assert_eq!(t[1].0, Token::Dup);
}

#[test]
fn division_gives_rationals() {
    assert_eq!(run("÷ 3 1").unwrap(), vec![Value::Rational(rat(1, 3))]);
    assert_eq!(run("÷ 4 6").unwrap(), vec![Value::Rational(rat(3, 2))]);
}

#[test]
fn scope_sees_only_the_list() {
    assert_eq!(
        run("( . ) 2‿3‿4").unwrap(),
        vec![Value::List(vec![integer(2), integer(3), integer(4), integer(4)])]
    );
    let stack = run("( . ) 2‿3‿4 9").unwrap();
    assert_eq!(stack.len(), 2);
    assert_eq!(stack[0], integer(9));
    assert_eq!(stack[1], Value::List(vec![integer(2), integer(3), integer(4), integer(4)]));
}

#[test]
fn scope_with_one_or_no_result() {
    assert_eq!(run("(+) 2‿3").unwrap(), vec![integer(5)]);
    assert_eq!(run("(, ,) 2‿3").unwrap(), Vec::<Value>::new());
}

#[test]
fn scope_on_a_number_is_a_type_error() {
    assert!(matches!(run("(.) 2"), Err((RuntimeError::TypeMissmatch { .. }, _))));
}

#[test]
fn unmatched_open_parenthesis() {
    let mut loc = start();
    match parse("(", &mut loc) {
        Err((SyntaxError::UnmatchedParenthesis(true), l, _)) => {
            assert_eq!(l.start, 0);
            assert_eq!(l.end, 1);
        },
        other => panic!("unexpected {:?}", other),
    }
    let mut loc = start();
    match parse("1 (+ 2", &mut loc) {
        Err((SyntaxError::UnmatchedParenthesis(true), l, partial)) => {
            assert_eq!(l.start, 2);
            assert_eq!(partial.len(), 1);
        },
        other => panic!("unexpected {:?}", other),
    }
}

#[test]
fn stray_close_parenthesis() {
    let mut loc = start();
    assert!(matches!(parse(")", &mut loc), Err((SyntaxError::UnmatchedParenthesis(false), _, _))));
}

#[test]
fn divide_by_zero_halts_at_the_divide() {
    match run("÷ 0 5") {
        Err((RuntimeError::DivideByZero, l)) => {
            assert_eq!(l.start, 0);
            assert_eq!(l.end, 1);
        },
        other => panic!("unexpected {:?}", other),
    }
    let mut env = Env::new(tokens("÷ 0 5"));
    assert!(env.run().is_err());
    assert!(env.stack.is_empty());
}

#[test]
fn chains_make_lists() {
    let t = tokens("1‿2‿3");
    assert_eq!(t.len(), 1);
    assert_eq!(t[0].0, Token::List(vec![Token::Integer(whole(1)), Token::Integer(whole(2)), Token::Integer(whole(3))]));
    assert_eq!(tokens("1‿")[0].0, Token::List(vec![Token::Integer(whole(1))]));
}

#[test]
fn chain_errors() {
    let mut loc = start();
    assert!(matches!(parse("‿1", &mut loc), Err((SyntaxError::InvalidSymbol('‿'), _, _))));
    let mut loc = start();
    assert!(matches!(parse("1‿ 2", &mut loc), Err((SyntaxError::InvalidSymbol(' '), _, _))));
}

#[test]
fn inverse_wraps_the_next_token() {
    let t = tokens("⁻¹+ 1 2");
    assert_eq!(t.len(), 3);
    assert!(matches!(&t[0].0, Token::Inverse(b, _) if **b == Token::FunctionCall('+')));
    // the inverse of + subtracts: 1 - 2 ... with 2 pushed first, 1 on top: 2 - 1
    assert_eq!(run("⁻¹+ 1 2").unwrap(), vec![integer(1)]);
    assert_eq!(run("⁻¹× 2 6").unwrap(), vec![Value::Rational(rat(3, 1))]);
}

#[test]
fn lonely_inverse() {
    let mut loc = start();
    assert!(matches!(parse("1 ⁻¹", &mut loc), Err((SyntaxError::LonelyInverse, _, _))));
}

#[test]
fn runtime_errors() {
    assert!(matches!(run("q 1"), Err((RuntimeError::FunctionNotFound('q'), _))));
    assert!(matches!(run("+ 1"), Err((RuntimeError::InvalidPop { len: 1, arity: 2 }, _))));
    assert!(matches!(run("."), Err((RuntimeError::InvalidPop { len: 0, arity: 1 }, _))));
    assert!(matches!(run("+ 1‿2 3"), Err((RuntimeError::TypeMissmatch { .. }, _))));
    match run("ι 1‿2") {
        Err((RuntimeError::TypeMissmatch { expected, got }, _)) => {
            assert_eq!(expected, "Integer");
            assert_eq!(got, "List");
        },
        other => panic!("unexpected {:?}", other),
    }
    assert!(matches!(run("ⁿ 4294967296 2"), Err((RuntimeError::ExponentTooBig(_), _))));
    assert!(matches!(run("ⁿ 1‿2 2"), Err((RuntimeError::TypeMissmatch { .. }, _))));
    assert!(matches!(run("⁻¹ι 3"), Err((RuntimeError::NoInverse, _))));
    assert!(matches!(run("⁻¹3"), Err((RuntimeError::InverseOfNonFunction, _))));
    assert!(matches!(run("ι 0"), Err((RuntimeError::InvalidIotaValue, _))));
    assert!(matches!(run("ι ⁻2"), Err((RuntimeError::InvalidIotaValue, _))));
}

#[test]
fn list_validation() {
    let mixed = Value::List(vec![integer(1), Value::List(vec![integer(2)])]);
    assert!(matches!(mixed.validate_list(), Err(RuntimeError::ListTypeMissmatch { .. })));
    let ragged = Value::List(vec![Value::List(vec![integer(1)]), Value::List(vec![integer(1), integer(2)])]);
    assert!(matches!(ragged.validate_list(), Err(RuntimeError::ListElementSizeMissmatch { first: 1, second: 2 })));
    let nums = Value::List(vec![integer(1), Value::Rational(rat(1, 2))]);
    assert_eq!(nums.validate_list().unwrap(), "Rational");
    assert_eq!(Value::List(vec![]).validate_list().unwrap(), "Integer");
    assert_eq!(nums.types(), vec!["List".to_string(), "Rational".to_string()]);
    assert_eq!(Value::Pi(rat(1, 1), 1).types(), vec!["Number".to_string(), "Float".to_string(), "Pi".to_string()]);
}

#[test]
fn iota_counts_up() {
    assert_eq!(run("ι 3").unwrap(), vec![Value::List(vec![integer(1), integer(2), integer(3)])]);
}

#[test]
fn swap_and_roll() {
    assert_eq!(run("↔ 1 2").unwrap(), vec![integer(1), integer(2)]);
    assert_eq!(run("↺ 1 2 3").unwrap(), vec![integer(1), integer(2), integer(3)]);
    assert_eq!(run("↺ 1 2 3").unwrap().len(), 3);
    assert_eq!(run("↕ 1 2").unwrap(), vec![integer(1), integer(2)]);
}

#[test]
fn stack_ops_dup_pop_negate() {
    assert_eq!(run(". 4").unwrap(), vec![integer(4), integer(4)]);
    assert_eq!(run(", 4 5").unwrap(), vec![integer(5)]);
    assert_eq!(run("⁻ 4").unwrap(), vec![integer(-4)]);
    assert_eq!(run("⁻4").unwrap(), vec![integer(-4)]);
}

#[test]
fn pow_broadcasts_over_lists() {
    assert_eq!(run("ⁿ 2 1‿2‿3").unwrap(), vec![Value::List(vec![integer(1), integer(4), integer(9)])]);
}

#[test]
fn sine_of_zero_is_a_zero_float() {
    let stack = run("◯ 0").unwrap();
    match &stack[0] {
        Value::Float(x) => assert!(x.is_zero()),
        other => panic!("unexpected {:?}", other),
    }
    assert!(matches!(run("◯ 1‿2").unwrap()[0], Value::List(ref v) if v.len() == 2));
}

#[test]
fn pi_meets_integer_as_float() {
    assert!(matches!(run("+ π 1").unwrap()[0], Value::Float(_)));
    assert!(matches!(run("× π 2").unwrap()[0], Value::Float(_)));
    assert_eq!(run("+ π π").unwrap(), vec![Value::Pi(rat(2, 1), 1)]);
}

#[test]
fn limits() {
    assert_eq!(run("+ ∞ 5").unwrap(), vec![Value::Infinity(1)]);
    assert_eq!(run("+ ∞ ⁻ ∞").unwrap(), vec![Value::Undefined]);
    assert_eq!(run("× ∞ ⁻3").unwrap(), vec![Value::Infinity(-1)]);
    assert_eq!(run("× ∞ 0").unwrap(), vec![Value::Undefined]);
    assert_eq!(run("+ ε 7").unwrap(), vec![integer(7)]);
    assert_eq!(run("× ε ε").unwrap(), vec![Value::Epsilon(1)]);
    assert_eq!(Value::Infinity(1).reciprocal().unwrap(), Value::Epsilon(1));
    assert_eq!(run("× ∞ ε").unwrap(), vec![Value::Undefined]);
}

#[test]
fn complex_arithmetic() {
    assert_eq!(run("× i i").unwrap(), vec![cf(-1.0, 0.0)]);
    assert_eq!(run("+ 1i2 3").unwrap(), vec![cf(4.0, 2.0)]);
    assert_eq!(run("÷ i 1").unwrap(), vec![cf(0.0, -1.0)]);
}

#[test]
fn negation_round_trip_on_integers() {
    let a = integer(17);
    let b = integer(-5);
    let r = a.add(b.neg().unwrap()).unwrap();
    assert_eq!(r, integer(22));
    assert_eq!(integer(3).add(integer(10).neg().unwrap()).unwrap(), integer(-7));
}

#[test]
fn reciprocal_twice_restores() {
    let q = Value::Rational(rat(-2, 3));
    assert_eq!(q.copy().reciprocal().unwrap().reciprocal().unwrap(), q);
    let p = Value::Pi(rat(3, 4), -1);
    assert_eq!(p.copy().reciprocal().unwrap().reciprocal().unwrap(), p);
    assert_eq!(Value::Infinity(-1).reciprocal().unwrap().reciprocal().unwrap(), Value::Infinity(-1));
    assert_eq!(integer(5).reciprocal().unwrap().reciprocal().unwrap(), Value::Rational(rat(5, 1)));
    assert!(matches!(integer(0).reciprocal(), Err(RuntimeError::DivideByZero)));
}

#[test]
fn builtins_undo_each_other() {
    let swap = builtin('↕').unwrap();
    let s = vec![integer(1), integer(2), integer(3)];
    let once = swap.call(s).unwrap();
    assert_eq!(once, vec![integer(1), integer(3), integer(2)]);
    assert_eq!(swap.call_inverse(once).unwrap(), vec![integer(1), integer(2), integer(3)]);

    let plus = builtin('+').unwrap();
    let mut t = plus.call(vec![integer(9), integer(4), integer(6)]).unwrap();
    assert_eq!(t, vec![integer(9), integer(10)]);
    t.push(integer(6));
    assert_eq!(plus.call_inverse(t).unwrap(), vec![integer(9), integer(4)]);

    let times = builtin('×').unwrap();
    let mut t = times.call(vec![integer(4), integer(6)]).unwrap();
    t.push(integer(6));
    assert_eq!(times.call_inverse(t).unwrap(), vec![Value::Rational(rat(4, 1))]);

    let roll = builtin('↺').unwrap();
    let r = roll.call(vec![integer(1), integer(2), integer(3)]).unwrap();
    assert_eq!(r, vec![integer(3), integer(2), integer(1)]);
    assert_eq!(roll.call_inverse(r).unwrap(), vec![integer(1), integer(2), integer(3)]);

    assert!(matches!(plus.call(vec![integer(1)]), Err(RuntimeError::InvalidPop { len: 1, arity: 2 })));
    assert!(builtin('q').is_none());
    assert!(matches!(apply(Op::NoInverse, vec![]), Err(RuntimeError::NoInverse)));
}

#[test]
fn formatter_replaces_mnemonics() {
    assert_eq!(Formatter::new("pi".to_string()).format(), "π");
    assert_eq!(Formatter::new("sinh sin 1".to_string()).format(), "ⓔ ◯ 1");
    assert_eq!(Formatter::new("inverse pow 2 3".to_string()).format(), "⁻¹ ⁿ 2 3");
    assert_eq!(Formatter::new("epsilon * infinity % 2_3".to_string()).format(), "ε × ∞ ÷ 2‿3");
    assert_eq!(Formatter::new("`1".to_string()).format(), "⁻1");
    assert_eq!(Formatter::new("plain".to_string()).format(), "plain");
}

#[test]
fn notes() {
    assert_eq!(SyntaxError::LonelyInverse.note(), "must have something to invert");
    assert_eq!(SyntaxError::UnmatchedParenthesis(true).note(), "there is a missing closing parenthesis in the code");
    assert_eq!(SyntaxError::UnmatchedParenthesis(false).note(), "there is a missing opening parenthesis in the code");
    assert_eq!(SyntaxError::InvalidSymbol('x').note(), "check the docs for a list of valid symbols");
    assert_eq!(RuntimeError::DivideByZero.note(), "try filtering the 0s on the stack\nuse ε to produce a small number instead of 0");
    assert_eq!(RuntimeError::ExponentTooBig(whole(1)).note(), "max is 4294967295 (u32::MAX)");
}

#[test]
fn locations_span_lines() {
    let t = tokens("1\n22");
    assert_eq!(t.len(), 2);
    assert_eq!(t[1].1.start, 2);
    assert_eq!(t[1].1.end, 4);
    assert_eq!(t[1].1.line, 2);
    assert_eq!(t[1].1.column, 1);
}

#[test]
fn repurpose_keeps_the_stack() {
    let mut env = Env::new(tokens("1"));
    env.run().unwrap();
    env.repurpose(tokens("+ 2"));
    env.run().unwrap();
    assert_eq!(env.stack, vec![integer(3)]);
}

#[test]
fn root_is_not_the_inverse_of_power() {
    // 2 squared is 4; the root by 2 is 4 to the power -2.
    assert_eq!(run("√ 2 ⁿ 2 2").unwrap(), vec![Value::Rational(rat(1, 16))]);
}

#[test]
fn complex_products_and_reciprocals() {
    assert_eq!(run("× 1i2 3i4").unwrap(), vec![cf(-5.0, 10.0)]);
    assert_eq!(run("÷ 1i1 1").unwrap(), vec![cf(0.5, -0.5)]);
    assert!(matches!(run("+ 1i1 ◯ 1").unwrap()[0], Value::Complex(..)));
    assert!(matches!(run("+ 1i1 π").unwrap()[0], Value::Complex(..)));
    assert!(matches!(run("× π 1i1").unwrap()[0], Value::Complex(..)));
    assert_eq!(run("× 2.5 1i1").unwrap(), vec![cf(2.5, 2.5)]);
}

#[test]
fn nested_scopes() {
    assert_eq!(
        run("((+) 1‿2) 3‿4").unwrap(),
        vec![Value::List(vec![integer(3), integer(4), integer(3)])]
    );
}

#[test]
fn rational_add_then_subtract() {
    let plus = builtin('+').unwrap();
    let mut t = plus.call(vec![Value::Rational(rat(1, 3)), Value::Rational(rat(1, 6))]).unwrap();
    assert_eq!(t, vec![Value::Rational(rat(1, 2))]);
    t.push(Value::Rational(rat(1, 6)));
    assert_eq!(plus.call_inverse(t).unwrap(), vec![Value::Rational(rat(1, 3))]);
}

#[test]
fn type_mismatch_names_both_operands() {
    match run("+ 1‿2 3") {
        Err((RuntimeError::TypeMissmatch { expected, got }, _)) => {
            assert_eq!(expected, "Number");
            assert_eq!(got, "Number, Integer and List");
        },
        other => panic!("unexpected {:?}", other),
    }
    match run("ⁿ 4294967296 2") {
        Err((RuntimeError::ExponentTooBig(n), _)) => assert_eq!(n, Int { neg: false, mag: vec![0, 1] }),
        other => panic!("unexpected {:?}", other),
    }
}

#[test]
fn mixed_and_complex_add_then_subtract() {
    let plus = builtin('+').unwrap();
    let mut t = plus.call(vec![integer(2), Value::Rational(rat(1, 3))]).unwrap();
    assert_eq!(t, vec![Value::Rational(rat(7, 3))]);
    t.push(Value::Rational(rat(1, 3)));
    assert_eq!(plus.call_inverse(t).unwrap(), vec![Value::Rational(rat(2, 1))]);

    let x = cf(0.5, -3.0);
    let y = cf(0.25, 2.0);
    let mut t = plus.call(vec![x.copy(), y.copy()]).unwrap();
    assert_eq!(t, vec![cf(0.75, -1.0)]);
    t.push(y);
    assert_eq!(plus.call_inverse(t).unwrap(), vec![x]);
}

#[test]
fn rational_zero_to_a_large_negative_power_divides_by_zero() {
    assert!(matches!(run("ⁿ ⁻3000000000 0.0"), Err((RuntimeError::DivideByZero, _))));
    assert!(matches!(run("ⁿ ⁻4294967296 0.5"), Err((RuntimeError::ExponentTooBig(_), _))));
}

#[test]
fn failed_run_empties_the_stack() {
    let mut env = Env::new(tokens("1 2"));
    env.run().unwrap();
    env.repurpose(tokens("q"));
    assert!(matches!(env.run(), Err((RuntimeError::FunctionNotFound('q'), _))));
    assert!(env.stack.is_empty());
}

#[test]
fn sine_family_of_complex_numbers() {
    match &run("◯ i").unwrap()[0] {
        Value::Complex(re, im) => {
            assert!(re.is_zero());
            assert!(im.is_positive());
        },
        other => panic!("unexpected {:?}", other),
    }
    assert!(matches!(run("ⓔ 1i1").unwrap()[0], Value::Complex(..)));
    assert!(matches!(run("⁻¹◯ 1i1").unwrap()[0], Value::Complex(..)));
    assert!(matches!(run("⁻¹ⓔ i").unwrap()[0], Value::Complex(..)));
    match &run("◯ i‿1").unwrap()[0] {
        Value::List(v) => {
            assert_eq!(v.len(), 2);
            assert!(matches!(v[0], Value::Complex(..)));
            assert!(matches!(v[1], Value::Float(_)));
        },
        other => panic!("unexpected {:?}", other),
    }
}

#[test]
fn nested_lists_are_raised_element_by_element() {
    let nested = Value::List(vec![Value::List(vec![integer(2), integer(3)]), integer(4)]);
    assert_eq!(
        nested.pow(&integer(2)).unwrap(),
        Value::List(vec![Value::List(vec![integer(4), integer(9)]), integer(16)])
    );
    assert!(matches!(Value::List(vec![integer(2)]).pow(&Value::Rational(rat(1, 2))), Err(RuntimeError::TypeMissmatch { .. })));
}
