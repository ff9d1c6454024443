use meadow::eval::equal::value_eq;
use meadow::eval::machine::{Control, Wait};
use meadow::eval::prim::{run_prim, Answer, Arithmetic, RuntimeError};
use meadow::eval::run::{run, Session, Status};
use meadow::eval::show::plain;
use meadow::eval::term::{names, Def, HClause, HandlerData, Lit, Pat, Prim, Program, Term, Var};
use meadow::eval::value::Value;
use meadow::terms::symbol::Symbols;
use std::rc::Rc;

const MAIN: Var = 1000;

fn program(symbols: Symbols, term: Term) -> Program {
    Program {
        symbols,
        defs: vec![Def { var: MAIN, term: Rc::new(term) }],
        entry: Some(MAIN),
        ctor_fields: vec![],
    }
}

/// Evaluate a single term (as `def main = term`, entry `main`).
fn eval_in(symbols: Symbols, term: Term) -> Result<Value, RuntimeError> {
    match run(program(symbols, term), u64::MAX).1 {
        Ok(Status::Done(v)) => Ok(v),
        Ok(_) => panic!("did not finish"),
        Err(e) => Err(e),
    }
}

fn eval_term(term: Term) -> Result<Value, RuntimeError> {
    eval_in(names(), term)
}

fn shown(v: &Value) -> String {
    v.to_text(&names()).unwrap()
}

fn message(e: &RuntimeError) -> String {
    plain(&e.msg).unwrap()
}

fn lit(i: i64) -> Rc<Term> {
    Rc::new(Term::Lit(Lit::Int(i)))
}

fn var(v: Var) -> Rc<Term> {
    Rc::new(Term::Var(v))
}

fn prim(op: Prim, args: Vec<Rc<Term>>) -> Term {
    Term::Prim(op, Rc::new(args))
}

fn text(s: &str) -> Value {
    Value::Str(Rc::new(s.to_string()))
}

fn list(xs: Vec<Value>) -> Value {
    Value::List(Rc::new(xs))
}

fn array(xs: Vec<Value>) -> Value {
    Value::Array(Rc::new(xs))
}

#[test]
fn arithmetic_and_application() {
    // (\x -> x + 1) 41
    let body = prim(Prim::Add, vec![var(1), lit(1)]);
    let term = Term::App(Rc::new(Term::Lam(1, Rc::new(body))), lit(41));
    assert_eq!(shown(&eval_term(term).unwrap()), "42");
}

#[test]
fn if_and_let() {
    let term = Term::Let(
        1,
        lit(10),
        Rc::new(Term::If(
            Rc::new(prim(Prim::Lt, vec![var(1), lit(20)])),
            lit(1),
            lit(2),
        )),
    );
    assert_eq!(shown(&eval_term(term).unwrap()), "1");
}

#[test]
fn list_cons_prepends() {
    let term = Term::ListCons(lit(0), Rc::new(Term::List(Rc::new(vec![lit(1), lit(2)]))));
    assert_eq!(shown(&eval_term(term).unwrap()), "[0, 1, 2]");
}

#[test]
fn recursion_via_letrec() {
    // letrec f = \n -> if n == 0 then 0 else n + f (n - 1) in f 5   => 15
    let (f, n) = (1, 2);
    let lam = Term::Lam(
        n,
        Rc::new(Term::If(
            Rc::new(prim(Prim::Eq, vec![var(n), lit(0)])),
            lit(0),
            Rc::new(prim(
                Prim::Add,
                vec![
                    var(n),
                    Rc::new(Term::App(var(f), Rc::new(prim(Prim::Sub, vec![var(n), lit(1)])))),
                ],
            )),
        )),
    );
    let term = Term::LetRec(Rc::new(vec![(f, Rc::new(lam))]), Rc::new(Term::App(var(f), lit(5))));
    assert_eq!(shown(&eval_term(term).unwrap()), "15");
}

#[test]
fn handler_state_like() {
    // handle (perform E.get () ; perform E.get ())  with
    //   get _ k -> k 7
    //   return x -> x
    // ==> 7  (each `get` resumes with 7; the body's value is the 2nd get)
    let (k, p, x, discard) = (1, 2, 3, 4);
    let mut symbols = names();
    let (e, get) = (symbols.intern("E"), symbols.intern("get"));
    let perform = || Rc::new(Term::Perform(e, get, Rc::new(Term::Lit(Lit::Unit))));
    let body = Term::Let(discard, perform(), perform());
    let term = Term::Handle(
        Rc::new(body),
        Rc::new(HandlerData {
            clauses: vec![HClause {
                effect: e,
                op: get,
                param: p,
                resume: k,
                body: Rc::new(Term::App(var(k), lit(7))),
            }],
            ret: Some((x, var(x))),
        }),
    );
    assert_eq!(shown(&eval_in(symbols, term).unwrap()), "7");
}

#[test]
fn unhandled_effect_errors() {
    let mut symbols = names();
    let (e, boom) = (symbols.intern("E"), symbols.intern("boom"));
    let term = Term::Perform(e, boom, Rc::new(Term::Lit(Lit::Unit)));
    let e = eval_in(symbols, term).unwrap_err();
    assert!(message(&e).contains("unhandled effect E.boom"), "{}", message(&e));
}

#[test]
fn one_shot_resume_twice_errors() {
    // clause resumes k, then tries to resume k again
    let (k, p, d) = (1, 2, 3);
    let mut symbols = names();
    let (e, op) = (symbols.intern("E"), symbols.intern("op"));
    let term = Term::Handle(
        Rc::new(Term::Perform(e, op, Rc::new(Term::Lit(Lit::Unit)))),
        Rc::new(HandlerData {
            clauses: vec![HClause {
                effect: e,
                op,
                param: p,
                resume: k,
                // k 1 ; k 2
                body: Rc::new(Term::Let(
                    d,
                    Rc::new(Term::App(var(k), lit(1))),
                    Rc::new(Term::App(var(k), lit(2))),
                )),
            }],
            ret: None,
        }),
    );
    let e = eval_in(symbols, term).unwrap_err();
    assert!(message(&e).contains("resumed more than once"), "{}", message(&e));
}

#[test]
fn value_display_forms() {
    assert_eq!(shown(&Value::Unit), "()");
    assert_eq!(shown(&Value::Bool(true)), "true");
    let just = names().find("Just").unwrap();
    assert_eq!(shown(&Value::Ctor(just, Rc::new(vec![Value::Int(3)]))), "Just(3)");
}

fn run_value(op: Prim, args: Vec<Value>) -> Value {
    match run_prim(op, &args, &names()) {
        Ok(Answer::Value(v)) => v,
        Ok(_) => panic!("not a value"),
        Err(e) => panic!("{}", message(&e)),
    }
}

#[test]
fn prim_arithmetic_direct() {
    assert_eq!(shown(&run_value(Prim::Mul, vec![Value::Int(4), Value::Int(5)])), "20");
    assert!(run_prim(Prim::Div, &vec![Value::Int(1), Value::Int(0)], &names()).is_err());
}

#[test]
fn structural_equality() {
    let make = || Value::Tuple(Rc::new(vec![Value::Int(1), list(vec![Value::Int(2)])]));
    assert!(value_eq(&make(), &make()));
    assert!(!value_eq(&make(), &Value::Int(1)));
}

fn big(n: i64) -> Value {
    run_value(Prim::ToBig, vec![Value::Int(n)])
}

#[test]
fn big_integers_do_not_wrap() {
    let two64 = run_value(Prim::PowB, vec![big(2), big(64)]);
    assert_eq!(shown(&two64), "18446744073709551616");
    assert_eq!(shown(&run_value(Prim::AddB, vec![two64.copy(), big(1)])), "18446744073709551617");
    assert_eq!(shown(&run_value(Prim::SubB, vec![big(1), two64.copy()])), "-18446744073709551615");
    assert_eq!(shown(&run_value(Prim::MulB, vec![two64.copy(), big(-2)])), "-36893488147419103232");
    assert_eq!(shown(&run_value(Prim::DivB, vec![big(-7), big(2)])), "-3");
    assert_eq!(shown(&run_value(Prim::ModB, vec![big(-7), big(2)])), "-1");
    assert_eq!(shown(&run_value(Prim::LtB, vec![big(-7), two64.copy()])), "true");
    assert_eq!(shown(&run_value(Prim::Eq, vec![two64.copy(), two64.copy()])), "true");
    assert_eq!(shown(&run_value(Prim::ToInt, vec![big(-5)])), "-5");
    assert!(run_prim(Prim::ToInt, &vec![two64], &names()).is_err());
    assert!(run_prim(Prim::DivB, &vec![big(1), big(0)], &names()).is_err());
    assert!(run_prim(Prim::PowB, &vec![big(1), big(-1)], &names()).is_err());
}

#[test]
fn integers_wrap() {
    let min = Value::Int(i64::MIN);
    assert_eq!(shown(&run_value(Prim::Div, vec![min.copy(), Value::Int(-1)])), "-9223372036854775808");
    assert_eq!(shown(&run_value(Prim::Mod, vec![Value::Int(-7), Value::Int(2)])), "-1");
    assert_eq!(shown(&run_value(Prim::Div, vec![Value::Int(-7), Value::Int(2)])), "-3");
    assert_eq!(shown(&run_value(Prim::Pow, vec![Value::Int(3), Value::Int(4)])), "81");
    assert_eq!(shown(&run_value(Prim::Pow, vec![Value::Int(2), Value::Int(64)])), "0");
    assert_eq!(shown(&run_value(Prim::Neg, vec![min])), "-9223372036854775808");
    assert_eq!(shown(&run_value(Prim::PopCount, vec![Value::Int(-1)])), "64");
    assert_eq!(shown(&run_value(Prim::Shl, vec![Value::Int(1), Value::Int(65)])), "2");
    assert_eq!(shown(&run_value(Prim::Ushr, vec![Value::Int(-1), Value::Int(63)])), "1");
    assert_eq!(shown(&run_value(Prim::Shr, vec![Value::Int(-8), Value::Int(1)])), "-4");
    assert_eq!(shown(&run_value(Prim::BitNot, vec![Value::Int(0)])), "-1");
}

#[test]
fn arrays_are_persistent() {
    let a = array(vec![Value::Int(1), Value::Int(2)]);
    let b = run_value(Prim::ArraySet, vec![a.copy(), Value::Int(0), Value::Int(9)]);
    assert_eq!(shown(&a), "#[1, 2]");
    assert_eq!(shown(&b), "#[9, 2]");
    assert_eq!(shown(&run_value(Prim::ArrayConcat, vec![a.copy(), b])), "#[1, 2, 9, 2]");
    assert_eq!(shown(&run_value(Prim::ArraySlice, vec![a.copy(), Value::Int(-3), Value::Int(1)])), "#[1]");
    assert_eq!(shown(&run_value(Prim::ArrayGetOr, vec![Value::Unit, a.copy(), Value::Int(7)])), "()");
    let e = run_prim(Prim::ArrayGet, &vec![a, Value::Int(7)], &names()).unwrap_err();
    assert_eq!(message(&e), "arrayGet: index 7 out of bounds (len 2)");
}

#[test]
fn bytes_go_to_hex_and_back() {
    let bytes = run_value(Prim::StringToBytes, vec![text("hé")]);
    assert_eq!(shown(&bytes), "#[104, 195, 169]");
    let hex = run_value(Prim::BytesToHex, vec![bytes.copy()]);
    assert_eq!(shown(&hex), "\"68c3a9\"");
    assert_eq!(shown(&run_value(Prim::BytesFromHex, vec![hex])), "Just(#[104, 195, 169])");
    assert_eq!(shown(&run_value(Prim::BytesFromHex, vec![text("6g")])), "None");
    assert_eq!(shown(&run_value(Prim::BytesToString, vec![bytes])), "\"hé\"");
    let bad = array(vec![Value::Int(255)]);
    assert_eq!(shown(&run_value(Prim::BytesToString, vec![bad])), "\"\u{fffd}\"");
}

#[test]
fn float_arithmetic_is_asked_for() {
    let (a, b) = (1.5f64.to_bits(), 2.0f64.to_bits());
    match run_prim(Prim::AddF, &vec![Value::Float(a), Value::Float(b)], &names()) {
        Ok(Answer::Float(Arithmetic::Add, x, y)) => assert_eq!((x, y), (a, b)),
        _ => panic!("not asked for"),
    }
    let nan = Value::Float(f64::NAN.to_bits());
    assert_eq!(shown(&run_value(Prim::LtF, vec![Value::Float(a), Value::Float(b)])), "true");
    assert_eq!(shown(&run_value(Prim::LeF, vec![nan.copy(), nan.copy()])), "false");
    let zero = Value::Float(0.0f64.to_bits());
    let minus = Value::Float((-0.0f64).to_bits());
    assert!(value_eq(&zero, &minus));
    assert!(!value_eq(&nan, &nan));
    assert!(nan.to_text(&names()).is_none());
}

#[test]
fn a_program_waits_for_what_it_asked() {
    let term = prim(Prim::AddF, vec![
        Rc::new(Term::Lit(Lit::Float(1.5f64.to_bits()))),
        Rc::new(Term::Lit(Lit::Float(2.0f64.to_bits()))),
    ]);
    let mut s = Session::new(program(names(), term));
    assert!(matches!(s.advance(1000), Ok(Status::Waiting)));
    let answer = match &s.machine.ctrl {
        Control::Wait(Wait::Prim(Answer::Float(Arithmetic::Add, a, b))) => f64::from_bits(*a) + f64::from_bits(*b),
        _ => panic!("not waiting for a sum"),
    };
    s.resume(Value::Float(answer.to_bits()));
    match s.advance(1000) {
        Ok(Status::Done(Value::Float(b))) => assert_eq!(f64::from_bits(b), 3.5),
        _ => panic!("did not finish"),
    }
}

#[test]
fn the_first_matching_arm_is_taken() {
    let arms = vec![
        (Pat::ListNil, lit(0)),
        (Pat::ListCons(Box::new(Pat::Var(1)), Box::new(Pat::Wild)), var(1)),
    ];
    let term = Term::Case(Rc::new(Term::List(Rc::new(vec![lit(8), lit(9)]))), Rc::new(arms));
    assert_eq!(shown(&eval_term(term).unwrap()), "8");
    let none = Term::Case(lit(1), Rc::new(vec![(Pat::Lit(Lit::Int(2)), lit(0))]));
    assert_eq!(message(&eval_term(none).unwrap_err()), "non-exhaustive pattern match");
}

#[test]
fn vectors_are_what_they_hold() {
    let t = names();
    let (empty, single) = (t.find("VEmpty").unwrap(), t.find("VSingle").unwrap());
    let (full, leaf) = (t.find("VFull").unwrap(), t.find("VLeaf").unwrap());
    let one = Value::Ctor(single, Rc::new(vec![array(vec![Value::Int(1), Value::Int(2)])]));
    let node = Value::Ctor(leaf, Rc::new(vec![array(vec![Value::Int(2)])]));
    let none = || array(vec![]);
    let two = Value::Ctor(
        full,
        Rc::new(vec![Value::Int(2), Value::Int(5), array(vec![Value::Int(1)]), none(), node, none(), none()]),
    );
    assert_eq!(shown(&one), "[1, 2]");
    assert_eq!(shown(&two), "[1, 2]");
    assert!(value_eq(&one, &two));
    assert_eq!(shown(&Value::Ctor(empty, Rc::new(vec![]))), "[]");
    assert_eq!(shown(&Value::Ctor(single, Rc::new(vec![]))), "VSingle(..)");
}

#[test]
fn a_program_is_valid_if_its_table_starts_with_the_fixed_names() {
    assert!(program(names(), Term::Lit(Lit::Unit)).is_valid());
    let mut more = names();
    more.intern("more");
    assert!(program(more, Term::Lit(Lit::Unit)).is_valid());
    assert!(!program(meadow::terms::symbol::Symbols { texts: vec![] }, Term::Lit(Lit::Unit)).is_valid());
}
