use meadow::eval::prim::RuntimeError;
use meadow::eval::show::plain;
use meadow::seq::ir::{Block, Def, Extern, Label, Name, Program, Statement};
use meadow::seq::machine::equal::value_eq;
use meadow::seq::machine::hash::{feed, Unhashable};
use meadow::seq::machine::prim::{Answer, Table};
use meadow::seq::machine::run_prim::prim;
use meadow::seq::machine::shown::Heap;
use meadow::seq::machine::step::{Machine, Out};
use meadow::seq::machine::value::Value;
use meadow::terms::prim::{Lit, Prim, Width};
use meadow::terms::symbol::Symbols;
use std::collections::{HashMap, HashSet};
use std::rc::Rc;

fn v(n: u32) -> Name {
    n
}

fn program(body: Statement) -> Program {
    let mut symbols = Symbols::new();
    let main = symbols.intern("main");
    Program {
        symbols,
        returns: HashSet::new(),
        frames: HashSet::new(),
        continuations: HashSet::new(),
        ctor_fields: vec![],
        reps: HashMap::new(),
        origins: HashMap::new(),
        results: HashMap::new(),
        threads: HashMap::new(),
        defs: vec![Def {
            label: Label(0),
            name: main,
            block: Block {
                params: vec![v(0)],
                body,
            },
        }],
        entry: Some(Label(0)),
        tags: HashMap::new(),
    }
}

/// `substitute [k, x] in {(k, x) => invoke k#0}` — the universal return.
fn ret(k: Name, x: Name) -> Statement {
    Statement::Substitute(
        vec![k, x],
        Box::new(Block {
            params: vec![k, x],
            body: Statement::Invoke(k, 0),
        }),
    )
}

fn message(e: &RuntimeError) -> String {
    plain(&e.msg).unwrap()
}

fn finish(p: &Program, fuel: u64) -> Result<String, String> {
    let (m, out) = Machine::run(p, fuel);
    match out {
        Ok(Out::Done(v)) => Ok(v.to_text(&p.symbols, &m.unwrap().heap).unwrap()),
        Ok(_) => panic!("waits"),
        Err(e) => Err(message(&e)),
    }
}

fn empty<'p>() -> Heap<'p> {
    Heap { cells: vec![], arrays: vec![] }
}

#[test]
fn a_program_ends_by_invoking_the_continuation_it_was_given() {
    // extern lit 7 -> (x, k); substitute [k, x] in { invoke k#0 }
    let p = program(Statement::Extern {
        op: Extern::Lit(Lit::Int(7)),
        args: vec![],
        blocks: vec![Block {
            params: vec![v(1), v(0)],
            body: ret(v(0), v(1)),
        }],
    });
    assert_eq!(finish(&p, 100).expect("should finish"), "7");
}

#[test]
fn a_block_that_does_not_cover_the_environment_is_rejected() {
    // The extern prepends its result to an environment of one, so the
    // continuation must take two parameters. Taking one is the exact mistake
    // a lowering with a wrong liveness set makes, and it has to be loud.
    let p = program(Statement::Extern {
        op: Extern::Lit(Lit::Int(7)),
        args: vec![],
        blocks: vec![Block {
            params: vec![v(1)],
            body: Statement::Error("unreachable"),
        }],
    });
    let e = finish(&p, 100).expect_err("should be rejected");
    assert!(e.contains("1 parameters") && e.contains("2 values"), "{e}");
}

#[test]
fn switch_dispatches_on_the_tag_and_binds_the_fields() {
    // let d = B#1(x); switch d { #1 (field, d, x, k) => return field, … }
    let inner = Statement::Switch {
        scrutinee: v(2),
        arms: vec![(
            1,
            Block {
                params: vec![v(3), v(2), v(1), v(0)],
                body: ret(v(0), v(3)),
            },
        )],
        default: Box::new(Block {
            params: vec![v(2), v(1), v(0)],
            body: Statement::Error("wrong arm"),
        }),
    };
    let p = program(Statement::Extern {
        op: Extern::Lit(Lit::Int(5)),
        args: vec![],
        blocks: vec![Block {
            params: vec![v(1), v(0)],
            body: Statement::Let {
                name: v(2),
                tag: 1,
                ctor: 77,
                fields: vec![v(1)],
                rest: Box::new(inner),
            },
        }],
    });
    assert_eq!(finish(&p, 100).unwrap(), "5");
}

#[test]
fn a_switch_with_no_matching_arm_takes_the_default() {
    let inner = Statement::Switch {
        scrutinee: v(2),
        arms: vec![(
            9,
            Block {
                params: vec![v(3), v(1), v(0)],
                body: Statement::Error("wrong arm"),
            },
        )],
        default: Box::new(Block {
            params: vec![v(2), v(1), v(0)],
            body: ret(v(0), v(1)),
        }),
    };
    let p = program(Statement::Extern {
        op: Extern::Lit(Lit::Int(5)),
        args: vec![],
        blocks: vec![Block {
            params: vec![v(1), v(0)],
            body: Statement::Let {
                name: v(2),
                tag: 1,
                ctor: 77,
                fields: vec![v(1)],
                rest: Box::new(inner),
            },
        }],
    });
    assert_eq!(finish(&p, 100).unwrap(), "5");
}

#[test]
fn fuel_bounds_a_loop_instead_of_hanging_a_test() {
    // `jump` leaves the environment alone, so this is a genuine infinite
    // loop with no growth — nothing else would ever stop it.
    let p = program(Statement::Jump(Label(0)));
    let e = finish(&p, 100).expect_err("should run out");
    assert!(e.contains("100 steps"), "{e}");
}

#[test]
fn data_prints_the_way_the_cek_prints_it() {
    let mut names = Symbols::new();
    let rect = names.intern("Rect");
    let tuple = names.intern("#tuple");
    let (nil, cons) = (names.intern("List.Nil"), names.intern("List.Cons"));
    let d = Value::Data(rect, 0, Rc::new(vec![Value::Int(3), Value::Int(4)]));
    assert_eq!(d.to_text(&names, &empty()).unwrap(), "Rect(3, 4)");
    let t = Value::Data(tuple, 0, Rc::new(vec![Value::Int(1), Value::Unit]));
    assert_eq!(t.to_text(&names, &empty()).unwrap(), "(1, ())");
    // A `List` prints as its elements, not as the chain it is.
    let nil = Value::Data(nil, 0, Rc::new(vec![]));
    let one = Value::Data(cons, 1, Rc::new(vec![Value::Int(1), nil]));
    assert_eq!(one.to_text(&names, &empty()).unwrap(), "[1]");
}

fn run<'p>(op: Prim, args: Vec<Value<'p>>, h: &mut Heap<'p>) -> Result<Value<'p>, String> {
    let (names, tags) = (Symbols::new(), HashMap::new());
    let t = Table { names: &names, tags: &tags };
    match prim(op, &args, &t, h) {
        Ok(Answer::Value(v)) => Ok(v),
        Ok(Answer::Ask(op, args)) => Err(format!("asks {op:?} of {}", args.len())),
        Err(e) => Err(message(&e)),
    }
}

fn text(v: &Value<'_>, h: &Heap<'_>) -> String {
    v.to_text(&Symbols::new(), h).unwrap()
}

#[test]
fn a_cell_is_a_place() {
    let mut h = empty();
    let a = run(Prim::NewRef, vec![Value::Int(1)], &mut h).unwrap();
    let b = run(Prim::NewRef, vec![Value::Int(1)], &mut h).unwrap();
    assert!(value_eq(&a, &a));
    assert!(!value_eq(&a, &b), "two cells holding the same thing are two cells");
    run(Prim::SetRef, vec![a.copy(), Value::Int(2)], &mut h).unwrap();
    assert_eq!(text(&run(Prim::GetRef, vec![a.copy()], &mut h).unwrap(), &h), "2");
    assert_eq!(text(&run(Prim::GetRef, vec![b.copy()], &mut h).unwrap(), &h), "1");
    assert_eq!(text(&a, &h), "ref 2");
    // A cell in itself is shown as far as there are places.
    run(Prim::SetRef, vec![a.copy(), a.copy()], &mut h).unwrap();
    assert_eq!(text(&a, &h), "ref ref ref ..");
}

#[test]
fn a_mutable_array_is_frozen_by_copying() {
    let mut h = empty();
    let a = run(Prim::StNewArray, vec![Value::Int(2), Value::Unit], &mut h).unwrap();
    run(Prim::StSetArray, vec![a.copy(), Value::Int(1), Value::Int(5)], &mut h).unwrap();
    let frozen = run(Prim::StFreeze, vec![a.copy()], &mut h).unwrap();
    run(Prim::StSetArray, vec![a.copy(), Value::Int(0), Value::Int(6)], &mut h).unwrap();
    assert_eq!(text(&frozen, &h), "#[(), 5]");
    assert_eq!(text(&a, &h), "mut #[6, 5]");
    assert_eq!(
        run(Prim::StGetArray, vec![a, Value::Int(2)], &mut h).err().unwrap(),
        "stGetArray: index 2 out of bounds (len 2)"
    );
}

#[test]
fn numbers_of_one_kind_are_done_here() {
    let mut h = empty();
    assert_eq!(text(&run(Prim::Add, vec![Value::Int(2), Value::Int(3)], &mut h).unwrap(), &h), "5");
    assert_eq!(
        run(Prim::Div, vec![Value::Int(2), Value::Int(0)], &mut h).err().unwrap(),
        "division by zero"
    );
    assert_eq!(
        run(Prim::Add, vec![Value::Int(2), Value::Unit], &mut h).err().unwrap(),
        "expected a number, got ()"
    );
    assert_eq!(
        run(Prim::Add, vec![Value::Word(Width::U8, 2), Value::Int(3)], &mut h).err().unwrap(),
        "asks Add of 2"
    );
    // By value, whatever the kind.
    assert!(value_eq(&Value::Word(Width::I8, 0xff), &Value::Int(-1)));
}

#[test]
fn text_goes_to_characters_and_back() {
    let mut h = empty();
    let s = Value::Str(Rc::new("né".to_string()));
    let chars = run(Prim::StringToChars, vec![s.copy()], &mut h).unwrap();
    assert_eq!(text(&chars, &h), "#['n', 'é']");
    assert_eq!(text(&run(Prim::CharsToString, vec![chars], &mut h).unwrap(), &h), "\"né\"");
    assert_eq!(text(&run(Prim::StringByteLength, vec![s.copy()], &mut h).unwrap(), &h), "3");
    assert_eq!(text(&run(Prim::StringByteAt, vec![s, Value::Int(1)], &mut h).unwrap(), &h), "195");
    assert_eq!(text(&run(Prim::CharFromCode, vec![Value::Int(97)], &mut h).unwrap(), &h), "'a'");
    assert_eq!(
        run(Prim::CharFromCode, vec![Value::Int(0xd800)], &mut h).err().unwrap(),
        "charFromCode: 55296 is not a Unicode scalar value"
    );
}

#[test]
fn what_this_machine_has_not_is_refused() {
    let mut h = empty();
    assert_eq!(
        run(Prim::ThreadSpawn, vec![], &mut h).err().unwrap(),
        "green threads are not supported by the sequent machine"
    );
}

#[test]
fn a_value_is_hashed_by_its_head_and_then_its_parts() {
    let mut names = Symbols::new();
    let (b, a) = (names.intern("b"), names.intern("a"));
    let record = Value::Record(Rc::new(vec![(b, Value::Int(2)), (a, Value::Bool(true))]));
    let made = feed(&Value::Array(Rc::new(vec![record, Value::Unit])), &names).unwrap();
    let said: Vec<String> = made.iter().map(|p| format!("{p:?}")).collect();
    // Fields in the order of their labels' text.
    assert_eq!(
        said,
        ["Array(2)", "Record(2)", "Str(\"a\")", "Bool(true)", "Str(\"b\")", "Int(2)", "Unit"]
    );
    let (nil, cons) = (names.find("List.Nil").unwrap(), names.find("List.Cons").unwrap());
    let empty = Value::Data(nil, 0, Rc::new(vec![]));
    let one = Value::Data(cons, 1, Rc::new(vec![Value::Int(1), empty]));
    let said: Vec<String> = feed(&one, &names).unwrap().iter().map(|p| format!("{p:?}")).collect();
    assert_eq!(said, ["Data(\"List.Cons\", 2)", "Int(1)", "Data(\"List.Nil\", 0)"]);
    assert_eq!(feed(&Value::Ref(0), &names).unwrap_err(), Unhashable::Ref);
    assert_eq!(feed(&Value::Halt, &names).unwrap_err(), Unhashable::Function);
}

#[test]
fn numbers_of_different_kinds_are_equal_by_worth() {
    let f = |x: f64| Value::Float(x.to_bits());
    let g = |x: f32| Value::Float32(x.to_bits());
    assert!(value_eq(&Value::Int(1), &f(1.0)));
    assert!(value_eq(&f(1.0), &Value::Int(1)));
    assert!(value_eq(&Value::Int(-3), &g(-3.0)));
    assert!(value_eq(&f(0.5), &g(0.5)));
    assert!(!value_eq(&f(0.1), &g(0.1)), "the nearest of each kind differ");
    assert!(value_eq(&Value::Int(0), &f(-0.0)));
    assert!(value_eq(&f(f64::INFINITY), &g(f32::INFINITY)));
    assert!(!value_eq(&f(f64::INFINITY), &g(f32::NEG_INFINITY)));
    assert!(!value_eq(&Value::Int(1), &f(f64::NAN)));
    assert!(!value_eq(&f(f64::NAN), &f(f64::NAN)));
    assert!(!value_eq(&Value::Int(1), &f(1.5)));
    assert!(value_eq(&f(5e-324), &f(5e-324)));
    assert!(!value_eq(&Value::Int(0), &f(5e-324)));
    // A float holds no more than so many digits of an integer.
    assert!(!value_eq(&Value::Int(9_007_199_254_740_993), &f(9_007_199_254_740_992.0)));
    assert!(value_eq(&Value::Word(Width::U8, 255), &f(255.0)));
}

#[test]
fn what_has_no_hash_is_refused() {
    let mut symbols = Symbols::new();
    symbols.intern("main");
    let tags = HashMap::new();
    let t = Table { names: &symbols, tags: &tags };
    let h = &mut Heap { cells: vec![], arrays: vec![] };
    assert!(matches!(prim(Prim::Hash, &vec![Value::Int(1)], &t, h), Ok(Answer::Ask(Prim::Hash, _))));
    let said = |r: Result<Answer, RuntimeError>| match r {
        Ok(_) => panic!("hashed"),
        Err(e) => plain(&e.msg).unwrap(),
    };
    assert_eq!(said(prim(Prim::Hash, &vec![Value::Halt], &t, h)), "hash: a function has no hash");
    let inside = Value::Array(Rc::new(vec![Value::Int(1), Value::Ref(0)]));
    assert_eq!(said(prim(Prim::Hash, &vec![inside], &t, h)), "hash: a Ref has no hash");
}

#[test]
fn bytes_are_read_back_from_what_was_written() {
    let symbols = Symbols::new();
    let tags = HashMap::new();
    let t = Table { names: &symbols, tags: &tags };
    let h = &mut Heap { cells: vec![], arrays: vec![] };
    let bytes = || Value::Array(Rc::new(vec![Value::Word(Width::U8, 0), Value::Word(Width::U8, 0xfa)]));
    let written = match prim(Prim::BytesToHex, &vec![bytes()], &t, h) {
        Ok(Answer::Value(v)) => v,
        _ => panic!("no text"),
    };
    assert!(value_eq(&written, &Value::Str(Rc::new("00fa".to_string()))));
    match prim(Prim::BytesFromHex, &vec![written], &t, h) {
        Ok(Answer::Value(Value::Data(c, _, fs))) => {
            assert_eq!(c, meadow::terms::symbol::MAYBE_JUST);
            assert!(value_eq(&fs[0], &bytes()));
        }
        _ => panic!("nothing read"),
    }
    for s in ["0", "zz", "0g"] {
        match prim(Prim::BytesFromHex, &vec![Value::Str(Rc::new(s.to_string()))], &t, h) {
            Ok(Answer::Value(Value::Data(c, _, _))) => assert_eq!(c, meadow::terms::symbol::MAYBE_NONE),
            _ => panic!("failed"),
        }
    }
}

#[test]
fn equal_values_are_hashed_by_the_same_parts() {
    let mut names = Symbols::new();
    let (x, y) = (names.intern("x"), names.intern("y"));
    let of = |fs: Vec<(u32, Value<'static>)>| Value::Record(Rc::new(fs));
    let a = of(vec![(x, Value::Int(1)), (y, Value::Bool(true))]);
    let b = of(vec![(y, Value::Bool(true)), (x, Value::Int(1))]);
    assert!(value_eq(&a, &b));
    let shown = |v: &Value<'_>| format!("{:?}", feed(v, &names).unwrap());
    assert_eq!(shown(&a), shown(&b));
    // Numbers of different kinds are fed in one place, each as its kind.
    let c = of(vec![(x, Value::Word(Width::U8, 1)), (y, Value::Bool(true))]);
    assert!(value_eq(&a, &c));
    assert_eq!(feed(&a, &names).unwrap().len(), feed(&c, &names).unwrap().len());
}

#[test]
fn what_cannot_go_in_a_region_is_refused() {
    let mut h = empty();
    let err = |r: Result<Value<'_>, String>| r.err().unwrap();
    let array = |xs| Value::Array(Rc::new(xs));
    assert_eq!(err(run(Prim::Compact, vec![array(vec![Value::Int(1)])], &mut h)), "asks Compact of 1");
    let deep = array(vec![Value::Int(1), array(vec![Value::Halt, Value::Ref(0)]), Value::Int(2)]);
    assert_eq!(
        err(run(Prim::Compact, vec![deep], &mut h)),
        "compact: a Ref cannot go in a region",
        "the last of what a value holds is looked at first"
    );
    let region = Value::Compact(Rc::new(Value::Int(1)), 0);
    assert_eq!(
        err(run(Prim::CompactAdd, vec![region.copy(), Value::Halt], &mut h)),
        "compact: a function cannot go in a region"
    );
    assert_eq!(
        err(run(Prim::CompactAdd, vec![region.copy(), Value::MutArray(0)], &mut h)),
        "compact: a mutable array cannot go in a region"
    );
    assert_eq!(err(run(Prim::CompactAdd, vec![region, Value::Unit], &mut h)), "asks CompactAdd of 2");
}

#[test]
fn a_long_chain_is_compared_and_hashed_to_its_end() {
    let mut names = Symbols::new();
    let snoc = names.intern("Snoc");
    let chain = |end: i64| {
        let mut v = Value::Int(end);
        for i in 0..200_000 {
            v = Value::Data(snoc, 0, Rc::new(vec![Value::Int(i), v]));
        }
        v
    };
    let (a, b, c) = (chain(1), chain(1), chain(2));
    assert!(value_eq(&a, &b));
    assert!(!value_eq(&a, &c), "they differ at the end only");
    let said = feed(&a, &names).unwrap();
    assert_eq!(said.len(), 400_001);
    assert_eq!(format!("{:?}", said[0]), "Data(\"Snoc\", 2)");
    assert_eq!(format!("{:?}", said[1]), "Int(199999)");
    assert_eq!(format!("{:?}", said[400_000]), "Int(1)");
    for v in [a, b, c] {
        std::mem::forget(v);
    }
}

#[test]
fn an_array_that_holds_a_nan_is_not_equal_to_itself() {
    let held = Value::Array(Rc::new(vec![Value::Float(f64::NAN.to_bits())]));
    assert!(!value_eq(&held, &held));
    let plain = Value::Array(Rc::new(vec![Value::Float(1.5f64.to_bits())]));
    assert!(value_eq(&plain, &plain));
}
