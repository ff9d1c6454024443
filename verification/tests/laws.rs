use meadow::eval::run::{Session, Status};
use meadow::eval::term::{names, Def, Lit, Prim, Program, Term};
use meadow::seq::ir::{Block, Def as SeqDef, Extern, Label, Program as SeqProgram, Statement};
use meadow::seq::lower::program::lower_program;
use meadow::seq::lower::state::OptLevel;
use meadow::seq::machine::step::{Machine, Out};
use meadow::terms::float;
use meadow::terms::prim::Lit as CoreLit;
use meadow::terms::symbol::{self, Symbols};
use meadow::terms::term::{CoreDef, CoreProgram, Term as CoreTerm};
use meadow::terms::ty::{con, Poly};
use std::collections::{HashMap, HashSet};
use std::rc::Rc;

#[test]
fn floats_are_below_alike_or_above() {
    let all = [-1.5f64, -0.0, 0.0, 1.0e-300, 2.0, f64::INFINITY, f64::NEG_INFINITY, f64::NAN];
    for a in all {
        for b in all {
            let (x, y) = (a.to_bits(), b.to_bits());
            assert_eq!(float::less(x, y), a < b);
            assert_eq!(float::equal(x, y), a == b);
        }
        assert_eq!(float::is_finite(a.to_bits()), a.is_finite());
        assert_eq!(float::is_nan(a.to_bits()), a.is_nan());
    }
    assert!(float::equal32(0.0f32.to_bits(), (-0.0f32).to_bits()));
    assert!(!float::equal32(f32::NAN.to_bits(), f32::NAN.to_bits()));
}

fn sum() -> Program {
    let lit = |n| Rc::new(Term::Lit(Lit::Int(n)));
    let inner = Rc::new(Term::Prim(Prim::Add, Rc::new(vec![lit(1), lit(2)])));
    let term = Rc::new(Term::Prim(Prim::Mul, Rc::new(vec![inner, lit(3)])));
    Program {
        symbols: names(),
        defs: vec![Def { var: 1, term }],
        entry: Some(1),
        ctor_fields: vec![],
    }
}

#[test]
fn running_in_pieces_is_running_at_once() {
    let mut whole = Session::new(sum());
    assert!(matches!(whole.advance(1000), Ok(Status::Done(_))));
    let mut pieces = Session::new(sum());
    let mut last = pieces.advance(1);
    for _ in 0..100 {
        last = pieces.advance(1);
    }
    match (whole.advance(0), last) {
        (Ok(Status::Done(a)), Ok(Status::Done(b))) => {
            assert_eq!(a.to_text(&names()).unwrap(), "9");
            assert_eq!(b.to_text(&names()).unwrap(), "9");
        }
        _ => panic!("did not finish"),
    }
}

fn looping() -> SeqProgram {
    SeqProgram {
        symbols: Symbols::new(),
        returns: HashSet::new(),
        frames: HashSet::new(),
        continuations: HashSet::new(),
        ctor_fields: vec![],
        reps: HashMap::new(),
        origins: HashMap::new(),
        results: HashMap::new(),
        threads: HashMap::new(),
        defs: vec![SeqDef {
            label: Label(0),
            name: 0,
            block: Block { params: vec![0], body: Statement::Jump(Label(0)) },
        }],
        entry: Some(Label(0)),
        tags: HashMap::new(),
    }
}

#[test]
fn there_are_as_many_names_as_values() {
    let p = looping();
    let mut m = match Machine::new(&p) {
        Ok(m) => m,
        Err(_) => panic!("does not start"),
    };
    for _ in 0..10 {
        assert!(matches!(m.advance(1), Ok(Out::Next)));
        assert_eq!(m.names.len(), m.env.len());
        assert_eq!(m.env.len(), 1);
    }
    assert_eq!(m.steps, 10);
}

#[test]
fn more_fuel_comes_to_the_same() {
    let lowered = || {
        let mut symbols = Symbols::new();
        let name = symbols.intern("main");
        let d = CoreDef {
            var: 5,
            name,
            poly: Poly::mono(con(symbol::INT)),
            term: CoreTerm::Lit(CoreLit::Int(4)),
        };
        let p = CoreProgram {
            symbols,
            defs: vec![d],
            entry: Some(5),
            variants: vec![],
            ctor_fields: vec![],
            origins: vec![],
        };
        lower_program(p, OptLevel::O0).program
    };
    let p = lowered();
    for fuel in [50, 500] {
        let (m, out) = Machine::run(&p, fuel);
        match out {
            Ok(Out::Done(v)) => assert_eq!(v.to_text(&p.symbols, &m.unwrap().heap).unwrap(), "4"),
            _ => panic!("did not finish"),
        }
    }
}

/// Every substitution gives as many values as its block takes.
fn balanced(s: &Statement) -> bool {
    match s {
        Statement::Substitute(sel, b) => sel.len() == b.params.len() && balanced(&b.body),
        Statement::Let { rest, .. } => balanced(rest),
        Statement::New { methods, rest, .. } => balanced(rest) && methods.iter().all(|b| balanced(&b.body)),
        Statement::Switch { arms, default, .. } => {
            balanced(&default.body) && arms.iter().all(|(_, b)| balanced(&b.body))
        }
        Statement::Extern { blocks, op: Extern::Branch, .. } => blocks.iter().all(|b| balanced(&b.body)),
        Statement::Extern { blocks, .. } => blocks.iter().all(|b| balanced(&b.body)),
        Statement::Mark(_, inner) => balanced(inner),
        Statement::Jump(_) | Statement::Invoke(..) | Statement::Error(_) => true,
    }
}

#[test]
fn what_is_lowered_is_balanced() {
    let mut symbols = Symbols::new();
    let name = symbols.intern("main");
    let lam = CoreTerm::Lam(1, con(symbol::INT), Box::new(CoreTerm::Var(1)));
    let d = CoreDef {
        var: 5,
        name,
        poly: Poly::mono(con(symbol::INT)),
        term: CoreTerm::App(Box::new(lam), Box::new(CoreTerm::Lit(CoreLit::Int(4)))),
    };
    let p = CoreProgram {
        symbols,
        defs: vec![d],
        entry: Some(5),
        variants: vec![],
        ctor_fields: vec![],
        origins: vec![],
    };
    let lowered = lower_program(p, OptLevel::O1);
    assert!(lowered.program.defs.iter().all(|d| balanced(&d.block.body)));
}
