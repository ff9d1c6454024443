use meadow::seq::ir::{Block, Extern, Rep, Statement, NO_DESC};
use meadow::seq::lower::program::{lower_program, Unsupported};
use meadow::seq::lower::state::OptLevel;
use meadow::seq::machine::step::{Machine, Out};
use meadow::terms::prim::{Lit, Prim};
use meadow::terms::symbol::{self, Symbols};
use meadow::terms::term::{Arm, CoreDef, CoreProgram, Pat, Term, Var};
use meadow::terms::ty::{con, Poly, Ty, TyVar, VarKind};

const MAIN: Var = 100;

fn whole() -> Ty {
    con(symbol::INT)
}

fn def(symbols: &mut Symbols, var: Var, name: &str, term: Term) -> CoreDef {
    CoreDef { var, name: symbols.intern(name), poly: Poly::mono(whole()), term }
}

fn made_of(symbols: Symbols, defs: Vec<CoreDef>, entry: Var) -> CoreProgram {
    CoreProgram { symbols, defs, entry: Some(entry), variants: vec![], ctor_fields: vec![], origins: vec![] }
}

fn main_in(mut symbols: Symbols, term: Term) -> CoreProgram {
    let d = def(&mut symbols, MAIN, "main", term);
    made_of(symbols, vec![d], MAIN)
}

fn main_def(term: Term) -> CoreProgram {
    main_in(Symbols::new(), term)
}

fn lit(i: i64) -> Term {
    Term::Lit(Lit::Int(i))
}

fn prim(op: Prim, args: Vec<Term>) -> Term {
    Term::Prim(op, args, whole())
}

#[test]
fn a_literal_is_an_extern_and_a_return() {
    let lowered = lower_program(main_def(lit(42)), OptLevel::default());
    assert!(lowered.unsupported.is_empty());
    let text = lowered.program.pretty();
    // The literal producer, then the universal return sequence: arrange the
    // environment as exactly [k, v] and invoke the continuation's only method.
    assert!(text.contains("extern lit Int(42)()"), "{text}");
    assert!(text.contains("substitute ["), "{text}");
    assert!(text.contains("invoke "), "{text}");
    assert!(text.contains("#0"), "{text}");
}

#[test]
fn every_block_binds_the_whole_environment() {
    // `(1 + 2) * 3` — three operands, so the continuation of each has to keep
    // what came before it alive.
    let term = prim(Prim::Mul, vec![prim(Prim::Add, vec![lit(1), lit(2)]), lit(3)]);
    let lowered = lower_program(main_def(term), OptLevel::default());
    assert!(lowered.unsupported.is_empty());

    let mut checked = 0;
    for def in &lowered.program.defs {
        walk(&def.block.body, &mut |s| {
            if let Statement::Substitute(sel, block) = s {
                assert_eq!(
                    sel.len(),
                    block.params.len(),
                    "substitute of {} into a block of {}",
                    sel.len(),
                    block.params.len()
                );
                checked += 1;
            }
        });
    }
    assert!(checked > 0, "no substitutions to check");
}

#[test]
fn a_global_reference_is_a_jump_with_the_environment_untouched() {
    let (g, m) = (50, 51);
    let mut symbols = Symbols::new();
    let defs = vec![
        def(&mut symbols, g, "g", lit(7)),
        def(&mut symbols, m, "main", Term::Var(g)),
    ];
    let lowered = lower_program(made_of(symbols, defs, m), OptLevel::default());
    assert!(lowered.unsupported.is_empty());

    // `substitute [k] in {(k) => jump #0}` — a one-element environment, which is
    // exactly what `g`'s block takes, so the jump needs no shuffling.
    match &lowered.program.defs[1].block.body {
        Statement::Substitute(sel, block) => {
            assert_eq!(sel.len(), 1);
            assert_eq!(block.params.len(), 1);
            assert!(matches!(block.body, Statement::Jump(l) if l.0 == 0));
        }
        other => panic!("expected a substitute and a jump, got {other:?}"),
    }
}

#[test]
fn a_variable_from_nowhere_is_reported() {
    // It has to be *said* rather than turned into a plausible statement.
    let lowered = lower_program(main_def(Term::Var(999)), OptLevel::default());
    assert!(
        lowered.unsupported.contains(&Unsupported::UnboundVar),
        "an unbound variable should be reported, not silently mistranslated"
    );
}

fn arm(pat: Pat, body: Term) -> Arm {
    Arm { pat, guard: None, body }
}

#[test]
fn a_match_becomes_a_switch_with_a_default() {
    // `match x with | Just y -> y | _ -> 0`, as core builds it.
    let (x, y) = (1, 2);
    let mut symbols = Symbols::new();
    let just = symbols.intern("Just");
    let term = Term::Let(
        x,
        Poly::mono(Ty::Unknown),
        Box::new(Term::Ctor(just, Ty::Unknown, vec![lit(9)])),
        Box::new(Term::Case(
            Box::new(Term::Var(x)),
            vec![
                arm(Pat::Ctor(just, vec![Pat::Var(y, whole())]), Term::Var(y)),
                arm(Pat::Wild, lit(0)),
            ],
            whole(),
        )),
    );
    let lowered = lower_program(main_in(symbols, term), OptLevel::default());
    assert!(lowered.unsupported.is_empty());

    let mut switches = 0;
    for def in &lowered.program.defs {
        walk(&def.block.body, &mut |s| {
            if let Statement::Switch { arms, default, .. } = s {
                // One arm — the constructor the pattern names — and a default
                // that binds no fields, because it knows of none.
                assert_eq!(arms.len(), 1);
                assert_eq!(arms[0].1.params.len(), default.params.len() + 1);
                switches += 1;
            }
        });
    }
    assert_eq!(switches, 1, "{}", lowered.program.pretty());
}

/// Every statement in a tree, including the bodies of nested blocks.
fn walk(s: &Statement, f: &mut impl FnMut(&Statement)) {
    f(s);
    let blocks: Vec<&Block> = match s {
        Statement::Substitute(_, b) => vec![b],
        Statement::Switch { arms, default, .. } => {
            let mut bs: Vec<&Block> = arms.iter().map(|(_, b)| b).collect();
            bs.push(default);
            bs
        }
        Statement::Extern { blocks, .. } => blocks.iter().collect(),
        Statement::New { methods, rest, .. } => {
            walk(rest, f);
            methods.iter().collect()
        }
        Statement::Let { rest, .. } => {
            walk(rest, f);
            vec![]
        }
        Statement::Mark(_, inner) => {
            walk(inner, f);
            vec![]
        }
        Statement::Jump(_) | Statement::Invoke(..) | Statement::Error(_) => vec![],
    };
    for b in blocks {
        walk(&b.body, f);
    }
}

/// A literal operand rides inside the `extern` instead of becoming a value.
#[test]
fn a_literal_operand_is_folded_into_the_primitive() {
    let term = prim(Prim::Sub, vec![lit(7), lit(1)]);
    let lowered = lower_program(main_def(term), OptLevel::default());

    let mut folded = false;
    let mut unfolded = false;
    for def in &lowered.program.defs {
        walk(&def.block.body, &mut |s| {
            if let Statement::Extern { op, args, .. } = s {
                folded |= matches!(op, Extern::PrimK(Prim::Sub, Lit::Int(1))) && args.len() == 1;
                unfolded |= matches!(op, Extern::Prim(Prim::Sub));
            }
        });
    }
    // The `7` is still produced — only the right operand folds — and the
    // subtraction takes it as its one argument.
    assert!(folded, "expected a folded `Sub .. 1`, got {}", lowered.program.pretty());
    assert!(!unfolded, "the unfolded form should be gone: {}", lowered.program.pretty());
}

/// `if n == 0` is one statement: the comparison, the literal and the branch.
#[test]
fn a_comparison_fuses_into_the_branch_that_tests_it() {
    let n = 1;
    let term = Term::Let(
        n,
        Poly::mono(whole()),
        Box::new(lit(3)),
        Box::new(Term::If(
            Box::new(Term::Prim(Prim::Eq, vec![Term::Var(n), lit(0)], con(symbol::BOOL_TRUE))),
            Box::new(lit(1)),
            Box::new(lit(2)),
        )),
    );
    let lowered = lower_program(main_def(term), OptLevel::default());

    let mut found = false;
    for def in &lowered.program.defs {
        walk(&def.block.body, &mut |s| {
            if let Statement::Extern { op, args, blocks } = s {
                if let Extern::BranchPrimK(Prim::Eq, Lit::Int(0)) = op {
                    assert_eq!(args.len(), 1, "one operand; the other is the literal");
                    assert_eq!(blocks.len(), 2, "false and true");
                    found = true;
                }
                assert!(!matches!(op, Extern::Branch), "the unfused branch should be gone");
            }
        });
    }
    assert!(found, "{}", lowered.program.pretty());
}

/// At `-O2` a `match` over distinct constructors is one `switch`.
#[test]
fn case_trees_replace_the_chain_at_o2() {
    // `match x with | Nothing -> 0 | Just y -> y | _ -> 0`
    let (x, y) = (1, 2);
    let arms_at = |opt| {
        let mut symbols = Symbols::new();
        let (nothing, just) = (symbols.intern("Nothing"), symbols.intern("Just"));
        let case = Term::Case(
            Box::new(Term::Var(x)),
            vec![
                arm(Pat::Ctor(nothing, vec![]), lit(0)),
                arm(Pat::Ctor(just, vec![Pat::Var(y, whole())]), Term::Var(y)),
                arm(Pat::Wild, lit(0)),
            ],
            whole(),
        );
        let term = Term::Let(
            x,
            Poly::mono(Ty::Unknown),
            Box::new(Term::Ctor(just, Ty::Unknown, vec![lit(9)])),
            Box::new(case),
        );
        let lowered = lower_program(main_in(symbols, term), opt);
        let mut widths = Vec::new();
        for def in &lowered.program.defs {
            walk(&def.block.body, &mut |s| {
                if let Statement::Switch { arms, .. } = s {
                    widths.push(arms.len());
                }
            });
        }
        widths.sort_unstable();
        widths
    };

    // One switch per arm, each testing one tag ...
    assert_eq!(arms_at(OptLevel::O1), vec![1, 1]);
    // ... against one switch that tests both.
    assert_eq!(arms_at(OptLevel::O2), vec![2]);
}

fn outcome(p: CoreProgram) -> String {
    let lowered = lower_program(p, OptLevel::default());
    assert!(lowered.unsupported.is_empty());
    let (m, out) = Machine::run(&lowered.program, 10_000);
    match out {
        Ok(Out::Done(v)) => v.to_text(&lowered.program.symbols, &m.unwrap().heap).unwrap(),
        Ok(_) => panic!("waits"),
        Err(e) => panic!(
            "{}\n{}",
            meadow::eval::show::plain(&e.msg).unwrap(),
            lowered.program.pretty()
        ),
    }
}

#[test]
fn what_is_lowered_runs() {
    let term = prim(Prim::Mul, vec![prim(Prim::Add, vec![lit(1), lit(2)]), lit(3)]);
    assert_eq!(outcome(main_def(term)), "9");
    let x = 1;
    let id = Term::Lam(x, whole(), Box::new(prim(Prim::Add, vec![Term::Var(x), lit(1)])));
    assert_eq!(outcome(main_def(Term::App(Box::new(id), Box::new(lit(41))))), "42");
}

#[test]
fn calling_a_lambda_is_a_permutation_and_a_branch() {
    // `(\x -> x) 1`. The call site should end in exactly the two statements the
    // IR promises: rearrange the registers, then jump into the method. A function is
    // called with its argument, the continuation and the evidence.
    let x = 1;
    let term = Term::App(Box::new(Term::Lam(x, whole(), Box::new(Term::Var(x)))), Box::new(lit(1)));
    let lowered = lower_program(main_def(term), OptLevel::default());
    assert!(lowered.unsupported.is_empty());

    let mut found = false;
    for def in &lowered.program.defs {
        walk(&def.block.body, &mut |s| {
            if let Statement::Substitute(sel, block) = s {
                if sel.len() == 4 && matches!(block.body, Statement::Invoke(f, 0) if f == sel[0]) {
                    found = true;
                }
            }
        });
    }
    assert!(
        found,
        "expected `substitute [f, arg, k, ev] in {{ invoke f#0 }}`\n{}",
        lowered.program.pretty()
    );
}

#[test]
fn a_letrec_becomes_labels_sharing_one_parameter_list() {
    // `let n = 1 in letrec f = \x -> g x; g = \x -> f n in f 0`
    //
    // Both bindings capture `n`, so both blocks take `[n, k, ev]` and a reference to
    // either is a substitute of that shape followed by a jump. The point is that
    // mutual recursion needs no object pointing at itself.
    let (n, f, g, a, b) = (1, 2, 3, 4, 5);
    let call = |f: Var, x: Term| Term::App(Box::new(Term::Var(f)), Box::new(x));
    let term = Term::Let(
        n,
        Poly::mono(whole()),
        Box::new(lit(1)),
        Box::new(Term::LetRec(
            vec![
                (f, Poly::mono(whole()), Term::Lam(a, whole(), Box::new(call(g, Term::Var(a))))),
                (g, Poly::mono(whole()), Term::Lam(b, whole(), Box::new(call(f, Term::Var(n))))),
            ],
            Box::new(call(f, lit(0))),
        )),
    );
    let lowered = lower_program(main_def(term), OptLevel::default());
    assert!(lowered.unsupported.is_empty());

    // One definition for `main`, one per `letrec` binding.
    assert_eq!(lowered.program.defs.len(), 3, "{}", lowered.program.pretty());
    for def in &lowered.program.defs[1..] {
        assert_eq!(
            def.block.params,
            vec![n, def.block.params[1], def.block.params[2]],
            "a lifted binding takes the group's captures, then the continuation and the evidence"
        );
    }
}

/// Every name a statement uses is where it is used, every block names the whole environment,
/// every transfer stands behind a substitution, and every value's descriptor is where the
/// value is. How many values were described.
fn sound(s: &Statement, env: &[u32], p: &meadow::seq::ir::Program) -> usize {
    let all = |xs: &[u32]| assert!(xs.iter().all(|x| env.contains(x)), "{xs:?} not all in {env:?}\n{}", p.pretty());
    let front = |x: u32| std::iter::once(x).chain(env.iter().copied()).collect::<Vec<u32>>();
    let mut described = 0;
    for n in env {
        if let Some(Rep::Var(d)) = p.reps.get(n) {
            if *d != NO_DESC {
                assert!(env.contains(d), "{n} without its descriptor {d}\n{}", p.pretty());
                described += 1;
            }
        }
    }
    described
        + match s {
            Statement::Substitute(sel, b) => {
                all(sel);
                assert_eq!(sel.len(), b.params.len());
                match &b.body {
                    Statement::Jump(l) => {
                        let to = p.defs.iter().find(|d| d.label == *l).unwrap();
                        assert_eq!(sel.len(), to.block.params.len(), "{}", p.pretty());
                        0
                    }
                    Statement::Invoke(f, _) => {
                        assert_eq!(b.params[0], *f);
                        0
                    }
                    body => sound(body, &b.params, p),
                }
            }
            Statement::Jump(_) | Statement::Invoke(..) => panic!("a transfer with nothing before it"),
            Statement::Error(_) => 0,
            Statement::Let { name, fields, rest, .. } => {
                all(fields);
                sound(rest, &front(*name), p)
            }
            Statement::Switch { scrutinee, arms, default } => {
                all(&[*scrutinee]);
                assert_eq!(default.params, env);
                assert!(arms.iter().all(|(_, b)| b.params.ends_with(env)));
                let arms: usize = arms.iter().map(|(_, b)| sound(&b.body, &b.params, p)).sum();
                arms + sound(&default.body, &default.params, p)
            }
            Statement::New { name, captures, methods, rest } => {
                all(captures);
                assert!(methods.iter().all(|m| m.params.starts_with(captures)));
                let inside: usize = methods.iter().map(|m| sound(&m.body, &m.params, p)).sum();
                inside + sound(rest, &front(*name), p)
            }
            Statement::Extern { op, args, blocks } => {
                all(args);
                let own = if op.is_branch() { 0 } else { 1 };
                assert!(blocks.iter().all(|b| b.params[own..] == *env));
                blocks.iter().map(|b| sound(&b.body, &b.params, p)).sum()
            }
            Statement::Mark(_, inner) => sound(inner, env, p),
        }
}

fn all_sound(p: CoreProgram, opt: OptLevel) -> usize {
    let lowered = lower_program(p, opt);
    assert!(lowered.unsupported.is_empty());
    let p = &lowered.program;
    p.defs.iter().map(|d| sound(&d.block.body, &d.block.params, p)).sum()
}

#[test]
fn what_is_lowered_holds_together() {
    let call = |f: Var, x: Term| Term::App(Box::new(Term::Var(f)), Box::new(x));
    let (n, f, g, a, b) = (1, 2, 3, 4, 5);
    let group = || {
        Term::Let(
            n,
            Poly::mono(whole()),
            Box::new(lit(1)),
            Box::new(Term::LetRec(
                vec![
                    (f, Poly::mono(whole()), Term::Lam(a, whole(), Box::new(call(g, Term::Var(a))))),
                    (g, Poly::mono(whole()), Term::Lam(b, whole(), Box::new(call(f, Term::Var(n))))),
                ],
                Box::new(call(f, lit(0))),
            )),
        )
    };
    let tests = || {
        let two = Term::Tuple(vec![prim(Prim::Add, vec![lit(1), lit(2)]), lit(4)]);
        let arms = vec![
            arm(Pat::Tuple(vec![Pat::Lit(Lit::Int(0)), Pat::Var(n, whole())]), Term::Var(n)),
            arm(Pat::Tuple(vec![Pat::Var(a, whole()), Pat::Wild]), prim(Prim::Mul, vec![Term::Var(a), Term::Var(a)])),
        ];
        Term::Case(Box::new(two), arms, whole())
    };
    for opt in [OptLevel::O0, OptLevel::O1, OptLevel::O2] {
        assert_eq!(all_sound(main_def(group()), opt), 0);
        assert_eq!(all_sound(main_def(tests()), opt), 0);
    }
}

#[test]
fn a_descriptor_is_wherever_its_value_is() {
    // `first = /\t. \x:t. \y:t. x`, whose inner function captures a value only the
    // descriptor of `t` explains.
    let (first, main, x, y, t) = (50, 51, 1, 2, 7);
    let of = || Ty::Var(t);
    let inner = Term::Lam(y, of(), Box::new(Term::Var(x)));
    let term = Term::TyLam(
        9,
        vec![TyVar { id: t, kind: VarKind::Type }],
        Box::new(Term::Lam(x, of(), Box::new(inner))),
    );
    let mut symbols = Symbols::new();
    let at = Term::TyApp(Box::new(Term::Var(first)), vec![whole()]);
    let run = Term::App(Box::new(Term::App(Box::new(at), Box::new(lit(1)))), Box::new(lit(2)));
    let defs = vec![def(&mut symbols, first, "first", term), def(&mut symbols, main, "main", run)];
    assert!(all_sound(made_of(symbols, defs, main), OptLevel::O1) > 0, "nothing was described");
}
