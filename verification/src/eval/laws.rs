//! What terms come to: the rules of evaluation, as laws of the machine's steps.
//!
//! Each law says what a term comes to in terms of what its parts come to. None of them
//! says how: whatever waits for the term on the stack waits for it unchanged.

use super::equal::field_at;
use super::machine::{
    arm_for, clause_at, handler_at, handles, lookup, put_field, record_of, slot_of, stepped, ControlV, FrameV, SeqKind,
    Stepped, KV, M,
};
use super::pattern::matched;
use super::prim::{run_op, AnswerV};
use super::run::{loaded, outcome, ticked, ticks};
use super::term::{HClause, HandlerData, Lit, Pat, Prim, Program, Term, Var};
use super::value::{Env, ValueV};
use crate::terms::symbol::Sym;
use std::rc::Rc;
use vstd::prelude::*;

verus! {

/// `n` steps.
pub open spec fn walk(m: M, n: nat) -> Stepped
    decreases n,
{
    if n == 0 {
        Ok(m)
    } else {
        match stepped(m) {
            Ok(m1) => walk(m1, (n - 1) as nat),
            Err(e) => Err(e),
        }
    }
}

/// The machine `a` comes to be the machine `b`.
pub open spec fn reaches(a: M, b: M) -> bool {
    exists|n: nat| #[trigger] walk(a, n) == Stepped::Ok(b)
}

/// The machine with the stack `ks`, at `c`.
pub open spec fn at(m: M, ks: Seq<KV>, c: ControlV) -> M {
    M { ctrl: c, kont: ks, ..m }
}

/// Whatever waits for it, `t` in `env` comes to `v`; `m` is what there is of frames and
/// captured stacks before, and `m2` what there is after.
pub open spec fn comes_to(m: M, t: Rc<Term>, env: Env, v: ValueV, m2: M) -> bool {
    forall|ks: Seq<KV>| #[trigger]
        reaches(at(m, ks, ControlV::Eval(t, env)), at(m2, ks, ControlV::Ret(v)))
}

// --- steps ---

proof fn lemma_walk(m: M, i: nat, n: nat)
    requires
        walk(m, i) is Ok,
    ensures
        walk(m, i + n) == walk(walk(m, i)->Ok_0, n),
    decreases i,
{
    if i > 0 {
        lemma_walk(stepped(m)->Ok_0, (i - 1) as nat, n);
    }
}

proof fn lemma_then(a: M, b: M, c: M)
    requires
        reaches(a, b),
        reaches(b, c),
    ensures
        reaches(a, c),
{
    let i = choose|i: nat| #[trigger] walk(a, i) == Stepped::Ok(b);
    let n = choose|n: nat| #[trigger] walk(b, n) == Stepped::Ok(c);
    lemma_walk(a, i, n);
    assert(walk(a, i + n) == Stepped::Ok(c));
}

proof fn lemma_step(a: M, b: M)
    requires
        stepped(a) == Stepped::Ok(b),
    ensures
        reaches(a, b),
{
    assert(walk(b, 0) == Stepped::Ok(b));
    assert(walk(a, 1) == Stepped::Ok(b));
}

proof fn lemma_part(m: M, t: Rc<Term>, env: Env, v: ValueV, m2: M, ks: Seq<KV>)
    requires
        comes_to(m, t, env, v, m2),
    ensures
        reaches(at(m, ks, ControlV::Eval(t, env)), at(m2, ks, ControlV::Ret(v))),
{
}

/// A value that came back goes to the frame that waits for it.
proof fn lemma_given(m: M, ks: Seq<KV>, k: KV, v: ValueV, b: M)
    requires
        super::machine::ret_to(at(m, ks, ControlV::Ret(v)), k, v) == Stepped::Ok(b),
    ensures
        reaches(at(m, ks.push(k), ControlV::Ret(v)), b),
{
    reveal(stepped);
    let a = at(m, ks.push(k), ControlV::Ret(v));
    assert(a.kont.drop_last() =~= ks);
    assert(M { kont: a.kont.drop_last(), ..a } == at(m, ks, ControlV::Ret(v)));
    lemma_step(a, b);
}

// --- environments ---

proof fn lemma_lookup_grows(frames: Seq<FrameV>, f: FrameV, env: Env, x: Var)
    requires
        env < frames.len(),
    ensures
        lookup(frames.push(f), env, x) == lookup(frames, env, x),
    decreases env,
{
    let g = frames[env as int];
    assert(frames.push(f)[env as int] == g);
    if slot_of(g.slots, x, g.slots.len()) is None {
        if let Some(p) = g.parent {
            if p < env {
                lemma_lookup_grows(frames, f, p, x);
            }
        }
    }
}

/// In a scope where `x` is bound to `v`, `x` is `v`, every other variable is what it is
/// around the scope, and nothing has changed in the environments there were.
pub proof fn a_scope_binds_its_variable(m: M, env: Env, x: Var, v: ValueV, y: Var, other: Env)
    requires
        env < m.frames.len() < usize::MAX,
        other < m.frames.len(),
    ensures
        lookup(m.child(env, seq![(x, v)]).frames, m.scope(), x) == Some(v),
        y != x ==> lookup(m.child(env, seq![(x, v)]).frames, m.scope(), y) == lookup(m.frames, env, y),
        lookup(m.child(env, seq![(x, v)]).frames, other, y) == lookup(m.frames, other, y),
{
    let s = seq![(x, v)];
    let f = FrameV { slots: s, parent: Some(env) };
    reveal_with_fuel(slot_of, 2);
    assert(s[0] == (x, v));
    lemma_lookup_grows(m.frames, f, env, y);
    lemma_lookup_grows(m.frames, f, other, y);
    assert(m.frames.push(f)[m.frames.len() as int] == f);
}

// --- values ---

/// A variable comes to what it is bound to, a literal to what it says, and a function to
/// itself with the environment it was made in.
pub proof fn a_variable_comes_to_what_it_is(m: M, t: Rc<Term>, x: Var, env: Env, v: ValueV)
    requires
        *t == Term::Var(x),
        lookup(m.frames, env, x) == Some(v),
    ensures
        comes_to(m, t, env, v, m),
{
    reveal(stepped);
    assert forall|ks: Seq<KV>| #[trigger]
        reaches(at(m, ks, ControlV::Eval(t, env)), at(m, ks, ControlV::Ret(v))) by {
        lemma_step(at(m, ks, ControlV::Eval(t, env)), at(m, ks, ControlV::Ret(v)));
    }
}

pub proof fn a_literal_comes_to_what_it_says(m: M, t: Rc<Term>, n: i64, b: bool, env: Env)
    ensures
        *t == Term::Lit(Lit::Int(n)) ==> comes_to(m, t, env, ValueV::Int(n), m),
        *t == Term::Lit(Lit::Bool(b)) ==> comes_to(m, t, env, ValueV::Bool(b), m),
        *t == Term::Lit(Lit::Unit) ==> comes_to(m, t, env, ValueV::Unit, m),
{
    reveal(stepped);
    assert forall|ks: Seq<KV>, v: ValueV|
        (*t == Term::Lit(Lit::Int(n)) && v == ValueV::Int(n)) || (*t == Term::Lit(Lit::Bool(b)) && v == ValueV::Bool(b)) || (
        *t == Term::Lit(Lit::Unit) && v == ValueV::Unit) implies #[trigger] reaches(
        at(m, ks, ControlV::Eval(t, env)),
        at(m, ks, ControlV::Ret(v)),
    ) by {
        lemma_step(at(m, ks, ControlV::Eval(t, env)), at(m, ks, ControlV::Ret(v)));
    }
}

pub proof fn a_function_comes_to_itself(m: M, t: Rc<Term>, param: Var, body: Rc<Term>, env: Env)
    requires
        *t == Term::Lam(param, body),
    ensures
        comes_to(m, t, env, ValueV::Closure { param, body, env }, m),
{
    reveal(stepped);
    let v = ValueV::Closure { param, body, env };
    assert forall|ks: Seq<KV>| #[trigger]
        reaches(at(m, ks, ControlV::Eval(t, env)), at(m, ks, ControlV::Ret(v))) by {
        lemma_step(at(m, ks, ControlV::Eval(t, env)), at(m, ks, ControlV::Ret(v)));
    }
}

// --- control ---

/// `if` comes to what its first branch does where the condition is true, and to what its
/// second does where it is false.
pub proof fn if_comes_to_the_branch_its_condition_says(
    m: M,
    t: Rc<Term>,
    c: Rc<Term>,
    yes: Rc<Term>,
    no: Rc<Term>,
    env: Env,
    b: bool,
    m1: M,
    v: ValueV,
    m2: M,
)
    requires
        *t == Term::If(c, yes, no),
        comes_to(m, c, env, ValueV::Bool(b), m1),
        b ==> comes_to(m1, yes, env, v, m2),
        !b ==> comes_to(m1, no, env, v, m2),
    ensures
        comes_to(m, t, env, v, m2),
{
    reveal(stepped);
    assert forall|ks: Seq<KV>| #[trigger]
        reaches(at(m, ks, ControlV::Eval(t, env)), at(m2, ks, ControlV::Ret(v))) by {
        let k = KV::If { yes, no, env };
        let start = at(m, ks, ControlV::Eval(t, env));
        let inside = at(m, ks.push(k), ControlV::Eval(c, env));
        let known = at(m1, ks.push(k), ControlV::Ret(ValueV::Bool(b)));
        lemma_step(start, inside);
        lemma_part(m, c, env, ValueV::Bool(b), m1, ks.push(k));
        lemma_then(start, inside, known);
        let next = if b {
            yes
        } else {
            no
        };
        let on = at(m1, ks, ControlV::Eval(next, env));
        lemma_given(m1, ks, k, ValueV::Bool(b), on);
        lemma_then(start, known, on);
        lemma_part(m1, next, env, v, m2, ks);
        lemma_then(start, on, at(m2, ks, ControlV::Ret(v)));
    }
}

/// `let` comes to what its body does where the variable is what the bound term comes to.
pub proof fn let_comes_to_its_body_with_the_variable_bound(
    m: M,
    t: Rc<Term>,
    x: Var,
    rhs: Rc<Term>,
    body: Rc<Term>,
    env: Env,
    u: ValueV,
    m1: M,
    v: ValueV,
    m2: M,
)
    requires
        *t == Term::Let(x, rhs, body),
        comes_to(m, rhs, env, u, m1),
        comes_to(m1.child(env, seq![(x, u)]), body, m1.scope(), v, m2),
    ensures
        comes_to(m, t, env, v, m2),
{
    reveal(stepped);
    assert forall|ks: Seq<KV>| #[trigger]
        reaches(at(m, ks, ControlV::Eval(t, env)), at(m2, ks, ControlV::Ret(v))) by {
        lemma_let_binds(m, t, x, rhs, body, env, u, m1, ks);
        let m3 = m1.child(env, seq![(x, u)]);
        lemma_part(m3, body, m1.scope(), v, m2, ks);
        lemma_then(
            at(m, ks, ControlV::Eval(t, env)),
            at(m3, ks, ControlV::Eval(body, m1.scope())),
            at(m2, ks, ControlV::Ret(v)),
        );
    }
}

proof fn lemma_let_binds(
    m: M,
    t: Rc<Term>,
    x: Var,
    rhs: Rc<Term>,
    body: Rc<Term>,
    env: Env,
    u: ValueV,
    m1: M,
    ks: Seq<KV>,
)
    requires
        *t == Term::Let(x, rhs, body),
        comes_to(m, rhs, env, u, m1),
    ensures
        reaches(
            at(m, ks, ControlV::Eval(t, env)),
            at(m1.child(env, seq![(x, u)]), ks, ControlV::Eval(body, m1.scope())),
        ),
{
    reveal(stepped);
    let k = KV::Bind { var: x, body, env };
    let start = at(m, ks, ControlV::Eval(t, env));
    let inside = at(m, ks.push(k), ControlV::Eval(rhs, env));
    let known = at(m1, ks.push(k), ControlV::Ret(u));
    let on = at(m1.child(env, seq![(x, u)]), ks, ControlV::Eval(body, m1.scope()));
    lemma_step(start, inside);
    lemma_part(m, rhs, env, u, m1, ks.push(k));
    lemma_then(start, inside, known);
    lemma_given(m1, ks, k, u, on);
    lemma_then(start, known, on);
}

/// A call comes to what the function's body does where its parameter is what the argument
/// comes to, in the environment the function was made in. The function is evaluated first.
pub proof fn a_call_comes_to_the_functions_body(
    m: M,
    t: Rc<Term>,
    f: Rc<Term>,
    a: Rc<Term>,
    env: Env,
    param: Var,
    body: Rc<Term>,
    made: Env,
    m1: M,
    u: ValueV,
    m2: M,
    v: ValueV,
    m3: M,
)
    requires
        *t == Term::App(f, a),
        comes_to(m, f, env, ValueV::Closure { param, body, env: made }, m1),
        comes_to(m1, a, env, u, m2),
        comes_to(m2.child(made, seq![(param, u)]), body, m2.scope(), v, m3),
    ensures
        comes_to(m, t, env, v, m3),
{
    reveal(stepped);
    assert forall|ks: Seq<KV>| #[trigger]
        reaches(at(m, ks, ControlV::Eval(t, env)), at(m3, ks, ControlV::Ret(v))) by {
        let func = ValueV::Closure { param, body, env: made };
        let k1 = KV::EvalArg { arg: a, env };
        let k2 = KV::ApplyTo { func };
        let start = at(m, ks, ControlV::Eval(t, env));
        let s1 = at(m, ks.push(k1), ControlV::Eval(f, env));
        let s2 = at(m1, ks.push(k1), ControlV::Ret(func));
        let s3 = at(m1, ks.push(k2), ControlV::Eval(a, env));
        let s4 = at(m2, ks.push(k2), ControlV::Ret(u));
        let m4 = m2.child(made, seq![(param, u)]);
        let s5 = at(m4, ks, ControlV::Eval(body, m2.scope()));
        lemma_step(start, s1);
        lemma_part(m, f, env, func, m1, ks.push(k1));
        lemma_then(start, s1, s2);
        lemma_given(m1, ks, k1, func, s3);
        lemma_then(start, s2, s3);
        lemma_part(m1, a, env, u, m2, ks.push(k2));
        lemma_then(start, s3, s4);
        lemma_given(m2, ks, k2, u, s5);
        lemma_then(start, s4, s5);
        lemma_part(m4, body, m2.scope(), v, m3, ks);
        lemma_then(start, s5, at(m3, ks, ControlV::Ret(v)));
    }
}

/// A match comes to what the first arm whose pattern matches does, with what the pattern
/// binds.
pub proof fn a_match_comes_to_the_first_arm_that_matches(
    m: M,
    t: Rc<Term>,
    scrut: Rc<Term>,
    arms: Rc<Vec<(Pat, Rc<Term>)>>,
    env: Env,
    u: ValueV,
    m1: M,
    i: int,
    b: Seq<(Var, ValueV)>,
    v: ValueV,
    m2: M,
)
    requires
        *t == Term::Case(scrut, arms),
        comes_to(m, scrut, env, u, m1),
        0 <= i < arms@.len(),
        matched(arms@[i].0, u, m1.names) == Some(b),
        forall|j: int| 0 <= j < i ==> matched((#[trigger] arms@[j]).0, u, m1.names) is None,
        comes_to(m1.child(env, b), arms@[i].1, m1.scope(), v, m2),
    ensures
        comes_to(m, t, env, v, m2),
{
    reveal(stepped);
    lemma_first_arm(arms@, u, m1.names, 0, i, b);
    assert forall|ks: Seq<KV>| #[trigger]
        reaches(at(m, ks, ControlV::Eval(t, env)), at(m2, ks, ControlV::Ret(v))) by {
        let k = KV::Match { arms, env };
        let start = at(m, ks, ControlV::Eval(t, env));
        let inside = at(m, ks.push(k), ControlV::Eval(scrut, env));
        let known = at(m1, ks.push(k), ControlV::Ret(u));
        let m3 = m1.child(env, b);
        let on = at(m3, ks, ControlV::Eval(arms@[i].1, m1.scope()));
        lemma_step(start, inside);
        lemma_part(m, scrut, env, u, m1, ks.push(k));
        lemma_then(start, inside, known);
        lemma_given(m1, ks, k, u, on);
        lemma_then(start, known, on);
        lemma_part(m3, arms@[i].1, m1.scope(), v, m2, ks);
        lemma_then(start, on, at(m2, ks, ControlV::Ret(v)));
    }
}

proof fn lemma_first_arm(
    arms: Seq<(Pat, Rc<Term>)>,
    u: ValueV,
    names: Seq<Seq<char>>,
    from: nat,
    i: int,
    b: Seq<(Var, ValueV)>,
)
    requires
        from <= i < arms.len(),
        matched(arms[i].0, u, names) == Some(b),
        forall|j: int| from <= j < i ==> matched((#[trigger] arms[j]).0, u, names) is None,
    ensures
        arm_for(arms, u, names, from) == Some((arms[i].1, b)),
    decreases i - from,
{
    if from < i {
        assert(matched(arms[from as int].0, u, names) is None);
        lemma_first_arm(arms, u, names, from + 1, i, b);
    }
}

// --- several terms ---

/// Terms that come to values one after the other: term `i` finds `ms[i]` and leaves
/// `ms[i + 1]`.
pub open spec fn all_come_to(ms: Seq<M>, items: Seq<Rc<Term>>, env: Env, vs: Seq<ValueV>) -> bool {
    &&& vs.len() == items.len()
    &&& ms.len() == items.len() + 1
    &&& forall|i: int| 0 <= i < items.len() ==> comes_to(ms[i], #[trigger] items[i], env, vs[i], ms[i + 1])
}

proof fn lemma_built(
    m: M,
    kind: SeqKind,
    items: Rc<Vec<Rc<Term>>>,
    env: Env,
    vs: Seq<ValueV>,
    ms: Seq<M>,
    ks: Seq<KV>,
    n: nat,
)
    requires
        all_come_to(ms, items@, env, vs),
        ms[0] == m,
        n < items@.len(),
    ensures
        reaches(
            at(m, ks.push(KV::Build { kind, done: Seq::empty(), items, env }), ControlV::Eval(items@[0], env)),
            at(
                ms[n as int],
                ks.push(KV::Build { kind, done: vs.take(n as int), items, env }),
                ControlV::Eval(items@[n as int], env),
            ),
        ),
    decreases n,
{
    reveal(stepped);
    let start = at(m, ks.push(KV::Build { kind, done: Seq::empty(), items, env }), ControlV::Eval(items@[0], env));
    if n == 0 {
        assert(vs.take(0) =~= Seq::empty());
        assert(walk(start, 0) == Stepped::Ok(start));
    } else {
        lemma_built(m, kind, items, env, vs, ms, ks, (n - 1) as nat);
        let k = KV::Build { kind, done: vs.take(n - 1), items, env };
        let k2 = KV::Build { kind, done: vs.take(n as int), items, env };
        assert(vs.take(n - 1).push(vs[n - 1]) =~= vs.take(n as int));
        let a = at(ms[n - 1], ks.push(k), ControlV::Eval(items@[n - 1], env));
        let b = at(ms[n as int], ks.push(k), ControlV::Ret(vs[n - 1]));
        let c = at(ms[n as int], ks.push(k2), ControlV::Eval(items@[n as int], env));
        assert(comes_to(ms[n - 1], items@[n - 1], env, vs[n - 1], ms[n as int]));
        lemma_part(ms[n - 1], items@[n - 1], env, vs[n - 1], ms[n as int], ks.push(k));
        lemma_then(start, a, b);
        lemma_given(ms[n as int], ks, k, vs[n - 1], c);
        lemma_then(start, b, c);
    }
}

/// What a list of terms that came to `vs` is built into.
proof fn lemma_list(
    m: M,
    t: Rc<Term>,
    kind: SeqKind,
    items: Rc<Vec<Rc<Term>>>,
    env: Env,
    vs: Seq<ValueV>,
    ms: Seq<M>,
    v: ValueV,
)
    requires
        all_come_to(ms, items@, env, vs),
        ms[0] == m,
        super::machine::eval_term(m, t, env) == Stepped::Ok(super::machine::started(m, items, env, kind)),
        forall|ks: Seq<KV>, c: ControlV| #[trigger]
            super::machine::eval_term(at(m, ks, c), t, env) == Stepped::Ok(
                super::machine::started(at(m, ks, c), items, env, kind),
            ),
        items@.len() == 0 ==> super::machine::nothing(kind) == v,
        forall|ks: Seq<KV>, c: ControlV| #[trigger]
            super::machine::finished(at(ms[items@.len() as int], ks, c), kind, vs) == Stepped::Ok(
                at(ms[items@.len() as int], ks, ControlV::Ret(v)),
            ),
    ensures
        comes_to(m, t, env, v, ms[items@.len() as int]),
{
    reveal(stepped);
    let last = ms[items@.len() as int];
    assert forall|ks: Seq<KV>| #[trigger]
        reaches(at(m, ks, ControlV::Eval(t, env)), at(last, ks, ControlV::Ret(v))) by {
        let start = at(m, ks, ControlV::Eval(t, env));
        if items@.len() == 0 {
            lemma_step(start, at(m, ks, ControlV::Ret(v)));
        } else {
            let n = (items@.len() - 1) as nat;
            let k0 = KV::Build { kind, done: Seq::empty(), items, env };
            let k = KV::Build { kind, done: vs.take(n as int), items, env };
            let a = at(m, ks.push(k0), ControlV::Eval(items@[0], env));
            let b = at(ms[n as int], ks.push(k), ControlV::Eval(items@[n as int], env));
            let c = at(last, ks.push(k), ControlV::Ret(vs[n as int]));
            let d = at(last, ks, ControlV::Ret(v));
            lemma_step(start, a);
            lemma_built(m, kind, items, env, vs, ms, ks, n);
            lemma_then(start, a, b);
            assert(comes_to(ms[n as int], items@[n as int], env, vs[n as int], last));
            lemma_part(ms[n as int], items@[n as int], env, vs[n as int], last, ks.push(k));
            lemma_then(start, b, c);
            assert(vs.take(n as int).push(vs[n as int]) =~= vs);
            lemma_given(last, ks, k, vs[n as int], d);
            lemma_then(start, c, d);
        }
    }
}

/// A tuple, an array, a list or a constructor comes to what its items come to, left to
/// right, in the same places.
pub proof fn data_comes_to_its_items(
    t: Rc<Term>,
    items: Rc<Vec<Rc<Term>>>,
    c: Sym,
    env: Env,
    vs: Seq<ValueV>,
    ms: Seq<M>,
)
    requires
        all_come_to(ms, items@, env, vs),
    ensures
        *t == Term::Tuple(items) ==> comes_to(ms[0], t, env, ValueV::Tuple(vs), ms.last()),
        *t == Term::Array(items) ==> comes_to(ms[0], t, env, ValueV::Array(vs), ms.last()),
        *t == Term::List(items) ==> comes_to(ms[0], t, env, ValueV::List(vs), ms.last()),
        *t == Term::Ctor(c, items) ==> comes_to(ms[0], t, env, ValueV::Ctor(c, vs), ms.last()),
{
    assert(items@.len() == 0 ==> vs =~= Seq::empty());
    match *t {
        Term::Tuple(xs) => {
            if xs == items {
                lemma_list(ms[0], t, SeqKind::Tuple, items, env, vs, ms, ValueV::Tuple(vs));
            }
        },
        Term::Array(xs) => {
            if xs == items {
                lemma_list(ms[0], t, SeqKind::Array, items, env, vs, ms, ValueV::Array(vs));
            }
        },
        Term::List(xs) => {
            if xs == items {
                lemma_list(ms[0], t, SeqKind::List, items, env, vs, ms, ValueV::List(vs));
            }
        },
        Term::Ctor(d, xs) => {
            if xs == items && d == c {
                lemma_list(ms[0], t, SeqKind::Ctor(c), items, env, vs, ms, ValueV::Ctor(c, vs));
            }
        },
        _ => {},
    }
}

/// A primitive comes to what it answers to what its arguments come to, in order.
pub proof fn a_primitive_comes_to_its_answer(
    t: Rc<Term>,
    op: Prim,
    items: Rc<Vec<Rc<Term>>>,
    env: Env,
    vs: Seq<ValueV>,
    ms: Seq<M>,
    v: ValueV,
)
    requires
        *t == Term::Prim(op, items),
        items@.len() > 0,
        all_come_to(ms, items@, env, vs),
        run_op(op, vs, ms.last().names) == Ok::<AnswerV, Seq<super::shown::PieceV>>(AnswerV::Value(v)),
    ensures
        comes_to(ms[0], t, env, v, ms.last()),
{
    lemma_list(ms[0], t, SeqKind::Prim(op), items, env, vs, ms, v);
}

// --- parts of data ---

/// A projection comes to the item in that place.
pub proof fn a_projection_comes_to_the_item(
    m: M,
    t: Rc<Term>,
    of: Rc<Term>,
    i: usize,
    env: Env,
    xs: Seq<ValueV>,
    m1: M,
)
    requires
        *t == Term::Proj(of, i),
        comes_to(m, of, env, ValueV::Tuple(xs), m1),
        i < xs.len(),
    ensures
        comes_to(m, t, env, xs[i as int], m1),
{
    reveal(stepped);
    let v = xs[i as int];
    assert forall|ks: Seq<KV>| #[trigger]
        reaches(at(m, ks, ControlV::Eval(t, env)), at(m1, ks, ControlV::Ret(v))) by {
        lemma_one(m, t, of, KV::Proj(i), env, ValueV::Tuple(xs), m1, at(m1, ks, ControlV::Ret(v)), ks);
    }
}

/// A term evaluated for a frame, which goes on to `b`.
proof fn lemma_one(m: M, t: Rc<Term>, of: Rc<Term>, k: KV, env: Env, u: ValueV, m1: M, b: M, ks: Seq<KV>)
    requires
        comes_to(m, of, env, u, m1),
        stepped(at(m, ks, ControlV::Eval(t, env))) == Stepped::Ok(at(m, ks.push(k), ControlV::Eval(of, env))),
        super::machine::ret_to(at(m1, ks, ControlV::Ret(u)), k, u) == Stepped::Ok(b),
    ensures
        reaches(at(m, ks, ControlV::Eval(t, env)), b),
{
    let start = at(m, ks, ControlV::Eval(t, env));
    let inside = at(m, ks.push(k), ControlV::Eval(of, env));
    let known = at(m1, ks.push(k), ControlV::Ret(u));
    lemma_step(start, inside);
    lemma_part(m, of, env, u, m1, ks.push(k));
    lemma_then(start, inside, known);
    lemma_given(m1, ks, k, u, b);
    lemma_then(start, known, b);
}

/// A selection comes to the field of that label.
pub proof fn a_selection_comes_to_the_field(
    m: M,
    t: Rc<Term>,
    of: Rc<Term>,
    l: Sym,
    env: Env,
    fs: Seq<(Sym, ValueV)>,
    m1: M,
    i: int,
)
    requires
        *t == Term::Sel(of, l),
        comes_to(m, of, env, ValueV::Record(fs), m1),
        0 <= i < fs.len(),
        fs[i].0 == l,
        forall|j: int| 0 <= j < i ==> (#[trigger] fs[j]).0 != l,
    ensures
        comes_to(m, t, env, fs[i].1, m1),
{
    reveal(stepped);
    lemma_field_at(fs, l, 0, i);
    let v = fs[i].1;
    assert forall|ks: Seq<KV>| #[trigger]
        reaches(at(m, ks, ControlV::Eval(t, env)), at(m1, ks, ControlV::Ret(v))) by {
        lemma_one(m, t, of, KV::Sel(l), env, ValueV::Record(fs), m1, at(m1, ks, ControlV::Ret(v)), ks);
    }
}

proof fn lemma_field_at(fs: Seq<(Sym, ValueV)>, l: Sym, from: nat, i: int)
    requires
        from <= i < fs.len(),
        fs[i].0 == l,
        forall|j: int| from <= j < i ==> (#[trigger] fs[j]).0 != l,
    ensures
        field_at(fs, l, from) == i,
    decreases i - from,
{
    if from < i {
        lemma_field_at(fs, l, from + 1, i);
    }
}

/// A record's fields are in the order of their labels.
pub open spec fn in_order(fs: Seq<(Sym, ValueV)>) -> bool {
    forall|i: int, j: int| 0 <= i < j < fs.len() ==> (#[trigger] fs[i]).0 < (#[trigger] fs[j]).0
}

/// A record has field `l`, and it is `v`.
pub open spec fn has(fs: Seq<(Sym, ValueV)>, l: Sym, v: ValueV) -> bool {
    exists|i: int| 0 <= i < fs.len() && #[trigger] fs[i] == (l, v)
}

/// A field put into a record is there, over what was there of its label; every other field
/// stays, and nothing else comes.
pub proof fn a_field_put_is_there(fs: Seq<(Sym, ValueV)>, l: Sym, v: ValueV)
    requires
        in_order(fs),
    ensures
        in_order(put_field(fs, l, v)),
        forall|k: Sym, w: ValueV| #[trigger]
            has(put_field(fs, l, v), k, w) <==> (if k == l {
                w == v
            } else {
                has(fs, k, w)
            }),
        forall|i: int|
            0 <= i < put_field(fs, l, v).len() ==> (#[trigger] put_field(fs, l, v)[i]).0 == l || exists|j: int|
                0 <= j < fs.len() && (#[trigger] fs[j]).0 == put_field(fs, l, v)[i].0,
    decreases fs.len(),
{
    let out = put_field(fs, l, v);
    if fs.len() == 0 || fs.last().0 < l {
        assert(out == fs.push((l, v)));
        assert forall|i: int, j: int| 0 <= i < j < out.len() implies (#[trigger] out[i]).0 < (#[trigger] out[j]).0 by {
            if j == fs.len() && i < fs.len() - 1 {
                assert(fs[i].0 < fs[fs.len() - 1].0);
            }
        }
        assert forall|k: Sym, w: ValueV| #[trigger]
            has(out, k, w) <==> (if k == l {
                w == v
            } else {
                has(fs, k, w)
            }) by {
            if has(out, k, w) {
                let i = choose|i: int| 0 <= i < out.len() && #[trigger] out[i] == (k, w);
                if i < fs.len() {
                    assert(fs[i] == (k, w));
                    if i < fs.len() - 1 {
                        assert(fs[i].0 < fs[fs.len() - 1].0);
                    }
                }
            }
            if k == l && w == v {
                assert(out[fs.len() as int] == (l, v));
            }
            if k != l && has(fs, k, w) {
                let i = choose|i: int| 0 <= i < fs.len() && #[trigger] fs[i] == (k, w);
                assert(out[i] == (k, w));
            }
        }
    } else {
        let front = fs.drop_last();
        let last = fs.last();
        assert forall|i: int, j: int| 0 <= i < j < front.len() implies (#[trigger] front[i]).0 < (#[trigger] front[j]).0 by {
            assert(fs[i].0 < fs[j].0);
        }
        let inner = if last.0 == l {
            front
        } else {
            put_field(front, l, v)
        };
        let end = if last.0 == l {
            (l, v)
        } else {
            last
        };
        if last.0 != l {
            a_field_put_is_there(front, l, v);
        }
        assert(out == inner.push(end));
        assert forall|i: int| 0 <= i < inner.len() implies (#[trigger] inner[i]).0 < end.0 by {
            if last.0 == l {
                assert(fs[i].0 < fs[fs.len() - 1].0);
            } else if inner[i].0 != l {
                let j = choose|j: int| 0 <= j < front.len() && (#[trigger] front[j]).0 == inner[i].0;
                assert(fs[j].0 < fs[fs.len() - 1].0);
            }
        }
        assert forall|i: int, j: int| 0 <= i < j < out.len() implies (#[trigger] out[i]).0 < (#[trigger] out[j]).0 by {
            if j < inner.len() {
                assert(out[i] == inner[i] && out[j] == inner[j]);
            } else {
                assert(out[i] == inner[i]);
            }
        }
        assert forall|k: Sym, w: ValueV| #[trigger]
            has(out, k, w) <==> (if k == l {
                w == v
            } else {
                has(fs, k, w)
            }) by {
            if has(out, k, w) {
                let i = choose|i: int| 0 <= i < out.len() && #[trigger] out[i] == (k, w);
                if i < inner.len() {
                    assert(inner[i] == (k, w));
                    if last.0 == l {
                        assert(fs[i] == (k, w));
                        assert(inner[i].0 < end.0);
                    } else {
                        assert(has(inner, k, w));
                        if k != l {
                            assert(has(front, k, w));
                            let j = choose|j: int| 0 <= j < front.len() && #[trigger] front[j] == (k, w);
                            assert(fs[j] == (k, w));
                        }
                    }
                } else if last.0 != l {
                    assert(fs[fs.len() - 1] == (k, w));
                }
            }
            if k == l && w == v {
                if last.0 == l {
                    assert(out[inner.len() as int] == (l, v));
                } else {
                    assert(has(inner, l, v));
                    let i = choose|i: int| 0 <= i < inner.len() && #[trigger] inner[i] == (l, v);
                    assert(out[i] == (l, v));
                }
            }
            if k != l && has(fs, k, w) {
                let i = choose|i: int| 0 <= i < fs.len() && #[trigger] fs[i] == (k, w);
                if i < front.len() {
                    assert(front[i] == (k, w));
                    if last.0 == l {
                        assert(out[i] == (k, w));
                    } else {
                        assert(has(front, k, w));
                        assert(has(inner, k, w));
                        let j = choose|j: int| 0 <= j < inner.len() && #[trigger] inner[j] == (k, w);
                        assert(out[j] == (k, w));
                    }
                } else {
                    assert(out[inner.len() as int] == (k, w));
                }
            }
        }
        assert forall|i: int| 0 <= i < out.len() implies (#[trigger] out[i]).0 == l || exists|j: int|
            0 <= j < fs.len() && (#[trigger] fs[j]).0 == out[i].0 by {
            if i < inner.len() {
                assert(out[i] == inner[i]);
                if last.0 == l {
                    assert(fs[i].0 == out[i].0);
                } else if inner[i].0 != l {
                    let j = choose|j: int| 0 <= j < front.len() && (#[trigger] front[j]).0 == inner[i].0;
                    assert(fs[j].0 == out[i].0);
                }
            } else {
                assert(fs[fs.len() - 1].0 == out[i].0 || out[i].0 == l);
            }
        }
    }
}

/// The last of the first `n` of some labels that is `l` was given `v`.
pub open spec fn last_given(items: Seq<(Sym, Rc<Term>)>, vs: Seq<ValueV>, n: nat, l: Sym, v: ValueV) -> bool {
    exists|i: int|
        0 <= i < n && (#[trigger] items[i]).0 == l && vs[i] == v && forall|j: int|
            i < j < n ==> (#[trigger] items[j]).0 != l
}

proof fn lemma_record_of(items: Seq<(Sym, Rc<Term>)>, vs: Seq<ValueV>, n: nat)
    requires
        n <= items.len(),
        items.len() == vs.len(),
    ensures
        in_order(record_of(items, vs, n)),
        forall|l: Sym, v: ValueV| #[trigger] has(record_of(items, vs, n), l, v) <==> last_given(items, vs, n, l, v),
    decreases n,
{
    if n > 0 {
        let k = (n - 1) as nat;
        let fs = record_of(items, vs, k);
        lemma_record_of(items, vs, k);
        a_field_put_is_there(fs, items[n - 1].0, vs[n - 1]);
        let out = record_of(items, vs, n);
        assert forall|l: Sym, v: ValueV| #[trigger] has(out, l, v) <==> last_given(items, vs, n, l, v) by {
            if has(out, l, v) {
                if l == items[n - 1].0 {
                    assert(items[n - 1].0 == l);
                } else {
                    assert(has(fs, l, v));
                    assert(last_given(items, vs, k, l, v));
                    let i = choose|i: int|
                        0 <= i < k && (#[trigger] items[i]).0 == l && vs[i] == v && forall|j: int|
                            i < j < k ==> (#[trigger] items[j]).0 != l;
                    assert(items[i].0 == l);
                    assert forall|j: int| i < j < n implies (#[trigger] items[j]).0 != l by {}
                }
            }
            if last_given(items, vs, n, l, v) {
                let i = choose|i: int|
                    0 <= i < n && (#[trigger] items[i]).0 == l && vs[i] == v && forall|j: int|
                        i < j < n ==> (#[trigger] items[j]).0 != l;
                if i < n - 1 {
                    assert(items[n - 1].0 != l);
                    assert(items[i].0 == l);
                    assert(last_given(items, vs, k, l, v));
                    assert(has(fs, l, v));
                }
            }
        }
    }
}

/// The fields' terms come to values one after the other.
pub open spec fn fields_come_to(ms: Seq<M>, items: Seq<(Sym, Rc<Term>)>, env: Env, vs: Seq<ValueV>) -> bool {
    &&& vs.len() == items.len()
    &&& ms.len() == items.len() + 1
    &&& forall|i: int| 0 <= i < items.len() ==> comes_to(ms[i], (#[trigger] items[i]).1, env, vs[i], ms[i + 1])
}

proof fn lemma_record_built(
    m: M,
    labels: Rc<Vec<(Sym, Rc<Term>)>>,
    env: Env,
    vs: Seq<ValueV>,
    ms: Seq<M>,
    ks: Seq<KV>,
    n: nat,
)
    requires
        fields_come_to(ms, labels@, env, vs),
        ms[0] == m,
        n < labels@.len(),
    ensures
        reaches(
            at(m, ks.push(KV::BuildRecord { done: Seq::empty(), labels, env }), ControlV::Eval(labels@[0].1, env)),
            at(
                ms[n as int],
                ks.push(KV::BuildRecord { done: vs.take(n as int), labels, env }),
                ControlV::Eval(labels@[n as int].1, env),
            ),
        ),
    decreases n,
{
    reveal(stepped);
    let start = at(m, ks.push(KV::BuildRecord { done: Seq::empty(), labels, env }), ControlV::Eval(labels@[0].1, env));
    if n == 0 {
        assert(vs.take(0) =~= Seq::empty());
        assert(walk(start, 0) == Stepped::Ok(start));
    } else {
        lemma_record_built(m, labels, env, vs, ms, ks, (n - 1) as nat);
        let k = KV::BuildRecord { done: vs.take(n - 1), labels, env };
        let k2 = KV::BuildRecord { done: vs.take(n as int), labels, env };
        assert(vs.take(n - 1).push(vs[n - 1]) =~= vs.take(n as int));
        let a = at(ms[n - 1], ks.push(k), ControlV::Eval(labels@[n - 1].1, env));
        let b = at(ms[n as int], ks.push(k), ControlV::Ret(vs[n - 1]));
        let c = at(ms[n as int], ks.push(k2), ControlV::Eval(labels@[n as int].1, env));
        assert(comes_to(ms[n - 1], labels@[n - 1].1, env, vs[n - 1], ms[n as int]));
        lemma_part(ms[n - 1], labels@[n - 1].1, env, vs[n - 1], ms[n as int], ks.push(k));
        lemma_then(start, a, b);
        lemma_given(ms[n as int], ks, k, vs[n - 1], c);
        lemma_then(start, b, c);
    }
}

/// A record comes to one that has, of each label, what the last of its fields of that label
/// comes to, the fields evaluated left to right.
pub proof fn a_record_comes_to_its_fields(
    t: Rc<Term>,
    labels: Rc<Vec<(Sym, Rc<Term>)>>,
    env: Env,
    vs: Seq<ValueV>,
    ms: Seq<M>,
) -> (fs: Seq<(Sym, ValueV)>)
    requires
        *t == Term::Record(labels),
        fields_come_to(ms, labels@, env, vs),
    ensures
        comes_to(ms[0], t, env, ValueV::Record(fs), ms.last()),
        in_order(fs),
        forall|l: Sym, v: ValueV| #[trigger] has(fs, l, v) <==> last_given(labels@, vs, vs.len(), l, v),
{
    reveal(stepped);
    let m = ms[0];
    let fs = record_of(labels@, vs, labels@.len());
    lemma_record_of(labels@, vs, labels@.len());
    let v = ValueV::Record(fs);
    let last = ms[labels@.len() as int];
    assert forall|ks: Seq<KV>| #[trigger]
        reaches(at(m, ks, ControlV::Eval(t, env)), at(last, ks, ControlV::Ret(v))) by {
        let start = at(m, ks, ControlV::Eval(t, env));
        if labels@.len() == 0 {
            lemma_step(start, at(m, ks, ControlV::Ret(v)));
        } else {
            let n = (labels@.len() - 1) as nat;
            let k0 = KV::BuildRecord { done: Seq::empty(), labels, env };
            let k = KV::BuildRecord { done: vs.take(n as int), labels, env };
            let a = at(m, ks.push(k0), ControlV::Eval(labels@[0].1, env));
            let b = at(ms[n as int], ks.push(k), ControlV::Eval(labels@[n as int].1, env));
            let c = at(last, ks.push(k), ControlV::Ret(vs[n as int]));
            let d = at(last, ks, ControlV::Ret(v));
            lemma_step(start, a);
            lemma_record_built(m, labels, env, vs, ms, ks, n);
            lemma_then(start, a, b);
            assert(comes_to(ms[n as int], labels@[n as int].1, env, vs[n as int], last));
            lemma_part(ms[n as int], labels@[n as int].1, env, vs[n as int], last, ks.push(k));
            lemma_then(start, b, c);
            assert(vs.take(n as int).push(vs[n as int]) =~= vs);
            lemma_given(last, ks, k, vs[n as int], d);
            lemma_then(start, c, d);
        }
    }
    fs
}

/// Extending a record comes to the record with the field put into it: the record is
/// evaluated first.
pub proof fn extending_comes_to_the_record_with_the_field(
    m: M,
    t: Rc<Term>,
    rec: Rc<Term>,
    l: Sym,
    val: Rc<Term>,
    env: Env,
    fs: Seq<(Sym, ValueV)>,
    m1: M,
    v: ValueV,
    m2: M,
)
    requires
        *t == Term::Extend(rec, l, val),
        comes_to(m, rec, env, ValueV::Record(fs), m1),
        comes_to(m1, val, env, v, m2),
    ensures
        comes_to(m, t, env, ValueV::Record(put_field(fs, l, v)), m2),
{
    reveal(stepped);
    let out = ValueV::Record(put_field(fs, l, v));
    assert forall|ks: Seq<KV>| #[trigger]
        reaches(at(m, ks, ControlV::Eval(t, env)), at(m2, ks, ControlV::Ret(out))) by {
        let k2 = KV::ExtendWith { label: l, rec: ValueV::Record(fs) };
        let start = at(m, ks, ControlV::Eval(t, env));
        let a = at(m1, ks.push(k2), ControlV::Eval(val, env));
        let b = at(m2, ks.push(k2), ControlV::Ret(v));
        lemma_one(m, t, rec, KV::ExtendVal { label: l, val, env }, env, ValueV::Record(fs), m1, a, ks);
        lemma_part(m1, val, env, v, m2, ks.push(k2));
        lemma_then(start, a, b);
        lemma_given(m2, ks, k2, v, at(m2, ks, ControlV::Ret(out)));
        lemma_then(start, b, at(m2, ks, ControlV::Ret(out)));
    }
}

/// Putting a head before a tail comes to the list of both, the head first.
pub proof fn a_cons_comes_to_the_longer_list(
    m: M,
    t: Rc<Term>,
    head: Rc<Term>,
    tail: Rc<Term>,
    env: Env,
    h: ValueV,
    m1: M,
    xs: Seq<ValueV>,
    m2: M,
)
    requires
        *t == Term::ListCons(head, tail),
        comes_to(m, head, env, h, m1),
        comes_to(m1, tail, env, ValueV::List(xs), m2),
    ensures
        comes_to(m, t, env, ValueV::List(seq![h] + xs), m2),
{
    reveal(stepped);
    let out = ValueV::List(seq![h] + xs);
    assert forall|ks: Seq<KV>| #[trigger]
        reaches(at(m, ks, ControlV::Eval(t, env)), at(m2, ks, ControlV::Ret(out))) by {
        let k2 = KV::ConsBuild { head: h };
        let start = at(m, ks, ControlV::Eval(t, env));
        let a = at(m1, ks.push(k2), ControlV::Eval(tail, env));
        let b = at(m2, ks.push(k2), ControlV::Ret(ValueV::List(xs)));
        lemma_one(m, t, head, KV::ConsHead { tail, env }, env, h, m1, a, ks);
        lemma_part(m1, tail, env, ValueV::List(xs), m2, ks.push(k2));
        lemma_then(start, a, b);
        lemma_given(m2, ks, k2, ValueV::List(xs), at(m2, ks, ControlV::Ret(out)));
        lemma_then(start, b, at(m2, ks, ControlV::Ret(out)));
    }
}

// --- handlers ---

/// A handler whose body comes to `u`, performing nothing, comes to what its `return` clause
/// does with its parameter bound to `u`, in the environment of the handler.
pub proof fn a_handler_comes_to_its_return_clause(
    m: M,
    t: Rc<Term>,
    body: Rc<Term>,
    data: Rc<HandlerData>,
    param: Var,
    clause: Rc<Term>,
    env: Env,
    u: ValueV,
    m1: M,
    v: ValueV,
    m2: M,
)
    requires
        *t == Term::Handle(body, data),
        data.ret == Some((param, clause)),
        comes_to(m, body, env, u, m1),
        comes_to(m1.child(env, seq![(param, u)]), clause, m1.scope(), v, m2),
    ensures
        comes_to(m, t, env, v, m2),
{
    assert forall|ks: Seq<KV>| #[trigger]
        reaches(at(m, ks, ControlV::Eval(t, env)), at(m2, ks, ControlV::Ret(v))) by {
        lemma_handler_binds(m, t, body, data, param, clause, env, u, m1, ks);
        let m3 = m1.child(env, seq![(param, u)]);
        lemma_part(m3, clause, m1.scope(), v, m2, ks);
        lemma_then(
            at(m, ks, ControlV::Eval(t, env)),
            at(m3, ks, ControlV::Eval(clause, m1.scope())),
            at(m2, ks, ControlV::Ret(v)),
        );
    }
}

proof fn lemma_handler_binds(
    m: M,
    t: Rc<Term>,
    body: Rc<Term>,
    data: Rc<HandlerData>,
    param: Var,
    clause: Rc<Term>,
    env: Env,
    u: ValueV,
    m1: M,
    ks: Seq<KV>,
)
    requires
        *t == Term::Handle(body, data),
        data.ret == Some((param, clause)),
        comes_to(m, body, env, u, m1),
    ensures
        reaches(
            at(m, ks, ControlV::Eval(t, env)),
            at(m1.child(env, seq![(param, u)]), ks, ControlV::Eval(clause, m1.scope())),
        ),
{
    reveal(stepped);
    let on = at(m1.child(env, seq![(param, u)]), ks, ControlV::Eval(clause, m1.scope()));
    lemma_one(m, t, body, KV::HandleMark(data, env), env, u, m1, on, ks);
}

/// Only a handler with no `return` clause comes to what its body does.
pub proof fn a_handler_with_no_return_clause_comes_to_its_body(
    m: M,
    t: Rc<Term>,
    body: Rc<Term>,
    data: Rc<HandlerData>,
    env: Env,
    u: ValueV,
    m1: M,
)
    requires
        *t == Term::Handle(body, data),
        data.ret is None,
        comes_to(m, body, env, u, m1),
    ensures
        comes_to(m, t, env, u, m1),
{
    reveal(stepped);
    assert forall|ks: Seq<KV>| #[trigger]
        reaches(at(m, ks, ControlV::Eval(t, env)), at(m1, ks, ControlV::Ret(u))) by {
        lemma_one(m, t, body, KV::HandleMark(data, env), env, u, m1, at(m1, ks, ControlV::Ret(u)), ks);
    }
}

/// A handler of a body that performs nothing and `let` are one: `handle e with { return x ->
/// b }` and `let x = e in b` come to the same machine, and so to the same value or the same
/// failure.
pub proof fn handling_a_value_is_binding_it(
    m: M,
    handled: Rc<Term>,
    bound: Rc<Term>,
    body: Rc<Term>,
    data: Rc<HandlerData>,
    param: Var,
    clause: Rc<Term>,
    env: Env,
    u: ValueV,
    m1: M,
    ks: Seq<KV>,
)
    requires
        *handled == Term::Handle(body, data),
        data.ret == Some((param, clause)),
        *bound == Term::Let(param, body, clause),
        comes_to(m, body, env, u, m1),
    ensures
        exists|c: M|
            #[trigger] reaches(at(m, ks, ControlV::Eval(handled, env)), c) && reaches(
                at(m, ks, ControlV::Eval(bound, env)),
                c,
            ) && c.ctrl == ControlV::Eval(clause, m1.scope()) && c.kont == ks,
{
    lemma_handler_binds(m, handled, body, data, param, clause, env, u, m1, ks);
    lemma_let_binds(m, bound, param, body, clause, env, u, m1, ks);
}

proof fn lemma_clause(cs: Seq<HClause>, effect: Sym, op: Sym, from: nat, i: int)
    requires
        from <= i < cs.len(),
        cs[i].effect == effect && cs[i].op == op,
        forall|j: int| from <= j < i ==> !((#[trigger] cs[j]).effect == effect && cs[j].op == op),
    ensures
        clause_at(cs, effect, op, from) == i,
    decreases i - from,
{
    if from < i {
        lemma_clause(cs, effect, op, from + 1, i);
    }
}

proof fn lemma_topmost(ks: Seq<KV>, effect: Sym, op: Sym, n: nat, i: int)
    requires
        0 <= i < n <= ks.len(),
        handles(ks[i], effect, op),
        forall|j: int| i < j < n ==> !handles(#[trigger] ks[j], effect, op),
    ensures
        handler_at(ks, effect, op, n) == Some(i as nat),
    decreases n,
{
    if i < n - 1 {
        lemma_topmost(ks, effect, op, (n - 1) as nat, i);
    }
}

/// An operation performed goes to the nearest handler of it: its clause is evaluated in the
/// handler's environment, outside the handler, with its parameter the argument and its
/// resumption the stack from the handler up.
pub proof fn performing_goes_to_the_nearest_handler(
    m: M,
    t: Rc<Term>,
    effect: Sym,
    op: Sym,
    arg: Rc<Term>,
    env: Env,
    a: ValueV,
    m1: M,
    below: Seq<KV>,
    data: Rc<HandlerData>,
    henv: Env,
    above: Seq<KV>,
    i: int,
)
    requires
        *t == Term::Perform(effect, op, arg),
        comes_to(m, arg, env, a, m1),
        0 <= i < data.clauses@.len(),
        data.clauses@[i].effect == effect,
        data.clauses@[i].op == op,
        forall|j: int| 0 <= j < i ==> !((#[trigger] data.clauses@[j]).effect == effect && data.clauses@[j].op == op),
        forall|j: int|
            0 <= j < above.len() ==> match #[trigger] above[j] {
                KV::HandleMark(d, _) => forall|k: int|
                    0 <= k < d.clauses@.len() ==> !((#[trigger] d.clauses@[k]).effect == effect && d.clauses@[k].op == op),
                _ => true,
            },
        m1.conts.len() < usize::MAX,
        m1.frames.len() < usize::MAX,
        henv < m1.frames.len(),
        data.clauses@[i].param != data.clauses@[i].resume,
    ensures
        ({
            let c = data.clauses@[i];
            let taken = seq![KV::HandleMark(data, henv)] + above;
            exists|m2: M, scope: Env|
                {
                    &&& #[trigger] reaches(
                        at(m, below.push(KV::HandleMark(data, henv)) + above, ControlV::Eval(t, env)),
                        at(m2, below, ControlV::Eval(c.body, scope)),
                    )
                    &&& m2.conts == m1.conts.push(Some(taken))
                    &&& lookup(m2.frames, scope, c.param) == Some(a)
                    &&& lookup(m2.frames, scope, c.resume) == Some(ValueV::Cont(m1.conts.len() as usize))
                    &&& forall|y: Var|
                        y != c.param && y != c.resume ==> #[trigger] lookup(m2.frames, scope, y) == lookup(
                            m1.frames,
                            henv,
                            y,
                        )
                }
        }),
{
    reveal(stepped);
    let c = data.clauses@[i];
    let mark = KV::HandleMark(data, henv);
    let ks = below.push(mark) + above;
    let k = KV::PerformWith { effect, op };
    let n = below.len() as int;
    lemma_clause(data.clauses@, effect, op, 0, i);
    assert(ks[n] == mark);
    assert forall|j: int| n < j < ks.len() implies !handles(#[trigger] ks[j], effect, op) by {
        assert(ks[j] == above[j - n - 1]);
        if let KV::HandleMark(d, _) = above[j - n - 1] {
            lemma_no_clause(d.clauses@, effect, op, 0);
        }
    }
    lemma_topmost(ks, effect, op, ks.len(), n);
    assert(ks.take(n) =~= below);
    assert(ks.skip(n) =~= seq![mark] + above);
    let slots = seq![(c.param, a), (c.resume, ValueV::Cont(m1.conts.len() as usize))];
    let m2 = M { conts: m1.conts.push(Some(seq![mark] + above)), ..m1 }.child(henv, slots);
    let scope = m1.scope();
    let on = at(m2, below, ControlV::Eval(c.body, scope));
    lemma_one(m, t, arg, k, env, a, m1, on, ks);
    let f = FrameV { slots, parent: Some(henv) };
    assert(m2.frames == m1.frames.push(f));
    assert(m1.frames.push(f)[m1.frames.len() as int] == f);
    reveal_with_fuel(slot_of, 3);
    assert(slots[0] == (c.param, a));
    assert(slots[1] == (c.resume, ValueV::Cont(m1.conts.len() as usize)));
    assert forall|y: Var| y != c.param && y != c.resume implies #[trigger] lookup(m2.frames, scope, y) == lookup(
        m1.frames,
        henv,
        y,
    ) by {
        lemma_lookup_grows(m1.frames, f, henv, y);
    }
    assert(reaches(at(m, ks, ControlV::Eval(t, env)), at(m2, below, ControlV::Eval(c.body, scope))));
}

proof fn lemma_no_clause(cs: Seq<HClause>, effect: Sym, op: Sym, from: nat)
    requires
        from <= cs.len(),
        forall|j: int| from <= j < cs.len() ==> !((#[trigger] cs[j]).effect == effect && cs[j].op == op),
    ensures
        clause_at(cs, effect, op, from) >= cs.len(),
    decreases cs.len() - from,
{
    if from < cs.len() {
        lemma_no_clause(cs, effect, op, from + 1);
    }
}

/// A resumption called with a value goes on where the operation was performed, which
/// answers the value there; the handler is around it again.
pub proof fn a_resumption_answers_where_it_was_taken(
    m: M,
    t: Rc<Term>,
    f: Rc<Term>,
    arg: Rc<Term>,
    env: Env,
    k: usize,
    m1: M,
    v: ValueV,
    m2: M,
    taken: Seq<KV>,
    ks: Seq<KV>,
)
    requires
        *t == Term::App(f, arg),
        comes_to(m, f, env, ValueV::Cont(k), m1),
        comes_to(m1, arg, env, v, m2),
        k < m2.conts.len(),
        m2.conts[k as int] == Some(taken),
    ensures
        exists|m3: M|
            #[trigger] reaches(at(m, ks, ControlV::Eval(t, env)), at(m3, ks + taken, ControlV::Ret(v))) && m3.frames
                == m2.frames,
{
    reveal(stepped);
    let func = ValueV::Cont(k);
    let k1 = KV::EvalArg { arg, env };
    let k2 = KV::ApplyTo { func };
    let start = at(m, ks, ControlV::Eval(t, env));
    let s3 = at(m1, ks.push(k2), ControlV::Eval(arg, env));
    let s4 = at(m2, ks.push(k2), ControlV::Ret(v));
    let m3 = M { conts: m2.conts.update(k as int, None), ..m2 };
    let on = at(m3, ks + taken, ControlV::Ret(v));
    lemma_one(m, t, f, k1, env, func, m1, s3, ks);
    lemma_part(m1, arg, env, v, m2, ks.push(k2));
    lemma_then(start, s3, s4);
    lemma_given(m2, ks, k2, v, on);
    lemma_then(start, s4, on);
    assert(reaches(start, at(m3, ks + taken, ControlV::Ret(v))));
}

// --- programs ---

proof fn lemma_waits(m: M, n: nat)
    requires
        m.ctrl is Wait,
    ensures
        walk(m, n) == Stepped::Ok(m),
    decreases n,
{
    reveal(stepped);
    if n > 0 {
        lemma_waits(m, (n - 1) as nat);
    }
}

proof fn lemma_rests(m: M, n: nat)
    requires
        m.ctrl is Ret,
        m.kont.len() == 0,
    ensures
        walk(m, n) == Stepped::Ok(m),
    decreases n,
{
    reveal(stepped);
    if n > 0 {
        assert(m.then_ret(m.ctrl->Ret_0) == m);
        lemma_rests(m, (n - 1) as nat);
    }
}

/// A program of one definition, which is its entry, comes to what the definition's term
/// comes to.
pub proof fn a_program_comes_to_what_its_entry_does(p: Program, v: ValueV, m2: M)
    requires
        p.defs@.len() == 1,
        p.entry == Some(p.defs@[0].var),
        comes_to(loaded(p), p.defs@[0].term, 0, v, m2),
        m2.frames.len() > 0,
    ensures
        exists|n: nat|
            #[trigger] ticks(loaded(p), p.defs@, 0, n) matches Ok(r) && r.1 == 1 && outcome(r.0, p.entry) == Ok::<
                ValueV,
                Seq<super::shown::PieceV>,
            >(v),
{
    let m = loaded(p);
    let none = Seq::<KV>::empty();
    let start = at(m, none, ControlV::Eval(p.defs@[0].term, 0));
    assert(start == m);
    let end = at(m2, none, ControlV::Ret(v));
    assert(reaches(start, end));
    let n = choose|n: nat| #[trigger] walk(start, n) == Stepped::Ok(end);
    lemma_settles(m, p.defs@, n, end);
    let i = choose|i: nat|
        #[trigger] ticks(m, p.defs@, 0, i) == Ok::<(M, nat), Seq<super::shown::PieceV>>((end, 0nat));
    assert(ticks(m, p.defs@, 0, i + 1) == ticked(end, p.defs@, 0));
    let x = p.defs@[0].var;
    let last = end.define(0, x, v);
    let f = last.frames[0];
    assert(f.slots.last() == (x, v));
    assert(slot_of(f.slots, x, f.slots.len()) == Some(v));
    assert(lookup(last.frames, 0, x) == Some(v));
    assert(ticks(m, p.defs@, 0, i + 1) matches Ok(r) && r.1 == 1 && outcome(r.0, p.entry) == Ok::<
        ValueV,
        Seq<super::shown::PieceV>,
    >(v));
}

proof fn lemma_settles(m: M, defs: Seq<super::term::Def>, n: nat, b: M)
    requires
        defs.len() == 1,
        walk(m, n) == Stepped::Ok(b),
        b.ctrl is Ret,
        b.kont.len() == 0,
    ensures
        exists|i: nat| #[trigger] ticks(m, defs, 0, i) == Ok::<(M, nat), Seq<super::shown::PieceV>>((b, 0nat)),
    decreases n,
{
    assert(ticks(m, defs, 0, 0) == Ok::<(M, nat), Seq<super::shown::PieceV>>((m, 0nat)));
    if n == 0 {
    } else if m.ctrl is Ret && m.kont.len() == 0 {
        lemma_rests(m, n);
    } else if m.ctrl is Wait {
        lemma_waits(m, n);
    } else {
        let m1 = stepped(m)->Ok_0;
        lemma_settles(m1, defs, (n - 1) as nat, b);
        let i = choose|i: nat|
            #[trigger] ticks(m1, defs, 0, i) == Ok::<(M, nat), Seq<super::shown::PieceV>>((b, 0nat));
        super::run::running_adds_up(m, defs, 0, 1, i);
        assert(ticks(m, defs, 0, 1) == Ok::<(M, nat), Seq<super::shown::PieceV>>((m1, 0nat)));
        assert(ticks(m, defs, 0, 1 + i) == ticks(m1, defs, 0, i));
    }
}

} // verus!
