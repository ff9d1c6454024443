//! What a term needs of the environment it is lowered in, and where it has that.

use super::live::{args_need_ev, direct_worker, needs_ev, restricted, wants, wants_all};
use super::reach::{arm_reaches, label_for, lemma_made_apart, lemma_wanted, makes, reaches, tidy, Kinds};
use super::reach_state::{lemma_same_ev, same_ev};
use super::scheme::{arm_wants, arms_want};
use super::state::St;
use super::stride::same_at;
use super::went::{fit, lemma_ev, lemma_restricted, lemma_went, okay, went};
use crate::seq::cover::within;
use crate::seq::ir::Name;
use crate::terms::term::{pattern_vars, Arm, HClause, Term, Var};
use vstd::prelude::*;

verus! {

/// Every name that a label `t` mentions takes is in `env`.
pub open spec fn supplied(st: St, t: Term, env: Seq<Name>) -> bool {
    forall|v: Var, n: Name| #[trigger] reaches(t, v) && #[trigger] label_for(st, v, n) ==> env.contains(n)
}

/// None of `ls` is a label `t` mentions.
pub open spec fn clear(ls: Set<Var>, t: Term) -> bool {
    forall|v: Var| #[trigger] ls.contains(v) ==> !reaches(t, v)
}

/// `t` can be lowered in `env`, evidence aside.
#[verifier::opaque]
pub open spec fn stocked(st: St, t: Term, env: Seq<Name>, ls: Set<Var>) -> bool {
    supplied(st, t, env) && clear(ls, t)
}

/// `t` can be lowered in `env`.
#[verifier::opaque]
pub open spec fn able(st: St, t: Term, env: Seq<Name>, ls: Set<Var>) -> bool {
    &&& stocked(st, t, env, ls)
    &&& needs_ev(st, t) ==> env.contains(st.ev)
}

/// The arguments of a call can.
#[verifier::opaque]
pub open spec fn args_able(st: St, t: Term, env: Seq<Name>, ls: Set<Var>) -> bool {
    &&& stocked(st, t, env, ls)
    &&& args_need_ev(st, t) ==> env.contains(st.ev)
}

#[verifier::opaque]
pub open spec fn all_able(st: St, xs: Seq<Term>, env: Seq<Name>, ls: Set<Var>) -> bool {
    forall|i: int| 0 <= i < xs.len() ==> able(st, #[trigger] xs[i], env, ls)
}

#[verifier::opaque]
pub open spec fn arm_able(st: St, arm: Arm, env: Seq<Name>, ls: Set<Var>) -> bool {
    able(st, arm.body, env, ls) && (arm.guard is Some ==> able(st, arm.guard->0, env, ls))
}

#[verifier::opaque]
pub open spec fn arms_able(st: St, arms: Seq<Arm>, env: Seq<Name>, ls: Set<Var>) -> bool {
    forall|i: int| 0 <= i < arms.len() ==> arm_able(st, #[trigger] arms[i], env, ls)
}

#[verifier::opaque]
pub open spec fn clauses_stocked(st: St, cs: Seq<HClause>, env: Seq<Name>, ls: Set<Var>) -> bool {
    forall|i: int| 0 <= i < cs.len() ==> stocked(st, (#[trigger] cs[i]).body, env, ls)
}

/// No label among some variables.
pub open spec fn plains(kd: Kinds, scope: Seq<Var>) -> bool {
    forall|v: Var| #[trigger] scope.contains(v) ==> kd.plain(v)
}

/// The parts of a term that can be lowered can be.
pub open spec fn parts_able(st: St, t: Term, env: Seq<Name>, ls: Set<Var>) -> bool {
    match t {
        Term::Loc(_, b) => able(st, *b, env, ls),
        Term::TyLam(_, _, b) => able(st, *b, env, ls),
        Term::TyApp(b, _) => able(st, *b, env, ls),
        Term::Proj(b, _) => able(st, *b, env, ls),
        Term::Sel(b, _, _) => able(st, *b, env, ls),
        Term::Perform(_, _, b, _) => able(st, *b, env, ls) && env.contains(st.ev),
        Term::Lam(_, _, b) => stocked(st, *b, env, ls),
        Term::App(f, a) => match direct_worker(st, t) {
            Some(w) => args_able(st, t, env, ls) && (st.worker_ev.contains(w) ==> env.contains(st.ev)),
            None => able(st, *f, env, ls) && able(st, *a, env, ls) && env.contains(st.ev),
        },
        Term::Extend(f, _, a) => able(st, *f, env, ls) && able(st, *a, env, ls),
        Term::Let(_, _, r, b) => able(st, *r, env, ls) && able(st, *b, env, ls),
        Term::LetRec(_, _) => env.contains(st.ev),
        Term::Join { rhs, .. } => env.contains(st.ev) && stocked(st, *rhs, env, ls),
        Term::Jump(_, xs, _) => env.contains(st.ev) && all_able(st, xs@, env, ls),
        Term::If(a, b, c) => able(st, *a, env, ls) && able(st, *b, env, ls) && able(st, *c, env, ls),
        Term::Tuple(xs) => all_able(st, xs@, env, ls),
        Term::Array(xs, _) => all_able(st, xs@, env, ls),
        Term::Record(_, xs) => all_able(st, xs@, env, ls),
        Term::Ctor(_, _, xs) => all_able(st, xs@, env, ls),
        Term::Prim(_, xs, _) => all_able(st, xs@, env, ls),
        Term::Case(s, arms, _) => able(st, *s, env, ls) && arms_able(st, arms@, env, ls),
        Term::Handle { body, clauses, ret, .. } => {
            &&& env.contains(st.ev)
            &&& stocked(st, *body, env, ls)
            &&& clauses_stocked(st, clauses@, env, ls)
            &&& ret is Some ==> stocked(st, *(ret->0).2, env, ls)
        },
        _ => true,
    }
}

/// A part of a term needs no more than the term.
proof fn lemma_part(st: St, t: Term, sub: Term, env: Seq<Name>, ls: Set<Var>)
    requires
        stocked(st, t, env, ls),
        forall|v: Var| #[trigger] reaches(sub, v) ==> reaches(t, v),
    ensures
        stocked(st, sub, env, ls),
        (needs_ev(st, sub) ==> env.contains(st.ev)) ==> able(st, sub, env, ls),
{
    reveal(stocked);
    reveal(able);
}

proof fn lemma_list(st: St, t: Term, xs: Seq<Term>, env: Seq<Name>, ls: Set<Var>)
    requires
        stocked(st, t, env, ls),
        forall|v: Var, i: int| 0 <= i < xs.len() && #[trigger] reaches(xs[i], v) ==> reaches(t, v),
        env.contains(st.ev) || forall|i: int| 0 <= i < xs.len() ==> !needs_ev(st, #[trigger] xs[i]),
    ensures
        all_able(st, xs, env, ls),
{
    reveal(all_able);
    assert forall|i: int| 0 <= i < xs.len() implies able(st, #[trigger] xs[i], env, ls) by {
        lemma_part(st, t, xs[i], env, ls);
    }
}

pub proof fn lemma_able(st: St, t: Term, env: Seq<Name>, ls: Set<Var>)
    requires
        able(st, t, env, ls),
    ensures
        stocked(st, t, env, ls),
        needs_ev(st, t) ==> env.contains(st.ev),
{
    reveal(able);
}

pub proof fn lemma_stocked(st: St, t: Term, env: Seq<Name>, ls: Set<Var>)
    requires
        stocked(st, t, env, ls),
        env.contains(st.ev),
    ensures
        able(st, t, env, ls),
{
    reveal(able);
}

#[verifier::spinoff_prover]
pub proof fn lemma_able_parts(st: St, t: Term, env: Seq<Name>, ls: Set<Var>)
    requires
        able(st, t, env, ls),
    ensures
        parts_able(st, t, env, ls),
{
    lemma_able(st, t, env, ls);
    match t {
        Term::Loc(_, b) => {
            lemma_part(st, t, *b, env, ls);
        },
        Term::TyLam(_, _, b) => {
            lemma_part(st, t, *b, env, ls);
        },
        Term::TyApp(b, _) => {
            lemma_part(st, t, *b, env, ls);
        },
        Term::Proj(b, _) => {
            lemma_part(st, t, *b, env, ls);
        },
        Term::Sel(b, _, _) => {
            lemma_part(st, t, *b, env, ls);
        },
        Term::Perform(_, _, b, _) => {
            lemma_part(st, t, *b, env, ls);
        },
        Term::Lam(_, _, b) => {
            lemma_part(st, t, *b, env, ls);
        },
        Term::App(f, a) => {
            lemma_part(st, t, *f, env, ls);
            lemma_part(st, t, *a, env, ls);
            reveal(args_able);
        },
        Term::Extend(f, _, a) => {
            lemma_part(st, t, *f, env, ls);
            lemma_part(st, t, *a, env, ls);
        },
        Term::Let(_, _, f, a) => {
            lemma_part(st, t, *f, env, ls);
            lemma_part(st, t, *a, env, ls);
        },
        Term::Join { rhs, .. } => {
            lemma_part(st, t, *rhs, env, ls);
        },
        Term::If(a, b, c) => {
            lemma_part(st, t, *a, env, ls);
            lemma_part(st, t, *b, env, ls);
            lemma_part(st, t, *c, env, ls);
        },
        Term::Jump(_, xs, _) => {
            lemma_list(st, t, xs@, env, ls);
        },
        Term::Tuple(xs) => {
            lemma_list(st, t, xs@, env, ls);
        },
        Term::Array(xs, _) => {
            lemma_list(st, t, xs@, env, ls);
        },
        Term::Record(_, xs) => {
            lemma_list(st, t, xs@, env, ls);
        },
        Term::Ctor(_, _, xs) => {
            lemma_list(st, t, xs@, env, ls);
        },
        Term::Prim(_, xs, _) => {
            lemma_list(st, t, xs@, env, ls);
        },
        Term::Case(s, arms, _) => {
            lemma_part(st, t, *s, env, ls);
            reveal(arms_able);
            reveal(arm_able);
            assert forall|i: int| 0 <= i < arms@.len() implies arm_able(st, #[trigger] arms@[i], env, ls) by {
                let arm = arms@[i];
                assert forall|v: Var| #[trigger] arm_reaches(arm, v) implies reaches(t, v) by {}
                assert forall|v: Var| #[trigger] reaches(arm.body, v) implies reaches(t, v) by {
                    assert(arm_reaches(arm, v));
                }
                lemma_part(st, t, arm.body, env, ls);
                if arm.guard is Some {
                    assert forall|v: Var| #[trigger] reaches(arm.guard->0, v) implies reaches(t, v) by {
                        assert(arm_reaches(arm, v));
                    }
                    lemma_part(st, t, arm.guard->0, env, ls);
                }
            }
        },
        Term::Handle { body, clauses, ret, .. } => {
            lemma_part(st, t, *body, env, ls);
            reveal(clauses_stocked);
            assert forall|i: int| 0 <= i < clauses@.len() implies stocked(st, (#[trigger] clauses@[i]).body, env, ls) by {
                lemma_part(st, t, clauses@[i].body, env, ls);
            }
            if ret is Some {
                lemma_part(st, t, *(ret->0).2, env, ls);
            }
        },
        _ => {},
    }
}

/// The last argument of a call, and those in front of it.
pub proof fn lemma_args_parts(st: St, t: Term, env: Seq<Name>, ls: Set<Var>)
    requires
        args_able(st, t, env, ls),
    ensures
        match t {
            Term::Loc(_, inner) => args_able(st, *inner, env, ls),
            Term::App(f, a) => args_able(st, *f, env, ls) && able(st, *a, env, ls),
            _ => true,
        },
{
    reveal(args_able);
    match t {
        Term::Loc(_, inner) => {
            lemma_part(st, t, *inner, env, ls);
        },
        Term::App(f, a) => {
            lemma_part(st, t, *f, env, ls);
            lemma_part(st, t, *a, env, ls);
        },
        _ => {},
    }
}

pub proof fn lemma_nth(st: St, xs: Seq<Term>, env: Seq<Name>, ls: Set<Var>, i: int)
    requires
        all_able(st, xs, env, ls),
        0 <= i < xs.len(),
    ensures
        able(st, xs[i], env, ls),
{
    reveal(all_able);
}

pub proof fn lemma_nth_arm(st: St, arms: Seq<Arm>, env: Seq<Name>, ls: Set<Var>, i: int)
    requires
        arms_able(st, arms, env, ls),
        0 <= i < arms.len(),
    ensures
        arm_able(st, arms[i], env, ls),
        able(st, arms[i].body, env, ls),
        arms[i].guard is Some ==> able(st, arms[i].guard->0, env, ls),
{
    reveal(arms_able);
    reveal(arm_able);
}

pub proof fn lemma_of_arm(st: St, arm: Arm, env: Seq<Name>, ls: Set<Var>)
    requires
        arm_able(st, arm, env, ls),
    ensures
        able(st, arm.body, env, ls),
        arm.guard is Some ==> able(st, arm.guard->0, env, ls),
{
    reveal(arm_able);
}

pub proof fn lemma_nth_clause(st: St, cs: Seq<HClause>, env: Seq<Name>, ls: Set<Var>, i: int)
    requires
        clauses_stocked(st, cs, env, ls),
        0 <= i < cs.len(),
    ensures
        stocked(st, cs[i].body, env, ls),
{
    reveal(clauses_stocked);
}

// --- in a later state ---

proof fn lemma_alike(kd: Kinds, a: St, b: St, t: Term, ls: Set<Var>)
    requires
        went(kd, a, b, ls),
        clear(ls, t),
    ensures
        a.ev == b.ev,
        needs_ev(a, t) == needs_ev(b, t),
        args_need_ev(a, t) == args_need_ev(b, t),
        forall|v: Var, n: Name| #[trigger] reaches(t, v) && #[trigger] label_for(b, v, n) ==> label_for(a, v, n),
{
    lemma_went(kd, a, b, ls);
    assert forall|v: Var| #[trigger] reaches(t, v) implies same_at(a, b, v) by {
        assert(!ls.contains(v));
    }
    assert(same_ev(a, b, t)) by {
        assert forall|v: Var| #[trigger] reaches(t, v) implies (a.letrecs.contains(v) <==> b.letrecs.contains(v)) by {
            assert(same_at(a, b, v));
        }
    }
    lemma_same_ev(a, b, t);
    assert forall|v: Var, n: Name| #[trigger] reaches(t, v) && #[trigger] label_for(b, v, n) implies label_for(
        a,
        v,
        n,
    ) by {
        assert(same_at(a, b, v));
    }
}

pub proof fn lemma_stocked_on(kd: Kinds, a: St, b: St, t: Term, env: Seq<Name>, ls: Set<Var>)
    requires
        went(kd, a, b, ls),
        stocked(a, t, env, ls),
    ensures
        stocked(b, t, env, ls),
{
    reveal(stocked);
    lemma_alike(kd, a, b, t, ls);
}

pub proof fn lemma_able_on(kd: Kinds, a: St, b: St, t: Term, env: Seq<Name>, ls: Set<Var>)
    requires
        went(kd, a, b, ls),
        able(a, t, env, ls),
    ensures
        able(b, t, env, ls),
{
    reveal(stocked);
    reveal(able);
    lemma_alike(kd, a, b, t, ls);
}

pub proof fn lemma_all_on(kd: Kinds, a: St, b: St, xs: Seq<Term>, env: Seq<Name>, ls: Set<Var>)
    requires
        went(kd, a, b, ls),
        all_able(a, xs, env, ls),
    ensures
        all_able(b, xs, env, ls),
{
    reveal(all_able);
    assert forall|i: int| 0 <= i < xs.len() implies able(b, #[trigger] xs[i], env, ls) by {
        lemma_able_on(kd, a, b, xs[i], env, ls);
    }
}

pub proof fn lemma_arm_on(kd: Kinds, a: St, b: St, arm: Arm, env: Seq<Name>, ls: Set<Var>)
    requires
        went(kd, a, b, ls),
        arm_able(a, arm, env, ls),
    ensures
        arm_able(b, arm, env, ls),
{
    reveal(arm_able);
    lemma_able_on(kd, a, b, arm.body, env, ls);
    if arm.guard is Some {
        lemma_able_on(kd, a, b, arm.guard->0, env, ls);
    }
}

pub proof fn lemma_arms_on(kd: Kinds, a: St, b: St, arms: Seq<Arm>, env: Seq<Name>, ls: Set<Var>)
    requires
        went(kd, a, b, ls),
        arms_able(a, arms, env, ls),
    ensures
        arms_able(b, arms, env, ls),
{
    reveal(arms_able);
    assert forall|i: int| 0 <= i < arms.len() implies arm_able(b, #[trigger] arms[i], env, ls) by {
        lemma_arm_on(kd, a, b, arms[i], env, ls);
    }
}

pub proof fn lemma_clauses_on(kd: Kinds, a: St, b: St, cs: Seq<HClause>, env: Seq<Name>, ls: Set<Var>)
    requires
        went(kd, a, b, ls),
        clauses_stocked(a, cs, env, ls),
    ensures
        clauses_stocked(b, cs, env, ls),
{
    reveal(clauses_stocked);
    assert forall|i: int| 0 <= i < cs.len() implies stocked(b, (#[trigger] cs[i]).body, env, ls) by {
        lemma_stocked_on(kd, a, b, cs[i].body, env, ls);
    }
}

/// Which evidence there is does not matter to what else is needed, nor do the
/// descriptors in scope.
pub proof fn lemma_stocked_as(a: St, b: St, t: Term, env: Seq<Name>, ls: Set<Var>)
    requires
        stocked(a, t, env, ls),
        a.globals == b.globals,
        a.joins == b.joins,
    ensures
        stocked(b, t, env, ls),
{
    reveal(stocked);
    assert forall|v: Var, n: Name| #[trigger] reaches(t, v) && #[trigger] label_for(b, v, n) implies env.contains(n) by {
        assert(label_for(a, v, n));
    }
}

pub proof fn lemma_able_as(a: St, b: St, t: Term, env: Seq<Name>, ls: Set<Var>)
    requires
        able(a, t, env, ls),
        a.globals == b.globals,
        a.joins == b.joins,
        a.letrecs == b.letrecs,
        a.workers == b.workers,
        a.worker_ev == b.worker_ev,
        a.ev == b.ev,
    ensures
        able(b, t, env, ls),
{
    lemma_able(a, t, env, ls);
    lemma_stocked_as(a, b, t, env, ls);
    lemma_same_ev(a, b, t);
    reveal(able);
}

// --- in another environment ---

pub proof fn lemma_stocked_more(st: St, t: Term, a: Seq<Name>, b: Seq<Name>, ls: Set<Var>)
    requires
        stocked(st, t, a, ls),
        within(a, b),
    ensures
        stocked(st, t, b, ls),
{
    reveal(stocked);
}

pub proof fn lemma_able_more(st: St, t: Term, a: Seq<Name>, b: Seq<Name>, ls: Set<Var>)
    requires
        able(st, t, a, ls),
        within(a, b),
    ensures
        able(st, t, b, ls),
{
    reveal(stocked);
    reveal(able);
}

pub proof fn lemma_arm_more(st: St, arm: Arm, a: Seq<Name>, b: Seq<Name>, ls: Set<Var>)
    requires
        arm_able(st, arm, a, ls),
        within(a, b),
    ensures
        arm_able(st, arm, b, ls),
{
    reveal(arm_able);
    lemma_able_more(st, arm.body, a, b, ls);
    if arm.guard is Some {
        lemma_able_more(st, arm.guard->0, a, b, ls);
    }
}

pub proof fn lemma_arms_more(st: St, arms: Seq<Arm>, a: Seq<Name>, b: Seq<Name>, ls: Set<Var>)
    requires
        arms_able(st, arms, a, ls),
        within(a, b),
    ensures
        arms_able(st, arms, b, ls),
{
    reveal(arms_able);
    assert forall|i: int| 0 <= i < arms.len() implies arm_able(st, #[trigger] arms[i], b, ls) by {
        lemma_arm_more(st, arms[i], a, b, ls);
    }
}

pub proof fn lemma_clauses_more(st: St, cs: Seq<HClause>, a: Seq<Name>, b: Seq<Name>, ls: Set<Var>)
    requires
        clauses_stocked(st, cs, a, ls),
        within(a, b),
    ensures
        clauses_stocked(st, cs, b, ls),
{
    reveal(clauses_stocked);
    assert forall|i: int| 0 <= i < cs.len() implies stocked(st, (#[trigger] cs[i]).body, b, ls) by {
        lemma_stocked_more(st, cs[i].body, a, b, ls);
    }
}

/// What is kept of the environment is of it.
pub proof fn lemma_kept(env: Seq<Name>, want: Set<Name>)
    ensures
        within(restricted(env, want), env),
{
    assert forall|n: Name| #[trigger] restricted(env, want).contains(n) implies env.contains(n) by {
        lemma_restricted(env, want, n);
    }
}

/// A name that is wanted and there is kept.
pub proof fn lemma_keeps(env: Seq<Name>, want: Set<Name>, n: Name, to: Seq<Name>)
    requires
        env.contains(n),
        want.contains(n),
        within(restricted(env, want), to),
    ensures
        to.contains(n),
{
    lemma_restricted(env, want, n);
}

/// Where what a term wants is kept, evidence aside, it can be lowered in what is left.
pub proof fn lemma_stocked_kept(
    kd: Kinds,
    st: St,
    t: Term,
    scope: Seq<Var>,
    want: Set<Name>,
    env: Seq<Name>,
    to: Seq<Name>,
    ls: Set<Var>,
)
    requires
        okay(kd, st),
        fit(kd, t, ls),
        stocked(st, t, env, ls),
        plains(kd, scope),
        within(restricted(env, want), to),
        forall|n: Name| #[trigger] wants(st, t, scope).contains(n) && n != st.ev ==> want.contains(n),
    ensures
        stocked(st, t, to, ls),
{
    reveal(stocked);
    reveal(fit);
    lemma_ev(kd, st);
    assert forall|v: Var, n: Name| #[trigger] reaches(t, v) && #[trigger] label_for(st, v, n) implies to.contains(n) by {
        assert(!scope.contains(v));
        lemma_wanted(kd, st, t, scope, v, n);
        assert(wants(st, t, scope).contains(n));
        assert(n < kd.lo) by {
            if st.globals.contains_key(v) && st.globals[v].1.contains(n) {
            } else {
                assert(st.joins.contains_key(v));
            }
        }
        lemma_restricted(env, want, n);
    }
}

pub proof fn lemma_able_kept(
    kd: Kinds,
    st: St,
    t: Term,
    scope: Seq<Var>,
    want: Set<Name>,
    env: Seq<Name>,
    to: Seq<Name>,
    ls: Set<Var>,
)
    requires
        okay(kd, st),
        fit(kd, t, ls),
        able(st, t, env, ls),
        plains(kd, scope),
        within(restricted(env, want), to),
        forall|n: Name| #[trigger] wants(st, t, scope).contains(n) ==> want.contains(n),
    ensures
        able(st, t, to, ls),
{
    lemma_able(st, t, env, ls);
    lemma_stocked_kept(kd, st, t, scope, want, env, to, ls);
    reveal(able);
    if needs_ev(st, t) {
        assert(wants(st, t, scope).contains(st.ev));
        lemma_restricted(env, want, st.ev);
    }
}

pub proof fn lemma_all_kept(
    kd: Kinds,
    st: St,
    xs: Seq<Term>,
    want: Set<Name>,
    env: Seq<Name>,
    to: Seq<Name>,
    ls: Set<Var>,
)
    requires
        okay(kd, st),
        forall|i: int| 0 <= i < xs.len() ==> fit(kd, #[trigger] xs[i], ls),
        all_able(st, xs, env, ls),
        within(restricted(env, want), to),
        forall|n: Name| #[trigger] wants_all(st, xs, Seq::empty()).contains(n) ==> want.contains(n),
    ensures
        all_able(st, xs, to, ls),
{
    reveal(all_able);
    assert forall|i: int| 0 <= i < xs.len() implies able(st, #[trigger] xs[i], to, ls) by {
        assert forall|n: Name| #[trigger] wants(st, xs[i], Seq::empty()).contains(n) implies want.contains(n) by {
            assert(wants_all(st, xs, Seq::empty()).contains(n));
        }
        lemma_able_kept(kd, st, xs[i], Seq::empty(), want, env, to, ls);
    }
}

pub proof fn lemma_arms_kept(
    kd: Kinds,
    st: St,
    arms: Seq<Arm>,
    want: Set<Name>,
    env: Seq<Name>,
    to: Seq<Name>,
    ls: Set<Var>,
)
    requires
        okay(kd, st),
        super::went::fit_arms(kd, arms, ls),
        arms_able(st, arms, env, ls),
        within(restricted(env, want), to),
        forall|n: Name| #[trigger] arms_want(st, arms).contains(n) ==> want.contains(n),
    ensures
        arms_able(st, arms, to, ls),
{
    reveal(arms_able);
    assert forall|i: int| 0 <= i < arms.len() implies arm_able(st, #[trigger] arms[i], to, ls) by {
        let arm = arms[i];
        let bound = pattern_vars(Seq::empty(), arm.pat);
        super::went::lemma_arm(kd, arms, ls, i);
        super::went::lemma_arm_parts(kd, arm, ls);
        lemma_of_arm(st, arm, env, ls);
        assert forall|n: Name| #[trigger] wants(st, arm.body, bound).contains(n) implies want.contains(n) by {
            assert(arm_wants(st, arms[i]).contains(n));
            assert(arms_want(st, arms).contains(n));
        }
        lemma_able_kept(kd, st, arm.body, bound, want, env, to, ls);
        if arm.guard is Some {
            assert forall|n: Name| #[trigger] wants(st, arm.guard->0, bound).contains(n) implies want.contains(n) by {
                assert(arm_wants(st, arms[i]).contains(n));
                assert(arms_want(st, arms).contains(n));
            }
            lemma_able_kept(kd, st, arm.guard->0, bound, want, env, to, ls);
        }
        reveal(arm_able);
    }
}

/// A term's own labels do not get in its way.
pub open spec fn own(t: Term) -> Set<Var> {
    Set::new(|v: Var| makes(t, v))
}

pub proof fn lemma_own(kd: Kinds, t: Term)
    requires
        tidy(kd, t),
    ensures
        fit(kd, t, own(t)),
        clear(own(t), t),
{
    reveal(fit);
    assert forall|v: Var| #[trigger] own(t).contains(v) implies !reaches(t, v) by {
        lemma_made_apart(kd, t, v);
    }
}

} // verus!
