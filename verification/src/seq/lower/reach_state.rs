//! What a term needs does not change with what it does not reach.

use super::live::{arm_uses, args_need_ev, bound_by, direct_worker, needs_ev, params_of, stands_for, uses};
use super::reach::{all_tidy, arm_reaches, arm_tidy, arms_tidy, clauses_tidy, reaches, sorted, tidy, Kinds};
use super::scheme::simple;
use super::state::St;
use crate::seq::cover::within;
use crate::seq::ir::Name;
use crate::terms::term::{pattern_vars, Arm, Term, Var};
use vstd::prelude::*;

verus! {

/// Two states that agree on direct entry points, and on which of the labels `t` reaches
/// take the evidence.
pub open spec fn same_ev(a: St, b: St, t: Term) -> bool {
    &&& a.workers == b.workers
    &&& a.worker_ev == b.worker_ev
    &&& forall|v: Var| #[trigger] reaches(t, v) ==> (a.letrecs.contains(v) <==> b.letrecs.contains(v))
}

/// What a part of a term reaches, the term does.
pub open spec fn part(sub: Term, t: Term) -> bool {
    forall|v: Var| #[trigger] reaches(sub, v) ==> reaches(t, v)
}

proof fn lemma_part_ev(a: St, b: St, t: Term, sub: Term)
    requires
        same_ev(a, b, t),
        part(sub, t),
    ensures
        same_ev(a, b, sub),
{
    assert forall|v: Var| #[trigger] reaches(sub, v) implies (a.letrecs.contains(v) <==> b.letrecs.contains(v)) by {
        assert(reaches(t, v));
    }
}

pub proof fn lemma_same_ev(a: St, b: St, t: Term)
    requires
        same_ev(a, b, t),
    ensures
        needs_ev(a, t) == needs_ev(b, t),
        args_need_ev(a, t) == args_need_ev(b, t),
    decreases t, 1nat,
{
    match t {
        Term::App(f, x) => {
            lemma_part_ev(a, b, t, *f);
            lemma_same_ev(a, b, *f);
            lemma_part_ev(a, b, t, *x);
            lemma_same_ev(a, b, *x);
            assert(args_need_ev(a, t) == (args_need_ev(a, *f) || needs_ev(a, *x)));
            assert(args_need_ev(b, t) == (args_need_ev(b, *f) || needs_ev(b, *x)));
            assert(direct_worker(a, t) == direct_worker(b, t));
        },
        Term::Var(v) => {
            assert(reaches(t, v));
        },
        Term::TyLam(_, _, x) => {
            lemma_part_ev(a, b, t, *x);
            lemma_same_ev(a, b, *x);
        },
        Term::TyApp(x, _) => {
            lemma_part_ev(a, b, t, *x);
            lemma_same_ev(a, b, *x);
        },
        Term::Loc(_, x) => {
            lemma_part_ev(a, b, t, *x);
            lemma_same_ev(a, b, *x);
        },
        Term::Proj(x, _) => {
            lemma_part_ev(a, b, t, *x);
            lemma_same_ev(a, b, *x);
        },
        Term::Sel(x, _, _) => {
            lemma_part_ev(a, b, t, *x);
            lemma_same_ev(a, b, *x);
        },
        Term::Let(_, _, r, x) => {
            lemma_part_ev(a, b, t, *r);
            lemma_same_ev(a, b, *r);
            lemma_part_ev(a, b, t, *x);
            lemma_same_ev(a, b, *x);
        },
        Term::Extend(r, _, x) => {
            lemma_part_ev(a, b, t, *r);
            lemma_same_ev(a, b, *r);
            lemma_part_ev(a, b, t, *x);
            lemma_same_ev(a, b, *x);
        },
        Term::If(x, y, z) => {
            lemma_part_ev(a, b, t, *x);
            lemma_same_ev(a, b, *x);
            lemma_part_ev(a, b, t, *y);
            lemma_same_ev(a, b, *y);
            lemma_part_ev(a, b, t, *z);
            lemma_same_ev(a, b, *z);
        },
        Term::Tuple(xs) => {
            lemma_list_same_ev(a, b, t, xs@);
        },
        Term::Array(xs, _) => {
            lemma_list_same_ev(a, b, t, xs@);
        },
        Term::Record(_, xs) => {
            lemma_list_same_ev(a, b, t, xs@);
        },
        Term::Ctor(_, _, xs) => {
            lemma_list_same_ev(a, b, t, xs@);
        },
        Term::Prim(_, xs, _) => {
            lemma_list_same_ev(a, b, t, xs@);
        },
        Term::Case(s, arms, _) => {
            lemma_part_ev(a, b, t, *s);
            lemma_same_ev(a, b, *s);
            assert forall|i: int| 0 <= i < arms@.len() implies needs_ev(a, (#[trigger] arms@[i]).body) == needs_ev(
                b,
                arms@[i].body,
            ) && (arms@[i].guard is Some ==> needs_ev(a, arms@[i].guard->0) == needs_ev(b, arms@[i].guard->0)) by {
                let arm = arms@[i];
                assert(decreases_to!(t => arms@));
                assert(decreases_to!(arms@ => arms@[i]));
                assert(same_ev(a, b, arm.body)) by {
                    assert forall|v: Var| #[trigger] reaches(arm.body, v) implies (a.letrecs.contains(v)
                        <==> b.letrecs.contains(v)) by {
                        assert(arm_reaches(arms@[i], v));
                        assert(reaches(t, v));
                    }
                }
                lemma_same_ev(a, b, arm.body);
                if arm.guard is Some {
                    assert(same_ev(a, b, arm.guard->0)) by {
                        assert forall|v: Var| #[trigger] reaches(arm.guard->0, v) implies (a.letrecs.contains(v)
                            <==> b.letrecs.contains(v)) by {
                            assert(arm_reaches(arms@[i], v));
                            assert(reaches(t, v));
                        }
                    }
                    lemma_same_ev(a, b, arm.guard->0);
                }
            }
        },
        _ => {},
    }
}

proof fn lemma_list_same_ev(a: St, b: St, t: Term, xs: Seq<Term>)
    requires
        same_ev(a, b, t),
        decreases_to!(t => xs),
        forall|i: int| 0 <= i < xs.len() ==> part(#[trigger] xs[i], t),
    ensures
        forall|i: int| 0 <= i < xs.len() ==> needs_ev(a, #[trigger] xs[i]) == needs_ev(b, xs[i]),
    decreases t, 0nat,
{
    assert forall|i: int| 0 <= i < xs.len() implies needs_ev(a, #[trigger] xs[i]) == needs_ev(b, xs[i]) by {
        assert(decreases_to!(xs => xs[i]));
        lemma_part_ev(a, b, t, xs[i]);
        lemma_same_ev(a, b, xs[i]);
    }
}

/// What a term needs is a variable.
pub proof fn lemma_used_below(kd: Kinds, st: St, t: Term, scope: Seq<Var>, n: Name)
    requires
        sorted(kd, st),
        tidy(kd, t),
        uses(st, t, scope, n),
    ensures
        n < kd.lo,
    decreases t, 1nat,
{
    match t {
        Term::Loc(_, b) => {
            lemma_used_below(kd, st, *b, scope, n);
        },
        Term::TyLam(_, _, b) => {
            lemma_used_below(kd, st, *b, scope, n);
        },
        Term::TyApp(b, _) => {
            lemma_used_below(kd, st, *b, scope, n);
        },
        Term::Proj(b, _) => {
            lemma_used_below(kd, st, *b, scope, n);
        },
        Term::Sel(b, _, _) => {
            lemma_used_below(kd, st, *b, scope, n);
        },
        Term::Perform(_, _, b, _) => {
            lemma_used_below(kd, st, *b, scope, n);
        },
        Term::Lam(p, _, b) => {
            lemma_used_below(kd, st, *b, scope.push(p), n);
        },
        Term::App(f, a) => {
            if uses(st, *f, scope, n) {
                lemma_used_below(kd, st, *f, scope, n);
            } else {
                lemma_used_below(kd, st, *a, scope, n);
            }
        },
        Term::Extend(f, _, a) => {
            if uses(st, *f, scope, n) {
                lemma_used_below(kd, st, *f, scope, n);
            } else {
                lemma_used_below(kd, st, *a, scope, n);
            }
        },
        Term::Let(x, _, r, b) => {
            if uses(st, *r, scope, n) {
                lemma_used_below(kd, st, *r, scope, n);
            } else {
                lemma_used_below(kd, st, *b, scope.push(x), n);
            }
        },
        Term::LetRec(binds, b) => {
            let inner = scope + bound_by(binds@);
            if uses(st, *b, inner, n) {
                lemma_used_below(kd, st, *b, inner, n);
            } else {
                let k = choose|i: int| 0 <= i < binds@.len() && uses(st, (#[trigger] binds@[i]).2, inner, n);
                assert(decreases_to!(t => binds@));
                assert(decreases_to!(binds@ => binds@[k]));
                lemma_used_below(kd, st, binds@[k].2, inner, n);
            }
        },
        Term::Join { var, params, rhs, body, .. } => {
            if uses(st, *rhs, scope + params_of(params@), n) {
                lemma_used_below(kd, st, *rhs, scope + params_of(params@), n);
            } else {
                lemma_used_below(kd, st, *body, scope.push(var), n);
            }
        },
        Term::Jump(j, xs, _) => {
            if !scope.contains(j) && stands_for(st, j, n) {
            } else {
                lemma_list_used_below(kd, st, t, xs@, scope, n);
            }
        },
        Term::If(a, b, c) => {
            if uses(st, *a, scope, n) {
                lemma_used_below(kd, st, *a, scope, n);
            } else if uses(st, *b, scope, n) {
                lemma_used_below(kd, st, *b, scope, n);
            } else {
                lemma_used_below(kd, st, *c, scope, n);
            }
        },
        Term::Tuple(xs) => {
            lemma_list_used_below(kd, st, t, xs@, scope, n);
        },
        Term::Array(xs, _) => {
            lemma_list_used_below(kd, st, t, xs@, scope, n);
        },
        Term::Record(_, xs) => {
            lemma_list_used_below(kd, st, t, xs@, scope, n);
        },
        Term::Ctor(_, _, xs) => {
            lemma_list_used_below(kd, st, t, xs@, scope, n);
        },
        Term::Prim(_, xs, _) => {
            lemma_list_used_below(kd, st, t, xs@, scope, n);
        },
        Term::Case(s, arms, _) => {
            if uses(st, *s, scope, n) {
                lemma_used_below(kd, st, *s, scope, n);
            } else {
                let k = choose|i: int| 0 <= i < arms@.len() && arm_uses(st, #[trigger] arms@[i], scope, n);
                assert(decreases_to!(t => arms@));
                assert(decreases_to!(arms@ => arms@[k]));
                assert(arms_tidy(kd, arms@));
                lemma_arm_used_below(kd, st, arms@[k], scope, n);
            }
        },
        Term::Handle { body, clauses, ret, .. } => {
            if uses(st, *body, scope, n) {
                lemma_used_below(kd, st, *body, scope, n);
            } else if ret is Some && uses(st, *(ret->0).2, scope.push((ret->0).0), n) {
                lemma_used_below(kd, st, *(ret->0).2, scope.push((ret->0).0), n);
            } else {
                let k = choose|i: int|
                    0 <= i < clauses@.len() && uses(
                        st,
                        (#[trigger] clauses@[i]).body,
                        scope.push(clauses@[i].param).push(clauses@[i].resume),
                        n,
                    );
                assert(decreases_to!(t => clauses@));
                assert(decreases_to!(clauses@ => clauses@[k]));
                assert(clauses_tidy(kd, clauses@));
                lemma_used_below(
                    kd,
                    st,
                    clauses@[k].body,
                    scope.push(clauses@[k].param).push(clauses@[k].resume),
                    n,
                );
            }
        },
        _ => {},
    }
}

pub proof fn lemma_arm_used_below(kd: Kinds, st: St, arm: Arm, scope: Seq<Var>, n: Name)
    requires
        sorted(kd, st),
        arm_tidy(kd, arm),
        arm_uses(st, arm, scope, n),
    ensures
        n < kd.lo,
    decreases arm, 0nat,
{
    let inner = pattern_vars(scope, arm.pat);
    assert(decreases_to!(arm => arm.body));
    if uses(st, arm.body, inner, n) {
        lemma_used_below(kd, st, arm.body, inner, n);
    } else {
        assert(decreases_to!(arm => arm.guard->0));
        lemma_used_below(kd, st, arm.guard->0, inner, n);
    }
}

proof fn lemma_list_used_below(kd: Kinds, st: St, t: Term, xs: Seq<Term>, scope: Seq<Var>, n: Name)
    requires
        sorted(kd, st),
        all_tidy(kd, xs),
        decreases_to!(t => xs),
        exists|i: int| 0 <= i < xs.len() && uses(st, #[trigger] xs[i], scope, n),
    ensures
        n < kd.lo,
    decreases t, 0nat,
{
    let k = choose|i: int| 0 <= i < xs.len() && uses(st, #[trigger] xs[i], scope, n);
    assert(decreases_to!(xs => xs[k]));
    lemma_used_below(kd, st, xs[k], scope, n);
}

/// What can be computed in place in an environment can be in one that holds more.
pub proof fn lemma_simple_grows(t: Term, a: Seq<Name>, b: Seq<Name>)
    requires
        simple(t, a),
        within(a, b),
    ensures
        simple(t, b),
    decreases t, 1nat,
{
    reveal_with_fuel(simple, 2);
    match t {
        Term::Loc(_, x) => {
            lemma_simple_grows(*x, a, b);
        },
        Term::Prim(_, xs, _) => {
            lemma_simple_list(t, xs@, a, b);
        },
        Term::Ctor(_, _, xs) => {
            lemma_simple_list(t, xs@, a, b);
        },
        Term::Tuple(xs) => {
            lemma_simple_list(t, xs@, a, b);
        },
        Term::Array(xs, _) => {
            lemma_simple_list(t, xs@, a, b);
        },
        Term::Record(_, xs) => {
            lemma_simple_list(t, xs@, a, b);
        },
        Term::Sel(x, _, _) => {
            lemma_simple_grows(*x, a, b);
        },
        Term::Proj(x, _) => {
            lemma_simple_grows(*x, a, b);
        },
        Term::Extend(x, _, y) => {
            lemma_simple_grows(*x, a, b);
            lemma_simple_grows(*y, a, b);
        },
        Term::Let(x, _, r, y) => {
            lemma_simple_grows(*r, a, b);
            assert(within(a.push(x), b.push(x))) by {
                crate::seq::cover::lemma_push(a, x);
                crate::seq::cover::lemma_push(b, x);
            }
            lemma_simple_grows(*y, a.push(x), b.push(x));
        },
        _ => {},
    }
}

proof fn lemma_simple_list(t: Term, xs: Seq<Term>, a: Seq<Name>, b: Seq<Name>)
    requires
        forall|i: int| 0 <= i < xs.len() ==> simple(#[trigger] xs[i], a),
        within(a, b),
        decreases_to!(t => xs),
    ensures
        forall|i: int| 0 <= i < xs.len() ==> simple(#[trigger] xs[i], b),
    decreases t, 0nat,
{
    assert forall|i: int| 0 <= i < xs.len() implies simple(#[trigger] xs[i], b) by {
        assert(decreases_to!(xs => xs[i]));
        lemma_simple_grows(xs[i], a, b);
    }
}

} // verus!
