//! What lowering a term leaves as it was: how its state goes from one to the next.

use super::effect::{dispatch, native, perform, resumption, search_arm, search_name};
use super::live::{bound_by, restricted, wants};
use super::reach::{all_tidy, arm_makes, arm_tidy, arms_tidy, clauses_tidy, makes, sorted, tidy, Kinds};
use super::reach_state::lemma_used_below;
use super::scheme::{group_wants, register};
use super::state::St;
use super::stride::{
    lemma_fresh_as, lemma_produced, lemma_quiet_on, lemma_typed, longer, newly, quiet, same_at, tags_kept, LAST,
};
use crate::seq::ir::{Name, Rep, NO_DESC};
use crate::seq::view::{BlockV, ExternV};
use crate::terms::desc;
use crate::terms::symbol::{self, Sym};
use crate::terms::term::{Arm, HClause, Term, Var};
use crate::terms::ty::{Poly, Ty};
use vstd::prelude::*;

verus! {

/// The names a type abstraction binds its descriptors to are descriptors.
pub open spec fn all_descs(st: St, names: Seq<(u32, Name)>) -> bool {
    forall|i: int| 0 <= i < names.len() ==> st.descs.contains((#[trigger] names[i]).1)
}

/// How names are represented: a descriptor as an integer, and what needs one by one.
pub open spec fn reps_ok(st: St) -> bool {
    &&& forall|n: Name| #[trigger]
        st.reps.contains_key(n) ==> (st.reps[n] matches Rep::Var(d) ==> d == NO_DESC || st.descs.contains(d))
    &&& st.next_name < LAST ==> forall|d: Name| #[trigger]
        st.descs.contains(d) ==> d < st.next_name && st.reps.contains_key(d) && st.reps[d] == Rep::Int
}

/// What is known fits the kinds of variables there are.
#[verifier::opaque]
pub open spec fn okay(kd: Kinds, st: St) -> bool {
    &&& sorted(kd, st)
    &&& forall|v: Var| #[trigger] st.letrecs.contains(v) ==> kd.g.contains(v)
    &&& all_descs(st, st.tscope)
    &&& forall|id: u32| #[trigger] st.tylams.contains_key(id) ==> all_descs(st, st.tylams[id])
    &&& st.ev >= kd.lo
    &&& st.next_name >= kd.lo
    &&& reps_ok(st)
}

/// From `a` to `b`, where only the labels of `ls` were made.
pub open spec fn step(a: St, b: St, ls: Set<Var>) -> bool {
    &&& tags_kept(a, b)
    &&& a.next_name <= b.next_name
    &&& a.next_label <= b.next_label
    &&& a.workers == b.workers
    &&& a.worker_ev == b.worker_ev
    &&& a.tylams == b.tylams
    &&& a.tyabs == b.tyabs
    &&& a.descs == b.descs
    &&& a.opt == b.opt
    &&& a.binder_reps == b.binder_reps
    &&& a.bound == b.bound
    &&& a.polys == b.polys
    &&& longer(a, b)
    &&& b.next_label < LAST ==> newly(b.defs, a.defs.len(), a.next_label, b.next_label, Set::empty())
    &&& forall|v: Var| !ls.contains(v) ==> #[trigger] same_at(a, b, v)
}

/// The same, between states that are in order, with the evidence and the descriptors in
/// scope as they were.
#[verifier::opaque]
pub open spec fn went(kd: Kinds, a: St, b: St, ls: Set<Var>) -> bool {
    &&& okay(kd, a)
    &&& okay(kd, b)
    &&& step(a, b, ls)
    &&& a.ev == b.ev
    &&& a.tscope == b.tscope
}

pub proof fn lemma_went(kd: Kinds, a: St, b: St, ls: Set<Var>)
    requires
        went(kd, a, b, ls),
    ensures
        okay(kd, b),
        a.ev == b.ev,
        a.tscope == b.tscope,
        step(a, b, ls),
{
    reveal(went);
}

pub proof fn lemma_stay(kd: Kinds, a: St, ls: Set<Var>)
    requires
        okay(kd, a),
    ensures
        went(kd, a, a, ls),
{
    reveal(went);
}

pub proof fn lemma_on(kd: Kinds, a: St, b: St, c: St, ls: Set<Var>)
    requires
        went(kd, a, b, ls),
        went(kd, b, c, ls),
    ensures
        went(kd, a, c, ls),
{
    reveal(went);
    assert forall|v: Var| !ls.contains(v) implies #[trigger] same_at(a, c, v) by {
        assert(same_at(a, b, v));
        assert(same_at(b, c, v));
    }
    assert(longer(a, c)) by {
        assert forall|i: int| 0 <= i < a.defs.len() implies #[trigger] c.defs[i] == a.defs[i] by {
            assert(b.defs[i] == a.defs[i]);
        }
    }
    if c.next_label < LAST {
        lemma_newly_on(a, b, c);
    }
}

proof fn lemma_newly_on(a: St, b: St, c: St)
    requires
        longer(a, b),
        longer(b, c),
        a.next_label <= b.next_label <= c.next_label,
        newly(b.defs, a.defs.len(), a.next_label, b.next_label, Set::empty()),
        newly(c.defs, b.defs.len(), b.next_label, c.next_label, Set::empty()),
    ensures
        newly(c.defs, a.defs.len(), a.next_label, c.next_label, Set::empty()),
{
    assert forall|i: int| a.defs.len() <= i < c.defs.len() implies a.next_label <= (#[trigger] c.defs[i]).label.0
        < c.next_label || Set::<u32>::empty().contains(c.defs[i].label.0) by {
        if i < b.defs.len() {
            assert(c.defs[i] == b.defs[i]);
        }
    }
    assert forall|i: int, j: int| a.defs.len() <= i < j < c.defs.len() implies (#[trigger] c.defs[i]).label.0 != (
    #[trigger] c.defs[j]).label.0 by {
        if i < b.defs.len() {
            assert(c.defs[i] == b.defs[i]);
        }
        if j < b.defs.len() {
            assert(c.defs[j] == b.defs[j]);
        }
    }
}

/// Taking names leads from one to the next.
pub proof fn lemma_quietly(kd: Kinds, a: St, b: St, ls: Set<Var>)
    requires
        okay(kd, a),
        quiet(a, b),
    ensures
        went(kd, a, b, ls),
{
    reveal(went);
    lemma_quiet_okay(kd, a, b);
}

proof fn lemma_quiet_okay(kd: Kinds, a: St, b: St)
    requires
        okay(kd, a),
        quiet(a, b),
    ensures
        okay(kd, b),
{
    reveal(okay);
    assert forall|n: Name| #[trigger] b.reps.contains_key(n) implies (b.reps[n] matches Rep::Var(d) ==> d == NO_DESC
        || b.descs.contains(d)) by {
        if a.reps.contains_key(n) && b.reps[n] == a.reps[n] {
        } else if let Rep::Var(d) = b.reps[n] {
            if d != NO_DESC {
                let i = choose|i: int| 0 <= i < a.tscope.len() && (#[trigger] a.tscope[i]).1 == d;
                assert(a.descs.contains(a.tscope[i].1));
            }
        }
    }
    if b.next_name < LAST {
        assert forall|d: Name| #[trigger] b.descs.contains(d) implies d < b.next_name && b.reps.contains_key(d)
            && b.reps[d] == Rep::Int by {
            assert(a.descs.contains(d));
        }
    }
    assert(all_descs(b, b.tscope));
    assert forall|id: u32| #[trigger] b.tylams.contains_key(id) implies all_descs(b, b.tylams[id]) by {
        assert(a.tylams.contains_key(id));
    }
}

/// Quietly on from where lowering went.
pub proof fn lemma_on_quietly(kd: Kinds, a: St, b: St, c: St, ls: Set<Var>)
    requires
        went(kd, a, b, ls),
        quiet(b, c),
    ensures
        went(kd, a, c, ls),
{
    lemma_went(kd, a, b, ls);
    lemma_quietly(kd, b, c, ls);
    lemma_on(kd, a, b, c, ls);
}

/// With other evidence for a while.
pub proof fn lemma_other_ev(kd: Kinds, st: St, ev: Name)
    requires
        okay(kd, st),
        ev >= kd.lo,
    ensures
        okay(kd, st.with_ev(ev)),
{
    reveal(okay);
}

proof fn lemma_tags(a: St, m: St, b: St, c: St)
    requires
        a.tags == m.tags,
        b.tags == c.tags,
        tags_kept(m, b),
    ensures
        tags_kept(a, c),
{
    assert forall|k: u32| #[trigger] a.tags.contains_key(k) implies c.tags.contains_key(k) && c.tags[k] == a.tags[k] by {
        assert(m.tags.contains_key(k));
    }
}

pub proof fn lemma_back_ev(kd: Kinds, a: St, ev: Name, b: St, ls: Set<Var>)
    requires
        okay(kd, a),
        went(kd, a.with_ev(ev), b, ls),
    ensures
        went(kd, a, b.with_ev(a.ev), ls),
{
    assert(tags_kept(a.with_ev(ev), b)) by {
        reveal(went);
    }
    lemma_tags(a, a.with_ev(ev), b, b.with_ev(a.ev));
    reveal(went);
    reveal(okay);
    assert forall|v: Var| !ls.contains(v) implies #[trigger] same_at(a, b.with_ev(a.ev), v) by {
        assert(same_at(a.with_ev(ev), b, v));
    }
}

pub proof fn lemma_ev(kd: Kinds, st: St)
    requires
        okay(kd, st),
    ensures
        st.ev >= kd.lo,
        st.next_name >= kd.lo,
        sorted(kd, st),
{
    reveal(okay);
}

pub proof fn lemma_desc_names(kd: Kinds, st: St, id: u32)
    requires
        okay(kd, st),
    ensures
        all_descs(st, st.desc_names(id)),
{
    reveal(okay);
    if st.tylams.contains_key(id) {
        assert(all_descs(st, st.tylams[id]));
    }
}

/// With more descriptors in scope for a while.
pub proof fn lemma_more_scope(kd: Kinds, st: St, names: Seq<(u32, Name)>)
    requires
        okay(kd, st),
        all_descs(st, names),
    ensures
        okay(kd, st.more_scope(names)),
{
    reveal(okay);
    let s = st.more_scope(names);
    assert(all_descs(s, s.tscope)) by {
        assert forall|i: int| 0 <= i < s.tscope.len() implies s.descs.contains((#[trigger] s.tscope[i]).1) by {
            if i < st.tscope.len() {
                assert(st.descs.contains(st.tscope[i].1));
            } else {
                assert(st.descs.contains(names[i - st.tscope.len()].1));
            }
        }
    }
    assert forall|id: u32| #[trigger] s.tylams.contains_key(id) implies all_descs(s, s.tylams[id]) by {
        assert(all_descs(st, st.tylams[id]));
    }
}

pub proof fn lemma_back_scope(kd: Kinds, a: St, names: Seq<(u32, Name)>, b: St, ls: Set<Var>)
    requires
        okay(kd, a),
        went(kd, a.more_scope(names), b, ls),
    ensures
        went(kd, a, b.cut_scope(a.tscope.len()), ls),
{
    assert(tags_kept(a.more_scope(names), b)) by {
        reveal(went);
    }
    lemma_tags(a, a.more_scope(names), b, b.cut_scope(a.tscope.len()));
    reveal(went);
    let c = b.cut_scope(a.tscope.len());
    assert(c.tscope =~= a.tscope);
    assert(okay(kd, c)) by {
        reveal(okay);
        assert(all_descs(c, c.tscope)) by {
            assert(all_descs(a, a.tscope));
            assert forall|i: int| 0 <= i < c.tscope.len() implies c.descs.contains((#[trigger] c.tscope[i]).1) by {
                assert(a.descs.contains(a.tscope[i].1));
            }
        }
        assert forall|id: u32| #[trigger] c.tylams.contains_key(id) implies all_descs(c, c.tylams[id]) by {
            assert(all_descs(b, b.tylams[id]));
        }
    }
    assert forall|v: Var| !ls.contains(v) implies #[trigger] same_at(a, c, v) by {
        assert(same_at(a.more_scope(names), b, v));
    }
}

/// A label taken.
pub proof fn lemma_label(kd: Kinds, st: St, ls: Set<Var>)
    requires
        okay(kd, st),
    ensures
        went(kd, st, st.fresh_label(), ls),
{
    reveal(went);
    assert(okay(kd, st.fresh_label())) by {
        reveal(okay);
        let s = st.fresh_label();
        assert(all_descs(s, s.tscope)) by {
            assert(all_descs(st, st.tscope));
        }
        assert forall|id: u32| #[trigger] s.tylams.contains_key(id) implies all_descs(s, s.tylams[id]) by {
            assert(all_descs(st, st.tylams[id]));
        }
    }
}

/// A definition written under a label that was taken before what it holds was lowered.
pub proof fn lemma_written(kd: Kinds, a: St, b: St, name: Sym, block: BlockV, ls: Set<Var>)
    requires
        okay(kd, a),
        went(kd, a.fresh_label(), b, ls),
    ensures
        went(kd, a, b.wrote(a.next_label, name, block), ls),
{
    assert(tags_kept(a.fresh_label(), b)) by {
        reveal(went);
    }
    lemma_tags(a, a.fresh_label(), b, b.wrote(a.next_label, name, block));
    reveal(went);
    let c = b.wrote(a.next_label, name, block);
    assert(okay(kd, c)) by {
        reveal(okay);
        assert(all_descs(c, c.tscope)) by {
            assert(all_descs(b, b.tscope));
        }
        assert forall|id: u32| #[trigger] c.tylams.contains_key(id) implies all_descs(c, c.tylams[id]) by {
            assert(all_descs(b, b.tylams[id]));
        }
    }
    assert forall|v: Var| !ls.contains(v) implies #[trigger] same_at(a, c, v) by {
        assert(same_at(a.fresh_label(), b, v));
    }
    if c.next_label < LAST {
        let n = a.defs.len();
        assert forall|i: int| n <= i < c.defs.len() implies a.next_label <= (#[trigger] c.defs[i]).label.0 < c.next_label
            || Set::<u32>::empty().contains(c.defs[i].label.0) by {
            if i < b.defs.len() {
                assert(c.defs[i] == b.defs[i]);
            }
        }
        assert forall|i: int, j: int| n <= i < j < c.defs.len() implies (#[trigger] c.defs[i]).label.0 != (#[trigger]
        c.defs[j]).label.0 by {
            assert(c.defs[i] == b.defs[i]);
            if j < b.defs.len() {
                assert(c.defs[j] == b.defs[j]);
            }
        }
    }
}

/// A join point made known.
pub proof fn lemma_join_known(kd: Kinds, st: St, var: Var, label: u32, fvs: Seq<Name>, ls: Set<Var>)
    requires
        okay(kd, st),
        kd.j.contains(var),
        ls.contains(var),
        forall|n: Name| #[trigger] fvs.contains(n) ==> n < kd.lo,
    ensures
        went(kd, st, (St { joins: st.joins.insert(var, (label, fvs)), ..st }), ls),
{
    reveal(went);
    let s = St { joins: st.joins.insert(var, (label, fvs)), ..st };
    assert(okay(kd, s)) by {
        reveal(okay);
        assert(all_descs(s, s.tscope)) by {
            assert(all_descs(st, st.tscope));
        }
        assert forall|id: u32| #[trigger] s.tylams.contains_key(id) implies all_descs(s, s.tylams[id]) by {
            assert(all_descs(st, st.tylams[id]));
        }
        assert forall|v: Var| #[trigger] s.joins.contains_key(v) implies kd.j.contains(v) && forall|n: Name| #[trigger]
            s.joins[v].1.contains(n) ==> n < kd.lo by {
            if v != var {
                assert(st.joins.contains_key(v));
            }
        }
    }
}

/// The bindings of a `letrec` made known.
pub proof fn lemma_registered(kd: Kinds, st: St, vs: Seq<Var>, labels: Seq<u32>, fvs: Seq<Name>, n: nat, ls: Set<Var>)
    requires
        okay(kd, st),
        n <= vs.len(),
        forall|i: int| 0 <= i < vs.len() ==> kd.g.contains(#[trigger] vs[i]) && ls.contains(vs[i]),
        forall|n: Name| #[trigger] fvs.contains(n) ==> n < kd.lo,
    ensures
        went(kd, st, register(st, vs, labels, fvs, n), ls),
        register(st, vs, labels, fvs, n).next_label == st.next_label,
        register(st, vs, labels, fvs, n).defs == st.defs,
    decreases n,
{
    if n == 0 {
        lemma_stay(kd, st, ls);
    } else {
        lemma_registered(kd, st, vs, labels, fvs, (n - 1) as nat, ls);
        let a = register(st, vs, labels, fvs, (n - 1) as nat);
        let b = register(st, vs, labels, fvs, n);
        lemma_went(kd, st, a, ls);
        assert(kd.g.contains(vs[n - 1]) && ls.contains(vs[n - 1]));
        assert(okay(kd, b)) by {
            reveal(okay);
            assert(all_descs(b, b.tscope)) by {
                assert(all_descs(a, a.tscope));
            }
            assert forall|id: u32| #[trigger] b.tylams.contains_key(id) implies all_descs(b, b.tylams[id]) by {
                assert(all_descs(a, a.tylams[id]));
            }
            assert forall|v: Var| #[trigger] b.globals.contains_key(v) implies kd.g.contains(v) && forall|n: Name|
             #[trigger]
                b.globals[v].1.contains(n) ==> n < kd.lo by {
                if v != vs[n - 1] {
                    assert(a.globals.contains_key(v));
                }
            }
        }
        assert(went(kd, a, b, ls)) by {
            reveal(went);
        }
        lemma_on(kd, st, a, b, ls);
    }
}

/// What a label takes of its environment is variables.
pub proof fn lemma_below(kd: Kinds, st: St, t: Term, scope: Seq<Var>, env: Seq<Name>)
    requires
        okay(kd, st),
        tidy(kd, t),
    ensures
        forall|n: Name| #[trigger]
            restricted(env, wants(st, t, scope).remove(st.ev)).contains(n) ==> n < kd.lo && wants(
                st,
                t,
                scope,
            ).contains(n) && env.contains(n),
{
    lemma_ev(kd, st);
    let want = wants(st, t, scope).remove(st.ev);
    assert forall|n: Name| #[trigger] restricted(env, want).contains(n) implies n < kd.lo && wants(st, t, scope).contains(
        n,
    ) && env.contains(n) by {
        lemma_restricted(env, want, n);
        lemma_used_below(kd, st, t, scope, n);
    }
}

pub proof fn lemma_restricted(env: Seq<Name>, want: Set<Name>, n: Name)
    ensures
        restricted(env, want).contains(n) <==> env.contains(n) && want.contains(n),
{
    reveal(restricted);
    lemma_first_wanted(env, want, env.len(), n);
    assert(env.take(env.len() as int) =~= env);
}

proof fn lemma_first_wanted(env: Seq<Name>, want: Set<Name>, k: nat, n: Name)
    requires
        k <= env.len(),
    ensures
        super::live::first_wanted(env, want, k).contains(n) <==> env.take(k as int).contains(n) && want.contains(n),
    decreases k,
{
    if k > 0 {
        lemma_first_wanted(env, want, (k - 1) as nat, n);
        crate::seq::cover::lemma_take(env, k);
        let r = super::live::first_wanted(env, want, (k - 1) as nat);
        if want.contains(env[k - 1]) && !r.contains(env[k - 1]) {
            crate::seq::cover::lemma_push(r, env[k - 1]);
        }
        assert(env.take(k as int).contains(n) <==> env.take(k - 1).contains(n) || n == env[k - 1]);
    } else {
        assert(env.take(0) =~= Seq::<Name>::empty());
    }
}

// --- terms whose labels are among some ---

#[verifier::opaque]
pub open spec fn fit(kd: Kinds, t: Term, ls: Set<Var>) -> bool {
    tidy(kd, t) && forall|v: Var| #[trigger] makes(t, v) ==> ls.contains(v)
}

#[verifier::opaque]
pub open spec fn fit_all(kd: Kinds, xs: Seq<Term>, ls: Set<Var>) -> bool {
    all_tidy(kd, xs) && forall|i: int| 0 <= i < xs.len() ==> fit(kd, #[trigger] xs[i], ls)
}

#[verifier::opaque]
pub open spec fn fit_arm(kd: Kinds, arm: Arm, ls: Set<Var>) -> bool {
    arm_tidy(kd, arm) && fit(kd, arm.body, ls) && (arm.guard is Some ==> fit(kd, arm.guard->0, ls))
}

#[verifier::opaque]
pub open spec fn fit_arms(kd: Kinds, arms: Seq<Arm>, ls: Set<Var>) -> bool {
    arms_tidy(kd, arms) && forall|i: int| 0 <= i < arms.len() ==> fit_arm(kd, #[trigger] arms[i], ls)
}

#[verifier::opaque]
pub open spec fn fit_clauses(kd: Kinds, cs: Seq<HClause>, ls: Set<Var>) -> bool {
    clauses_tidy(kd, cs) && forall|i: int| 0 <= i < cs.len() ==> fit(kd, (#[trigger] cs[i]).body, ls)
}

#[verifier::opaque]
pub open spec fn fit_binds(kd: Kinds, bs: Seq<(Var, Poly, Term)>, ls: Set<Var>) -> bool {
    forall|i: int|
        0 <= i < bs.len() ==> kd.g.contains((#[trigger] bs[i]).0) && ls.contains(bs[i].0) && fit(kd, bs[i].2, ls)
}

/// The right-hand sides of some bindings.
#[verifier::opaque]
pub open spec fn fit_rhs(kd: Kinds, bs: Seq<(Var, Poly, Term)>, ls: Set<Var>) -> bool {
    forall|i: int| 0 <= i < bs.len() ==> fit(kd, (#[trigger] bs[i]).2, ls)
}

pub proof fn lemma_rhs(kd: Kinds, bs: Seq<(Var, Poly, Term)>, ls: Set<Var>, i: int)
    requires
        fit_rhs(kd, bs, ls),
        0 <= i < bs.len(),
    ensures
        fit(kd, bs[i].2, ls),
{
    reveal(fit_rhs);
}

pub proof fn lemma_binds_rhs(kd: Kinds, bs: Seq<(Var, Poly, Term)>, ls: Set<Var>)
    requires
        fit_binds(kd, bs, ls),
    ensures
        fit_rhs(kd, bs, ls),
{
    reveal(fit_rhs);
    reveal(fit_binds);
}

/// The parts of a term whose labels are among some have theirs there.
pub open spec fn parts_fit(kd: Kinds, t: Term, ls: Set<Var>) -> bool {
    match t {
        Term::Loc(_, b) => fit(kd, *b, ls),
        Term::TyLam(_, _, b) => fit(kd, *b, ls),
        Term::TyApp(b, _) => fit(kd, *b, ls),
        Term::Proj(b, _) => fit(kd, *b, ls),
        Term::Sel(b, _, _) => fit(kd, *b, ls),
        Term::Perform(_, _, b, _) => fit(kd, *b, ls),
        Term::Lam(p, _, b) => kd.plain(p) && fit(kd, *b, ls),
        Term::App(f, a) => fit(kd, *f, ls) && fit(kd, *a, ls),
        Term::Extend(f, _, a) => fit(kd, *f, ls) && fit(kd, *a, ls),
        Term::Let(x, _, r, b) => kd.plain(x) && fit(kd, *r, ls) && fit(kd, *b, ls),
        Term::LetRec(binds, b) => fit(kd, *b, ls) && fit_binds(kd, binds@, ls),
        Term::Join { var, rhs, body, .. } => kd.j.contains(var) && ls.contains(var) && fit(kd, *rhs, ls) && fit(
            kd,
            *body,
            ls,
        ),
        Term::Jump(_, xs, _) => fit_all(kd, xs@, ls),
        Term::If(a, b, c) => fit(kd, *a, ls) && fit(kd, *b, ls) && fit(kd, *c, ls),
        Term::Tuple(xs) => fit_all(kd, xs@, ls),
        Term::Array(xs, _) => fit_all(kd, xs@, ls),
        Term::Record(_, xs) => fit_all(kd, xs@, ls),
        Term::Ctor(_, _, xs) => fit_all(kd, xs@, ls),
        Term::Prim(_, xs, _) => fit_all(kd, xs@, ls),
        Term::Case(s, arms, _) => fit(kd, *s, ls) && fit_arms(kd, arms@, ls),
        Term::Handle { body, clauses, ret, .. } => fit(kd, *body, ls) && fit_clauses(kd, clauses@, ls) && (ret is Some
            ==> fit(kd, *(ret->0).2, ls)),
        _ => true,
    }
}

proof fn lemma_fit(kd: Kinds, t: Term, ls: Set<Var>, sub: Term)
    requires
        fit(kd, t, ls),
        tidy(kd, sub),
        forall|v: Var| #[trigger] makes(sub, v) ==> makes(t, v),
    ensures
        fit(kd, sub, ls),
{
    reveal(fit);
    assert forall|v: Var| #[trigger] makes(sub, v) implies ls.contains(v) by {
        assert(makes(t, v));
    }
}

proof fn lemma_fit_list(kd: Kinds, t: Term, ls: Set<Var>, xs: Seq<Term>)
    requires
        fit(kd, t, ls),
        all_tidy(kd, xs),
        forall|v: Var, i: int| 0 <= i < xs.len() && #[trigger] makes(xs[i], v) ==> makes(t, v),
    ensures
        fit_all(kd, xs, ls),
{
    reveal(fit_all);
    assert forall|i: int| 0 <= i < xs.len() implies fit(kd, #[trigger] xs[i], ls) by {
        lemma_fit(kd, t, ls, xs[i]);
    }
}

pub proof fn lemma_parts(kd: Kinds, t: Term, ls: Set<Var>)
    requires
        fit(kd, t, ls),
    ensures
        parts_fit(kd, t, ls),
        tidy(kd, t),
{
    assert(tidy(kd, t)) by {
        reveal(fit);
    }
    match t {
        Term::Loc(_, b) => {
            lemma_fit(kd, t, ls, *b);
        },
        Term::TyLam(_, _, b) => {
            lemma_fit(kd, t, ls, *b);
        },
        Term::TyApp(b, _) => {
            lemma_fit(kd, t, ls, *b);
        },
        Term::Proj(b, _) => {
            lemma_fit(kd, t, ls, *b);
        },
        Term::Sel(b, _, _) => {
            lemma_fit(kd, t, ls, *b);
        },
        Term::Perform(_, _, b, _) => {
            lemma_fit(kd, t, ls, *b);
        },
        Term::Lam(_, _, b) => {
            lemma_fit(kd, t, ls, *b);
        },
        Term::App(f, a) => {
            lemma_fit(kd, t, ls, *f);
            lemma_fit(kd, t, ls, *a);
        },
        Term::Extend(f, _, a) => {
            lemma_fit(kd, t, ls, *f);
            lemma_fit(kd, t, ls, *a);
        },
        Term::Let(_, _, f, a) => {
            lemma_fit(kd, t, ls, *f);
            lemma_fit(kd, t, ls, *a);
        },
        Term::LetRec(binds, b) => {
            lemma_fit(kd, t, ls, *b);
            assert(fit_binds(kd, binds@, ls)) by {
                reveal(fit_binds);
                assert forall|i: int| 0 <= i < binds@.len() implies kd.g.contains((#[trigger] binds@[i]).0)
                    && ls.contains(binds@[i].0) && fit(kd, binds@[i].2, ls) by {
                    lemma_fit(kd, t, ls, binds@[i].2);
                    assert(makes(t, binds@[i].0));
                    reveal(fit);
                }
            }
        },
        Term::Join { var, rhs, body, .. } => {
            lemma_fit(kd, t, ls, *rhs);
            lemma_fit(kd, t, ls, *body);
            assert(makes(t, var));
            reveal(fit);
        },
        Term::Jump(_, xs, _) => {
            lemma_fit_list(kd, t, ls, xs@);
        },
        Term::If(a, b, c) => {
            lemma_fit(kd, t, ls, *a);
            lemma_fit(kd, t, ls, *b);
            lemma_fit(kd, t, ls, *c);
        },
        Term::Tuple(xs) => {
            lemma_fit_list(kd, t, ls, xs@);
        },
        Term::Array(xs, _) => {
            lemma_fit_list(kd, t, ls, xs@);
        },
        Term::Record(_, xs) => {
            lemma_fit_list(kd, t, ls, xs@);
        },
        Term::Ctor(_, _, xs) => {
            lemma_fit_list(kd, t, ls, xs@);
        },
        Term::Prim(_, xs, _) => {
            lemma_fit_list(kd, t, ls, xs@);
        },
        Term::Case(s, arms, _) => {
            lemma_fit(kd, t, ls, *s);
            assert(arms_tidy(kd, arms@));
            assert(fit_arms(kd, arms@, ls)) by {
                reveal(fit_arms);
                reveal(fit_arm);
                assert forall|i: int| 0 <= i < arms@.len() implies fit_arm(kd, #[trigger] arms@[i], ls) by {
                    let arm = arms@[i];
                    assert(arm_tidy(kd, arm));
                    assert forall|v: Var| #[trigger] makes(arm.body, v) implies makes(t, v) by {
                        assert(arm_makes(arms@[i], v));
                    }
                    lemma_fit(kd, t, ls, arm.body);
                    if arm.guard is Some {
                        assert forall|v: Var| #[trigger] makes(arm.guard->0, v) implies makes(t, v) by {
                            assert(arm_makes(arms@[i], v));
                        }
                        lemma_fit(kd, t, ls, arm.guard->0);
                    }
                }
            }
        },
        Term::Handle { body, clauses, ret, .. } => {
            lemma_fit(kd, t, ls, *body);
            assert(clauses_tidy(kd, clauses@));
            assert(fit_clauses(kd, clauses@, ls)) by {
                reveal(fit_clauses);
                assert forall|i: int| 0 <= i < clauses@.len() implies fit(kd, (#[trigger] clauses@[i]).body, ls) by {
                    lemma_fit(kd, t, ls, clauses@[i].body);
                }
            }
            if ret is Some {
                lemma_fit(kd, t, ls, *(ret->0).2);
            }
        },
        _ => {},
    }
}

pub proof fn lemma_item(kd: Kinds, xs: Seq<Term>, ls: Set<Var>, i: int)
    requires
        fit_all(kd, xs, ls),
        0 <= i < xs.len(),
    ensures
        fit(kd, xs[i], ls),
{
    reveal(fit_all);
}

pub proof fn lemma_arm(kd: Kinds, arms: Seq<Arm>, ls: Set<Var>, i: int)
    requires
        fit_arms(kd, arms, ls),
        0 <= i < arms.len(),
    ensures
        fit_arm(kd, arms[i], ls),
        fit(kd, arms[i].body, ls),
        arms[i].guard is Some ==> fit(kd, arms[i].guard->0, ls),
{
    reveal(fit_arms);
    reveal(fit_arm);
}

pub proof fn lemma_arm_parts(kd: Kinds, arm: Arm, ls: Set<Var>)
    requires
        fit_arm(kd, arm, ls),
    ensures
        fit(kd, arm.body, ls),
        arm.guard is Some ==> fit(kd, arm.guard->0, ls),
        arm_tidy(kd, arm),
{
    reveal(fit_arm);
}

pub proof fn lemma_clause(kd: Kinds, cs: Seq<HClause>, ls: Set<Var>, i: int)
    requires
        fit_clauses(kd, cs, ls),
        0 <= i < cs.len(),
    ensures
        fit(kd, cs[i].body, ls),
{
    reveal(fit_clauses);
}

pub proof fn lemma_bind(kd: Kinds, bs: Seq<(Var, Poly, Term)>, ls: Set<Var>, i: int)
    requires
        fit_binds(kd, bs, ls),
        0 <= i < bs.len(),
    ensures
        fit(kd, bs[i].2, ls),
        kd.g.contains(bs[i].0),
        ls.contains(bs[i].0),
{
    reveal(fit_binds);
}

pub proof fn lemma_group_below(kd: Kinds, st: St, binds: Seq<(Var, Poly, Term)>, ls: Set<Var>, env: Seq<Name>)
    requires
        okay(kd, st),
        fit_binds(kd, binds, ls),
    ensures
        forall|n: Name| #[trigger]
            restricted(env, group_wants(st, binds)).contains(n) ==> n < kd.lo && env.contains(n),
{
    lemma_ev(kd, st);
    let want = group_wants(st, binds);
    assert forall|n: Name| #[trigger] restricted(env, want).contains(n) implies n < kd.lo && env.contains(n) by {
        lemma_restricted(env, want, n);
        let i = choose|i: int|
            0 <= i < binds.len() && wants(st, (#[trigger] binds[i]).2, bound_by(binds)).contains(n);
        lemma_bind(kd, binds, ls, i);
        lemma_parts(kd, binds[i].2, ls);
        lemma_used_below(kd, st, binds[i].2, bound_by(binds), n);
    }
}

// --- operations ---

pub proof fn lemma_operation(
    kd: Kinds,
    st: St,
    effect: Sym,
    op: Sym,
    av: Name,
    k: Name,
    ev: Name,
    arg_ty: Option<Ty>,
    res_ty: Option<Ty>,
    ls: Set<Var>,
)
    requires
        okay(kd, st),
    ensures
        went(kd, st, perform(st, effect, op, av, k, ev, arg_ty, res_ty).0, ls),
{
    reveal(perform);
    let label = st.next_label;
    lemma_label(kd, st, ls);
    let st1 = st.fresh_label();
    lemma_went(kd, st, st1, ls);
    let e = st1.next_name;
    let st2 = st1.fresh_ref();
    lemma_fresh_as(st1, Rep::Ref);
    let a = st2.next_name;
    lemma_typed(st2, arg_ty);
    let st3 = st2.fresh_typed(arg_ty);
    let kk = st3.next_name;
    lemma_fresh_as(st3, Rep::Ref);
    let st4 = st3.fresh_ref();
    let params = seq![e, a, kk];
    let key = st4.symbol(st4.key(effect, op));
    let st5 = st4.interned(st4.key(effect, op));
    assert(quiet(st4, st5));
    lemma_search_arm(st5, label, symbol::EV, false, key, params, res_ty);
    let (st6, arm0) = search_arm(st5, label, symbol::EV, false, key, params, res_ty);
    lemma_search_arm(st6, label, symbol::EV_TAIL, true, key, params, res_ty);
    let (st7, arm1) = search_arm(st6, label, symbol::EV_TAIL, true, key, params, res_ty);
    lemma_produced(st7, Seq::empty(), ExternV::Native(effect, op), seq![a], params, res_ty, None);
    let (st8, none) = native(st7, effect, op, a, kk, params, res_ty);
    let name = st8.symbol(search_name(st8, effect, op));
    let st9 = st8.interned(search_name(st8, effect, op));
    assert(quiet(st8, st9));
    lemma_quiet_on(st1, st2, st3);
    lemma_quiet_on(st1, st3, st4);
    lemma_quiet_on(st1, st4, st5);
    lemma_quiet_on(st1, st5, st6);
    lemma_quiet_on(st1, st6, st7);
    lemma_quiet_on(st1, st7, st8);
    lemma_quiet_on(st1, st8, st9);
    lemma_quietly(kd, st1, st9, ls);
    let body = crate::seq::view::switch_v(e, seq![arm0, arm1], params, none);
    lemma_written(kd, st, st9, name, BlockV { params, body }, ls);
}

proof fn lemma_search_arm(
    st: St,
    label: u32,
    ctor: Sym,
    tail: bool,
    key: Sym,
    params: Seq<Name>,
    res_ty: Option<Ty>,
)
    ensures
        quiet(st, search_arm(st, label, ctor, tail, key, params, res_ty).0),
{
    let st1 = st.fresh_as(Rep::Str);
    lemma_fresh_as(st, Rep::Str);
    let st2 = st1.fresh_ref();
    lemma_fresh_as(st1, Rep::Ref);
    let st3 = st2.fresh_ref();
    lemma_fresh_as(st2, Rep::Ref);
    let st4 = st3.fresh_ref();
    lemma_fresh_as(st3, Rep::Ref);
    lemma_quiet_on(st, st1, st2);
    lemma_quiet_on(st, st2, st3);
    lemma_quiet_on(st, st3, st4);
    let fields = seq![st.next_name, st1.next_name, st2.next_name, st3.next_name] + params;
    lemma_dispatch(st4, tail, st1.next_name, st2.next_name, params[1], params[2], fields, res_ty);
    let st5 = dispatch(st4, tail, st1.next_name, st2.next_name, params[1], params[2], fields, res_ty).0;
    lemma_quiet_on(st, st4, st5);
    assert(quiet(st5, st5.tagged(ctor)));
    lemma_quiet_on(st, st5, st5.tagged(ctor));
}

proof fn lemma_dispatch(
    st: St,
    tail: bool,
    clause: Name,
    target: Name,
    av: Name,
    k: Name,
    env: Seq<Name>,
    res_ty: Option<Ty>,
)
    ensures
        quiet(st, dispatch(st, tail, clause, target, av, k, env, res_ty).0),
{
    if !tail {
        let st1 = st.fresh_as(Rep::Bits(desc::UNIT));
        lemma_fresh_as(st, Rep::Bits(desc::UNIT));
        let st2 = st1.fresh_ref();
        lemma_fresh_as(st1, Rep::Ref);
        let st3 = st2.fresh_ref();
        lemma_fresh_as(st2, Rep::Ref);
        let st4 = st3.fresh_ref();
        lemma_fresh_as(st3, Rep::Ref);
        let st5 = st4.fresh_ref();
        lemma_fresh_as(st4, Rep::Ref);
        lemma_quiet_on(st, st1, st2);
        lemma_quiet_on(st, st2, st3);
        lemma_quiet_on(st, st3, st4);
        lemma_quiet_on(st, st4, st5);
        lemma_resumption(st5, k, target, st1.next_name, st2.next_name, res_ty);
        lemma_quiet_on(st, st5, resumption(st5, k, target, st1.next_name, st2.next_name, res_ty).0);
    }
}

proof fn lemma_resumption(st: St, k: Name, target: Name, taken: Name, seg: Name, ty: Option<Ty>)
    ensures
        quiet(st, resumption(st, k, target, taken, seg, ty).0),
{
    lemma_typed(st, ty);
    let st1 = st.fresh_typed(ty);
    let c = st1.next_name;
    let st2 = st1.fresh_ref();
    lemma_fresh_as(st1, Rep::Ref);
    let st3 = st2.fresh_ref();
    lemma_fresh_as(st2, Rep::Ref);
    let st4 = St { returns: st3.returns.insert(c), ..st3 };
    assert(quiet(st3, st4));
    let st5 = st4.fresh_as(Rep::Bits(desc::BOOL));
    lemma_fresh_as(st4, Rep::Bits(desc::BOOL));
    let st6 = st5.fresh_as(Rep::Bits(desc::UNIT));
    lemma_fresh_as(st5, Rep::Bits(desc::UNIT));
    let st7 = st6.fresh_as(Rep::Bits(desc::UNIT));
    lemma_fresh_as(st6, Rep::Bits(desc::UNIT));
    lemma_quiet_on(st, st1, st2);
    lemma_quiet_on(st, st2, st3);
    lemma_quiet_on(st, st3, st4);
    lemma_quiet_on(st, st4, st5);
    lemma_quiet_on(st, st5, st6);
    lemma_quiet_on(st, st6, st7);
}

} // verus!
