//! How far lowering takes its state: decision trees.

use super::going::{lemma_direct, lemma_expr};
use super::going_parts::{lemma_finished, lemma_started};
use super::live::{restricted, wants};
use super::reach::Kinds;
use super::scheme::{
    begin, bind_vars, direct, emit_cases, emit_lits, emit_planned, emit_tree, expr, run_arm, share_arms, shared_arm,
    take_fields, SharedV,
};
use super::state::St;
use super::stride::{lemma_fresh_as, quiet};
use super::tree::DtV;
use super::went::{
    fit_arm, fit_arms, lemma_arm, lemma_arm_parts, lemma_back_ev, lemma_ev, lemma_label, lemma_on, lemma_on_quietly,
    lemma_other_ev, lemma_quietly, lemma_stay, lemma_went, lemma_written, okay, went,
};
use crate::seq::ir::{Name, Rep};
use crate::seq::view::{two_v, BlockV, ExternV, StmtV};
use crate::terms::prim::{Lit, Prim};
use crate::terms::symbol::{self, Sym};
use crate::terms::term::{pattern_vars, Arm, Var};
use vstd::prelude::*;

verus! {

pub proof fn lemma_emit_planned(kd: Kinds, st: St, dt: DtV, arms: Seq<Arm>, env: Seq<Name>, k: Name, ls: Set<Var>)
    requires
        okay(kd, st),
        fit_arms(kd, arms, ls),
    ensures
        went(kd, st, emit_planned(st, dt, arms, env, k).0, ls),
    decreases arms, arms.len() + 1, 5nat, DtV::Fail, 0nat,
{
    lemma_share_arms(kd, st, dt, arms, arms.len(), env, ls);
    let (st1, shared) = share_arms(st, dt, arms, arms.len(), env);
    lemma_went(kd, st, st1, ls);
    lemma_emit_tree(kd, st1, dt, arms, env, k, shared, ls);
    lemma_on(kd, st, st1, emit_tree(st1, dt, arms, env, k, shared).0, ls);
}

pub proof fn lemma_share_arms(kd: Kinds, st: St, dt: DtV, arms: Seq<Arm>, n: nat, env: Seq<Name>, ls: Set<Var>)
    requires
        okay(kd, st),
        fit_arms(kd, arms, ls),
    ensures
        went(kd, st, share_arms(st, dt, arms, n, env).0, ls),
    decreases arms, n, 3nat, DtV::Fail, 0nat,
{
    lemma_stay(kd, st, ls);
    if n > 0 && n <= arms.len() {
        lemma_share_arms(kd, st, dt, arms, (n - 1) as nat, env, ls);
        let (st1, shared) = share_arms(st, dt, arms, (n - 1) as nat, env);
        lemma_went(kd, st, st1, ls);
        assert(decreases_to!(arms => arms[n - 1]));
        lemma_arm(kd, arms, ls, n - 1);
        lemma_shared_arm(kd, st1, arms[n - 1], env, ls);
        lemma_on(kd, st, st1, shared_arm(st1, arms[n - 1], env).0, ls);
    }
}

pub proof fn lemma_shared_arm(kd: Kinds, st: St, arm: Arm, env: Seq<Name>, ls: Set<Var>)
    requires
        okay(kd, st),
        fit_arm(kd, arm, ls),
    ensures
        went(kd, st, shared_arm(st, arm, env).0, ls),
    decreases arm, 0nat, 3nat, DtV::Fail, 0nat,
{
    lemma_arm_parts(kd, arm, ls);
    let vars = pattern_vars(Seq::empty(), arm.pat);
    let want = wants(st, arm.body, vars);
    let ev = want.contains(st.ev);
    let fvs = restricted(env, want.remove(st.ev));
    let label = st.next_label;
    let st1 = st.fresh_label();
    lemma_label(kd, st, ls);
    lemma_went(kd, st, st1, ls);
    let kk = st1.next_name;
    let st2 = st1.function_return();
    assert(quiet(st1, st2));
    lemma_quietly(kd, st1, st2, ls);
    lemma_went(kd, st1, st2, ls);
    lemma_ev(kd, st2);
    let block = (fvs + vars).push(kk);
    let iev = st2.next_name;
    let (st3, params) = if ev {
        (st2.fresh_ref().with_ev(st2.next_name), block.push(st2.next_name))
    } else {
        (st2, block)
    };
    assert(decreases_to!(arm => arm.body));
    lemma_fresh_as(st2, Rep::Ref);
    lemma_quietly(kd, st2, st2.fresh_ref(), ls);
    lemma_went(kd, st2, st2.fresh_ref(), ls);
    lemma_other_ev(kd, st2.fresh_ref(), iev);
    lemma_expr(kd, st3, arm.body, params, kk, ls);
    let (st4, body) = expr(st3, arm.body, params, kk);
    if ev {
        lemma_back_ev(kd, st2.fresh_ref(), iev, st4, ls);
        lemma_on(kd, st2, st2.fresh_ref(), st4.with_ev(st.ev), ls);
    } else {
        lemma_went(kd, st2, st4, ls);
        assert(st4.with_ev(st.ev) == st4);
    }
    lemma_on(kd, st1, st2, st4.with_ev(st.ev), ls);
    lemma_written(kd, st, st4.with_ev(st.ev), symbol::ARM_BLOCK, BlockV { params, body }, ls);
}

pub proof fn lemma_emit_tree(kd: Kinds, st: St, dt: DtV, arms: Seq<Arm>, env: Seq<Name>, k: Name, shared: Seq<Option<SharedV>>, ls: Set<Var>)
    requires
        okay(kd, st),
        fit_arms(kd, arms, ls),
    ensures
        went(kd, st, emit_tree(st, dt, arms, env, k, shared).0, ls),
    decreases arms, 0nat, 4nat, dt, 1nat,
{
    lemma_stay(kd, st, ls);
    match dt {
        DtV::Fail => {},
        DtV::Leaf { arm, binds, otherwise } => {
            lemma_leaf(kd, st, dt, arms, env, k, shared, ls);
        },
        DtV::Switch { occ, cases, default } => {
            assert(decreases_to!(dt => cases));
            lemma_emit_cases(kd, st, cases, cases.len(), arms, env, k, shared, ls);
            let (st1, cs) = emit_cases(st, cases, cases.len(), arms, env, k, shared);
            lemma_went(kd, st, st1, ls);
            if let Some(d) = default {
                lemma_emit_tree(kd, st1, *d, arms, env, k, shared, ls);
                lemma_on(kd, st, st1, emit_tree(st1, *d, arms, env, k, shared).0, ls);
            }
        },
        DtV::Lits { occ, lits, rest } => {
            lemma_emit_tree(kd, st, *rest, arms, env, k, shared, ls);
            let (st1, s) = emit_tree(st, *rest, arms, env, k, shared);
            lemma_went(kd, st, st1, ls);
            assert(decreases_to!(dt => lits));
            lemma_emit_lits(kd, st1, occ, lits, lits.len(), arms, env, k, shared, s, ls);
            lemma_on(kd, st, st1, emit_lits(st1, occ, lits, lits.len(), arms, env, k, shared, s).0, ls);
        },
        DtV::Tuple { occ, fields, next } => {
            let (frames, env1) = take_fields(occ, fields, fields.len(), env);
            lemma_emit_tree(kd, st, *next, arms, env1, k, shared, ls);
        },
    }
}

pub proof fn lemma_leaf(kd: Kinds, st: St, dt: DtV, arms: Seq<Arm>, env: Seq<Name>, k: Name, shared: Seq<Option<SharedV>>, ls: Set<Var>)
    requires
        okay(kd, st),
        fit_arms(kd, arms, ls),
        dt is Leaf,
    ensures
        went(kd, st, emit_tree(st, dt, arms, env, k, shared).0, ls),
    decreases arms, 0nat, 4nat, dt, 0nat,
{
    if let DtV::Leaf { arm, binds, otherwise } = dt {
        let (frames, env1) = bind_vars(binds, binds.len(), env);
        if arm < arms.len() && arms[arm as int].guard is Some && otherwise is Some {
            let guard = arms[arm as int].guard->0;
            assert(decreases_to!(arms => arms[arm as int]));
            assert(decreases_to!(arms[arm as int] => guard));
            lemma_arm(kd, arms, ls, arm as int);
            lemma_direct(kd, st, guard, env1, None, ls);
            let d = direct(st, guard, env1, None);
            lemma_started(kd, st, guard, env1, env1, None, d, ls);
            let (st1, b) = begin(st, guard, env1, env1, None, d);
            lemma_went(kd, st, st1, ls);
            let tree = *otherwise->0;
            assert(decreases_to!(dt => tree));
            lemma_emit_tree(kd, st1, tree, arms, b.env, k, shared, ls);
            let (st2, no) = emit_tree(st1, tree, arms, b.env, k, shared);
            lemma_went(kd, st1, st2, ls);
            lemma_run_arm(kd, st2, arm, arms, b.env, k, shared, ls);
            let (st3, yes) = run_arm(st2, arm, arms, b.env, k, shared);
            lemma_on(kd, st, st1, st2, ls);
            lemma_on(kd, st, st2, st3, ls);
            lemma_went(kd, st, st3, ls);
            lemma_expr(kd, st3, guard, seq![b.kk] + b.outer, b.kk, ls);
            lemma_finished(kd, st, st3, b, two_v(ExternV::Branch, seq![b.x], b.env, no, yes), expr(st3, guard, seq![b.kk] + b.outer, b.kk), ls);
        } else {
            lemma_run_arm(kd, st, arm, arms, env1, k, shared, ls);
        }
    }
}

pub proof fn lemma_run_arm(kd: Kinds, st: St, arm: usize, arms: Seq<Arm>, env: Seq<Name>, k: Name, shared: Seq<Option<SharedV>>, ls: Set<Var>)
    requires
        okay(kd, st),
        fit_arms(kd, arms, ls),
    ensures
        went(kd, st, run_arm(st, arm, arms, env, k, shared).0, ls),
    decreases arms, 0nat, 3nat, DtV::Fail, 0nat,
{
    lemma_stay(kd, st, ls);
    if arm < arms.len() && arm < shared.len() {
        if shared[arm as int] is None {
            assert(decreases_to!(arms => arms[arm as int]));
            lemma_arm(kd, arms, ls, arm as int);
            lemma_expr(kd, st, arms[arm as int].body, env, k, ls);
        }
    }
}

pub proof fn lemma_emit_cases(kd: Kinds, st: St, cases: Seq<(Sym, Seq<Name>, DtV)>, n: nat, arms: Seq<Arm>, env: Seq<Name>, k: Name, shared: Seq<Option<SharedV>>, ls: Set<Var>)
    requires
        okay(kd, st),
        fit_arms(kd, arms, ls),
    ensures
        went(kd, st, emit_cases(st, cases, n, arms, env, k, shared).0, ls),
    decreases arms, 0nat, 4nat, cases, n,
{
    lemma_stay(kd, st, ls);
    if n > 0 && n <= cases.len() {
        lemma_emit_cases(kd, st, cases, (n - 1) as nat, arms, env, k, shared, ls);
        let (st1, cs) = emit_cases(st, cases, (n - 1) as nat, arms, env, k, shared);
        let arm_env = cases[n - 1].1 + env;
        assert(decreases_to!(cases => cases[n - 1]));
        let at = st1.tagged(cases[n - 1].0);
        assert(quiet(st1, at));
        lemma_on_quietly(kd, st, st1, at, ls);
        lemma_went(kd, st, at, ls);
        lemma_emit_tree(kd, at, cases[n - 1].2, arms, arm_env, k, shared, ls);
        lemma_on(kd, st, at, emit_tree(at, cases[n - 1].2, arms, arm_env, k, shared).0, ls);
    }
}

pub proof fn lemma_emit_lits(kd: Kinds, st: St, occ: Name, lits: Seq<(Lit, DtV)>, n: nat, arms: Seq<Arm>, env: Seq<Name>, k: Name, shared: Seq<Option<SharedV>>, rest: StmtV, ls: Set<Var>)
    requires
        okay(kd, st),
        fit_arms(kd, arms, ls),
    ensures
        went(kd, st, emit_lits(st, occ, lits, n, arms, env, k, shared, rest).0, ls),
    decreases arms, 0nat, 4nat, lits, n,
{
    lemma_stay(kd, st, ls);
    if n > 0 && n <= lits.len() {
        assert(decreases_to!(lits => lits[n - 1]));
        lemma_emit_tree(kd, st, lits[n - 1].1, arms, env, k, shared, ls);
        let (st1, yes) = emit_tree(st, lits[n - 1].1, arms, env, k, shared);
        lemma_went(kd, st, st1, ls);
        let s = two_v(ExternV::BranchPrimK(Prim::Eq, lits[n - 1].0), seq![occ], env, rest, yes);
        lemma_emit_lits(kd, st1, occ, lits, (n - 1) as nat, arms, env, k, shared, s, ls);
        lemma_on(kd, st, st1, emit_lits(st1, occ, lits, (n - 1) as nat, arms, env, k, shared, s).0, ls);
    }
}

} // verus!
