//! Every name lowering uses is in the environment where it uses it: decision trees.

use super::bring::{lemma_direct, lemma_expr};
use super::bring_parts::{
    all_drawn, holds, lemma_again, lemma_arm_vars, lemma_began, lemma_binds_grow, lemma_closed, lemma_fields_grow,
    lemma_held, lemma_one_drawn, lemma_ran_on, lemma_ran_plugged, lemma_switched, lemma_unneeded, ran, shared_well,
    taken_names,
};
use super::have::{
    brought, lemma_args, lemma_bind_vars, lemma_brought, lemma_plugged, lemma_take_fields, lemma_through,
    lemma_wrote,
};
use super::live::{needs_ev, restricted, wants};
use super::reach::Kinds;
use super::reach_state::lemma_used_below;
use super::rooted::{cases_rooted, lits_rooted, rooted};
use super::scheme::{
    begin, bind_vars, direct, emit_cases, emit_lits, emit_planned, emit_tree, ended, expr, run_arm, share_arms,
    shared_arm, simple, take_fields, SharedV,
};
use super::state::St;
use super::stride::{lemma_fresh_as, quiet, LAST};
use super::supply::{
    arm_able, arms_able, lemma_able, lemma_able_as, lemma_able_more, lemma_arms_on, lemma_kept, lemma_nth_arm,
    lemma_of_arm, lemma_stocked, lemma_stocked_as, lemma_stocked_kept,
};
use super::tree::DtV;
use super::went::{
    fit_arm, fit_arms, lemma_arm, lemma_arm_parts, lemma_back_ev, lemma_ev, lemma_label, lemma_on, lemma_on_quietly,
    lemma_other_ev, lemma_parts, lemma_quietly, lemma_stay, lemma_went, lemma_written, okay, went,
};
use crate::seq::cover::{lemma_both, lemma_push, within};
use crate::seq::draw::{drawn, found, lemma_draw_error, lemma_draw_goto, lemma_draw_switch, lemma_draw_two};
use crate::seq::ir::{Label, Name, Rep};
use crate::seq::view::{two_v, BlockV, ExternV, StmtV};
use crate::terms::prim::{Lit, Prim};
use crate::terms::symbol::{self, Sym};
use crate::terms::term::{pattern_vars, Arm, Var};
use vstd::prelude::*;

verus! {

pub proof fn lemma_emit_planned(
    kd: Kinds,
    st: St,
    dt: DtV,
    arms: Seq<Arm>,
    env: Seq<Name>,
    k: Name,
    have: Set<Name>,
    ls: Set<Var>,
)
    requires
        okay(kd, st),
        fit_arms(kd, arms, ls),
        arms_able(st, arms, env, ls),
        env.contains(k),
        brought(st),
        st.next_name < LAST ==> rooted(dt, arms, have),
        holds(env, have),
    ensures
        ran(kd, st, emit_planned(st, dt, arms, env, k), env, ls),
    decreases arms, arms.len() + 1, 5nat, DtV::Fail, 0nat,
{
    lemma_share_arms(kd, st, dt, arms, arms.len(), env, ls);
    let (st1, shared) = share_arms(st, dt, arms, arms.len(), env);
    lemma_went(kd, st, st1, ls);
    lemma_arms_on(kd, st, st1, arms, env, ls);
    lemma_emit_tree(kd, st1, dt, arms, env, k, shared, env, have, ls);
    lemma_ran_on(kd, st, st1, emit_tree(st1, dt, arms, env, k, shared), env, ls);
}

pub proof fn lemma_share_arms(kd: Kinds, st: St, dt: DtV, arms: Seq<Arm>, n: nat, env: Seq<Name>, ls: Set<Var>)
    requires
        okay(kd, st),
        fit_arms(kd, arms, ls),
        arms_able(st, arms, env, ls),
        n <= arms.len(),
        brought(st),
    ensures
        went(kd, st, share_arms(st, dt, arms, n, env).0, ls),
        brought(share_arms(st, dt, arms, n, env).0),
        share_arms(st, dt, arms, n, env).1.len() == n,
        shared_well(share_arms(st, dt, arms, n, env).1, arms, env, st.ev),
    decreases arms, n, 3nat, DtV::Fail, 0nat,
{
    lemma_stay(kd, st, ls);
    reveal(shared_well);
    if n > 0 {
        lemma_share_arms(kd, st, dt, arms, (n - 1) as nat, env, ls);
        let (st1, shared) = share_arms(st, dt, arms, (n - 1) as nat, env);
        lemma_went(kd, st, st1, ls);
        assert(decreases_to!(arms => arms[n - 1]));
        super::went::lemma_arm(kd, arms, ls, n - 1);
        lemma_arms_on(kd, st, st1, arms, env, ls);
        lemma_nth_arm(st1, arms, env, ls, n - 1);
        lemma_shared_arm(kd, st1, arms[n - 1], env, ls);
        lemma_went(kd, st1, shared_arm(st1, arms[n - 1], env).0, ls);
        lemma_on(kd, st, st1, shared_arm(st1, arms[n - 1], env).0, ls);
    }
}

pub proof fn lemma_shared_arm(kd: Kinds, st: St, arm: Arm, env: Seq<Name>, ls: Set<Var>)
    requires
        okay(kd, st),
        fit_arm(kd, arm, ls),
        arm_able(st, arm, env, ls),
        brought(st),
    ensures
        went(kd, st, shared_arm(st, arm, env).0, ls),
        brought(shared_arm(st, arm, env).0),
        within(shared_arm(st, arm, env).1.fvs, env),
        shared_arm(st, arm, env).1.vars == pattern_vars(Seq::empty(), arm.pat),
        shared_arm(st, arm, env).1.ev ==> env.contains(st.ev),
    decreases arm, 0nat, 3nat, DtV::Fail, 0nat,
{
    lemma_arm_parts(kd, arm, ls);
    lemma_of_arm(st, arm, env, ls);
    lemma_able(st, arm.body, env, ls);
    let vars = pattern_vars(Seq::empty(), arm.pat);
    let want = wants(st, arm.body, vars);
    let ev = want.contains(st.ev);
    let fvs = restricted(env, want.remove(st.ev));
    lemma_kept(env, want.remove(st.ev));
    let label = st.next_label;
    let st1 = st.fresh_label();
    lemma_label(kd, st, ls);
    lemma_went(kd, st, st1, ls);
    let kk = st1.next_name;
    let st2 = st1.function_return();
    assert(quiet(st1, st2));
    lemma_quietly(kd, st1, st2, ls);
    lemma_went(kd, st1, st2, ls);
    lemma_on(kd, st, st1, st2, ls);
    lemma_ev(kd, st2);
    let block = (fvs + vars).push(kk);
    let iev = st2.next_name;
    let (st3, params) = if ev {
        (st2.fresh_ref().with_ev(st2.next_name), block.push(st2.next_name))
    } else {
        (st2, block)
    };
    lemma_both(fvs, vars);
    lemma_push(fvs + vars, kk);
    lemma_push(block, iev);
    lemma_through(fvs, fvs + vars, block);
    lemma_through(fvs, block, params);
    lemma_stocked_kept(kd, st, arm.body, vars, want.remove(st.ev), env, params, ls);
    assert(ev == needs_ev(st, arm.body)) by {
        if ev && !needs_ev(st, arm.body) {
            lemma_ev(kd, st);
            lemma_parts(kd, arm.body, ls);
            lemma_used_below(kd, st, arm.body, vars, st.ev);
        }
    }
    assert(decreases_to!(arm => arm.body));
    lemma_fresh_as(st2, Rep::Ref);
    lemma_quietly(kd, st2, st2.fresh_ref(), ls);
    lemma_went(kd, st2, st2.fresh_ref(), ls);
    lemma_other_ev(kd, st2.fresh_ref(), iev);
    if ev {
        lemma_stocked_as(st, st3, arm.body, params, ls);
        lemma_stocked(st3, arm.body, params, ls);
    } else {
        lemma_unneeded(st, arm.body, params, ls);
        lemma_able_as(st, st3, arm.body, params, ls);
    }
    lemma_brought(st, st3);
    lemma_expr(kd, st3, arm.body, params, kk, ls);
    let (st4, body) = expr(st3, arm.body, params, kk);
    lemma_went(kd, st3, st4, ls);
    if ev {
        lemma_back_ev(kd, st2.fresh_ref(), iev, st4, ls);
        lemma_on(kd, st2, st2.fresh_ref(), st4.with_ev(st.ev), ls);
    } else {
        lemma_went(kd, st2, st4, ls);
        assert(st4.with_ev(st.ev) == st4);
    }
    lemma_on(kd, st1, st2, st4.with_ev(st.ev), ls);
    let back = st4.with_ev(st.ev);
    lemma_brought(st4, back);
    lemma_written(kd, st, back, symbol::ARM_BLOCK, BlockV { params, body }, ls);
    lemma_wrote(back, label, symbol::ARM_BLOCK, BlockV { params, body });
}

pub proof fn lemma_emit_tree(
    kd: Kinds,
    st: St,
    dt: DtV,
    arms: Seq<Arm>,
    env: Seq<Name>,
    k: Name,
    shared: Seq<Option<SharedV>>,
    live: Seq<Name>,
    have: Set<Name>,
    ls: Set<Var>,
)
    requires
        okay(kd, st),
        fit_arms(kd, arms, ls),
        arms_able(st, arms, live, ls),
        within(live, env),
        live.contains(k),
        brought(st),
        shared_well(shared, arms, live, st.ev),
        st.next_name < LAST ==> rooted(dt, arms, have),
        holds(env, have),
    ensures
        ran(kd, st, emit_tree(st, dt, arms, env, k, shared), env, ls),
    decreases arms, 0nat, 4nat, dt, 1nat,
{
    lemma_stay(kd, st, ls);
    lemma_draw_error(env, st.descs);
    match dt {
        DtV::Fail => {},
        DtV::Leaf { arm, binds, otherwise } => {
            lemma_leaf(kd, st, dt, arms, env, k, shared, live, have, ls);
        },
        DtV::Switch { occ, cases, default } => {
            assert(decreases_to!(dt => cases));
            lemma_emit_cases(kd, st, cases, cases.len(), arms, env, k, shared, live, have, ls);
            let (st1, cs) = emit_cases(st, cases, cases.len(), arms, env, k, shared);
            lemma_went(kd, st, st1, ls);
            lemma_stay(kd, st1, ls);
            lemma_arms_on(kd, st, st1, arms, live, ls);
            if let Some(d) = default {
                lemma_emit_tree(kd, st1, *d, arms, env, k, shared, live, have, ls);
            }
            let (st2, no) = match default {
                Some(d) => emit_tree(st1, *d, arms, env, k, shared),
                None => (st1, StmtV::Error("non-exhaustive pattern match"@)),
            };
            lemma_went(kd, st1, st2, ls);
            lemma_on(kd, st, st1, st2, ls);
            if st2.next_name < LAST {
                lemma_switched(cs, st.descs);
                lemma_draw_switch(occ, cs, env, no, env, st.descs);
            }
        },
        DtV::Lits { occ, lits, rest } => {
            lemma_emit_tree(kd, st, *rest, arms, env, k, shared, live, have, ls);
            let (st1, s) = emit_tree(st, *rest, arms, env, k, shared);
            lemma_went(kd, st, st1, ls);
            lemma_arms_on(kd, st, st1, arms, live, ls);
            assert(decreases_to!(dt => lits));
            lemma_emit_lits(kd, st1, occ, lits, lits.len(), arms, env, k, shared, s, live, have, ls);
            lemma_ran_on(kd, st, st1, emit_lits(st1, occ, lits, lits.len(), arms, env, k, shared, s), env, ls);
        },
        DtV::Tuple { occ, fields, next } => {
            lemma_split(kd, st, dt, arms, env, k, shared, live, have, ls);
        },
    }
}

pub proof fn lemma_split(
    kd: Kinds,
    st: St,
    dt: DtV,
    arms: Seq<Arm>,
    env: Seq<Name>,
    k: Name,
    shared: Seq<Option<SharedV>>,
    live: Seq<Name>,
    have: Set<Name>,
    ls: Set<Var>,
)
    requires
        okay(kd, st),
        fit_arms(kd, arms, ls),
        arms_able(st, arms, live, ls),
        within(live, env),
        live.contains(k),
        brought(st),
        shared_well(shared, arms, live, st.ev),
        st.next_name < LAST ==> rooted(dt, arms, have),
        holds(env, have),
        dt is Tuple,
    ensures
        ran(kd, st, emit_tree(st, dt, arms, env, k, shared), env, ls),
    decreases arms, 0nat, 4nat, dt, 0nat,
{
    if let DtV::Tuple { occ, fields, next } = dt {
        let (frames, env1) = take_fields(occ, fields, fields.len(), env);
        let more = have.union(taken_names(fields));
        lemma_fields_grow(occ, fields, fields.len(), env);
        assert(holds(env1, more)) by {
            assert forall|n: Name| #[trigger] more.contains(n) implies env1.contains(n) by {
                if have.contains(n) {
                    assert(env.contains(n));
                } else {
                    let i = choose|i: int| 0 <= i < fields.len() && (#[trigger] fields[i]).1 == n;
                    assert(env1.contains(fields[i].1));
                }
            }
        }
        lemma_through(live, env, env1);
        lemma_emit_tree(kd, st, *next, arms, env1, k, shared, live, more, ls);
        let r = emit_tree(st, *next, arms, env1, k, shared);
        lemma_went(kd, st, r.0, ls);
        if r.0.next_name < LAST {
            lemma_take_fields(occ, fields, fields.len(), env, st.descs);
            lemma_plugged(frames, r.1, env, env1, st.descs);
        }
    }
}

pub proof fn lemma_leaf(
    kd: Kinds,
    st: St,
    dt: DtV,
    arms: Seq<Arm>,
    env: Seq<Name>,
    k: Name,
    shared: Seq<Option<SharedV>>,
    live: Seq<Name>,
    have: Set<Name>,
    ls: Set<Var>,
)
    requires
        okay(kd, st),
        fit_arms(kd, arms, ls),
        arms_able(st, arms, live, ls),
        within(live, env),
        live.contains(k),
        brought(st),
        shared_well(shared, arms, live, st.ev),
        st.next_name < LAST ==> rooted(dt, arms, have),
        holds(env, have),
        dt is Leaf,
    ensures
        ran(kd, st, emit_tree(st, dt, arms, env, k, shared), env, ls),
    decreases arms, 0nat, 4nat, dt, 0nat,
{
    if let DtV::Leaf { arm, binds, otherwise } = dt {
        let (frames, env1) = bind_vars(binds, binds.len(), env);
        lemma_binds_grow(binds, binds.len(), env);
        lemma_through(live, env, env1);
        let led = st.next_name < LAST;
        if led {
            lemma_bind_vars(binds, binds.len(), env, st.descs);
        }
        if arm < arms.len() && arms[arm as int].guard is Some && otherwise is Some {
            let guard = arms[arm as int].guard->0;
            assert(decreases_to!(arms => arms[arm as int]));
            assert(decreases_to!(arms[arm as int] => guard));
            super::went::lemma_arm(kd, arms, ls, arm as int);
            lemma_nth_arm(st, arms, live, ls, arm as int);
            lemma_able_more(st, guard, live, env1, ls);
            super::going::lemma_direct(kd, st, guard, env1, None, ls);
            if simple(guard, env1) {
                lemma_direct(kd, st, guard, env1, None, ls);
            }
            let d = direct(st, guard, env1, None);
            lemma_began(kd, st, guard, env1, env1, None, d, ls);
            let (st1, b) = begin(st, guard, env1, env1, None, d);
            let tree = *otherwise->0;
            assert(decreases_to!(dt => tree));
            lemma_through(live, env1, b.env);
            lemma_arms_on(kd, st, st1, arms, live, ls);
            lemma_held(env, env1, b.env, have);
            lemma_emit_tree(kd, st1, tree, arms, b.env, k, shared, live, have, ls);
            let (st2, no) = emit_tree(st1, tree, arms, b.env, k, shared);
            lemma_went(kd, st1, st2, ls);
            lemma_on(kd, st, st1, st2, ls);
            lemma_arms_on(kd, st, st2, arms, live, ls);
            if led {
                lemma_arm_vars(dt, arms, have, env1, b.env);
            }
            lemma_run_arm(kd, st2, arm, arms, b.env, k, shared, live, ls);
            let (st3, yes) = run_arm(st2, arm, arms, b.env, k, shared);
            lemma_went(kd, st2, st3, ls);
            lemma_on(kd, st, st2, st3, ls);
            lemma_args(b.x, b.env);
            if st3.next_name < LAST {
                lemma_draw_two(ExternV::Branch, seq![b.x], b.env, no, yes, st.descs);
            }
            if !b.simple {
                lemma_again(kd, st, st3, guard, b, ls);
                lemma_expr(kd, st3, guard, seq![b.kk] + b.outer, b.kk, ls);
            }
            lemma_closed(kd, st, st3, b, two_v(ExternV::Branch, seq![b.x], b.env, no, yes), expr(st3, guard, seq![b.kk] + b.outer, b.kk), env1, ls);
            let f = ended(st3, b, two_v(ExternV::Branch, seq![b.x], b.env, no, yes), expr(st3, guard, seq![b.kk] + b.outer, b.kk));
            lemma_went(kd, st, f.0, ls);
            lemma_ran_plugged(kd, st, frames, f, env, env1, ls);
        } else {
            if led {
                lemma_arm_vars(dt, arms, have, env1, env1);
            }
            lemma_run_arm(kd, st, arm, arms, env1, k, shared, live, ls);
            let r = run_arm(st, arm, arms, env1, k, shared);
            lemma_went(kd, st, r.0, ls);
            lemma_ran_plugged(kd, st, frames, r, env, env1, ls);
        }
    }
}

pub proof fn lemma_run_arm(
    kd: Kinds,
    st: St,
    arm: usize,
    arms: Seq<Arm>,
    env: Seq<Name>,
    k: Name,
    shared: Seq<Option<SharedV>>,
    live: Seq<Name>,
    ls: Set<Var>,
)
    requires
        okay(kd, st),
        fit_arms(kd, arms, ls),
        arms_able(st, arms, live, ls),
        within(live, env),
        live.contains(k),
        brought(st),
        shared_well(shared, arms, live, st.ev),
        arm < arms.len() && st.next_name < LAST ==> within(pattern_vars(Seq::empty(), arms[arm as int].pat), env),
    ensures
        ran(kd, st, run_arm(st, arm, arms, env, k, shared), env, ls),
    decreases arms, 0nat, 3nat, DtV::Fail, 0nat,
{
    lemma_stay(kd, st, ls);
    lemma_draw_error(env, st.descs);
    if arm < arms.len() && arm < shared.len() {
        match shared[arm as int] {
            None => {
                assert(decreases_to!(arms => arms[arm as int]));
                super::went::lemma_arm(kd, arms, ls, arm as int);
                lemma_nth_arm(st, arms, live, ls, arm as int);
                lemma_able_more(st, arms[arm as int].body, live, env, ls);
                lemma_expr(kd, st, arms[arm as int].body, env, k, ls);
            },
            Some(sa) => {
                reveal(shared_well);
                if st.next_name < LAST {
                    let sel = (sa.fvs + sa.vars).push(k);
                    lemma_through(sa.fvs, live, env);
                    lemma_both(sa.fvs, sa.vars);
                    lemma_push(sa.fvs + sa.vars, k);
                    lemma_push(sel, st.ev);
                    let all = if sa.ev {
                        sel.push(st.ev)
                    } else {
                        sel
                    };
                    assert(found(all, env, st.descs));
                    lemma_draw_goto(all, Label(sa.label), env, st.descs);
                }
            },
        }
    }
}

pub proof fn lemma_emit_cases(
    kd: Kinds,
    st: St,
    cases: Seq<(Sym, Seq<Name>, DtV)>,
    n: nat,
    arms: Seq<Arm>,
    env: Seq<Name>,
    k: Name,
    shared: Seq<Option<SharedV>>,
    live: Seq<Name>,
    have: Set<Name>,
    ls: Set<Var>,
)
    requires
        okay(kd, st),
        fit_arms(kd, arms, ls),
        arms_able(st, arms, live, ls),
        within(live, env),
        live.contains(k),
        brought(st),
        shared_well(shared, arms, live, st.ev),
        n <= cases.len(),
        st.next_name < LAST ==> cases_rooted(cases, arms, have),
        holds(env, have),
    ensures
        went(kd, st, emit_cases(st, cases, n, arms, env, k, shared).0, ls),
        brought(emit_cases(st, cases, n, arms, env, k, shared).0),
        emit_cases(st, cases, n, arms, env, k, shared).0.next_name < LAST ==> all_drawn(emit_cases(st, cases, n, arms, env, k, shared).1, st.descs),
    decreases arms, 0nat, 4nat, cases, n,
{
    lemma_stay(kd, st, ls);
    reveal(all_drawn);
    if n > 0 {
        lemma_emit_cases(kd, st, cases, (n - 1) as nat, arms, env, k, shared, live, have, ls);
        let (st1, cs) = emit_cases(st, cases, (n - 1) as nat, arms, env, k, shared);
        let (c, names, sub) = cases[n - 1];
        let arm_env = names + env;
        assert(decreases_to!(cases => cases[n - 1]));
        let at = st1.tagged(c);
        assert(quiet(st1, at));
        lemma_went(kd, st, st1, ls);
        lemma_on_quietly(kd, st, st1, at, ls);
        lemma_went(kd, st, at, ls);
        lemma_brought(st1, at);
        lemma_arms_on(kd, st, at, arms, live, ls);
        lemma_both(names, env);
        lemma_through(live, env, arm_env);
        let more = have.union(names.to_set());
        assert(holds(arm_env, more)) by {
            assert forall|x: Name| #[trigger] more.contains(x) implies arm_env.contains(x) by {
                if have.contains(x) {
                    assert(env.contains(x));
                } else {
                    assert(names.contains(x));
                }
            }
        }
        lemma_emit_tree(kd, at, sub, arms, arm_env, k, shared, live, more, ls);
        let (st2, body) = emit_tree(at, sub, arms, arm_env, k, shared);
        lemma_went(kd, at, st2, ls);
        lemma_on(kd, st, at, st2, ls);
        if st2.next_name < LAST {
            lemma_one_drawn(cs, st1.tag(c), BlockV { params: arm_env, body }, st.descs);
        }
    }
}

pub proof fn lemma_emit_lits(
    kd: Kinds,
    st: St,
    occ: Name,
    lits: Seq<(Lit, DtV)>,
    n: nat,
    arms: Seq<Arm>,
    env: Seq<Name>,
    k: Name,
    shared: Seq<Option<SharedV>>,
    rest: StmtV,
    live: Seq<Name>,
    have: Set<Name>,
    ls: Set<Var>,
)
    requires
        okay(kd, st),
        fit_arms(kd, arms, ls),
        arms_able(st, arms, live, ls),
        within(live, env),
        live.contains(k),
        brought(st),
        shared_well(shared, arms, live, st.ev),
        n <= lits.len(),
        st.next_name < LAST ==> lits_rooted(lits, arms, have) && env.contains(occ) && drawn(rest, env, st.descs),
        holds(env, have),
    ensures
        ran(kd, st, emit_lits(st, occ, lits, n, arms, env, k, shared, rest), env, ls),
    decreases arms, 0nat, 4nat, lits, n,
{
    lemma_stay(kd, st, ls);
    if n > 0 {
        assert(decreases_to!(lits => lits[n - 1]));
        lemma_emit_tree(kd, st, lits[n - 1].1, arms, env, k, shared, live, have, ls);
        let (st1, yes) = emit_tree(st, lits[n - 1].1, arms, env, k, shared);
        lemma_went(kd, st, st1, ls);
        lemma_arms_on(kd, st, st1, arms, live, ls);
        let op = ExternV::BranchPrimK(Prim::Eq, lits[n - 1].0);
        let s = two_v(op, seq![occ], env, rest, yes);
        if st1.next_name < LAST {
            lemma_args(occ, env);
            lemma_draw_two(op, seq![occ], env, rest, yes, st.descs);
        }
        lemma_emit_lits(kd, st1, occ, lits, (n - 1) as nat, arms, env, k, shared, s, live, have, ls);
        lemma_ran_on(kd, st, st1, emit_lits(st1, occ, lits, (n - 1) as nat, arms, env, k, shared, s), env, ls);
    }
}

} // verus!
