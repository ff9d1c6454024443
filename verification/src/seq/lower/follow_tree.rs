//! Every block lowering writes names the whole environment it is entered in:
//! decision trees.

use super::follow::{lemma_direct, lemma_expr};
use super::follow_arms::{cased, lemma_cased, lemma_none_cased, lemma_switch_cased};
use super::frame::{plugged, FrameV};
use super::live::{restricted, wants};
use super::scheme::{
    begin, bind_vars, direct, emit_cases, emit_lits, emit_planned, emit_tree, ended, expr, run_arm, share_arms,
    shared_arm, take_fields, BoundV, SharedV,
};
use super::state::St;
use super::tree::DtV;
use super::whole::{
    from, leads, lemma_begin, lemma_bind_vars, lemma_ended, lemma_plugged, lemma_suffix, lemma_take_fields,
    lemma_wrote, sound,
};
use crate::seq::balance::{lemma_error, lemma_goto, lemma_two, scoped};
use crate::seq::ir::{Label, Name};
use crate::seq::view::{two_v, BlockV, ExternV, StmtV};
use crate::terms::prim::{Lit, Prim};
use crate::terms::symbol::{self, Sym};
use crate::terms::term::{pattern_vars, Arm};
use vstd::prelude::*;

verus! {

/// A branch on a term's value, behind the frames that lead to the term.
pub proof fn lemma_choice(
    st: St,
    b: BoundV,
    no: StmtV,
    yes: StmtV,
    r: (St, StmtV),
    frames: Seq<FrameV>,
    env: Seq<Name>,
    at: Seq<Name>,
)
    requires
        sound(st),
        from(b, at),
        scoped(no, b.env),
        scoped(yes, b.env),
        sound(r.0),
        scoped(r.1, seq![b.kk] + b.outer),
        leads(frames, env, at),
    ensures
        sound(ended(st, b, two_v(ExternV::Branch, seq![b.x], b.env, no, yes), r).0),
        scoped(plugged(frames, ended(st, b, two_v(ExternV::Branch, seq![b.x], b.env, no, yes), r).1), env),
{
    let test = two_v(ExternV::Branch, seq![b.x], b.env, no, yes);
    lemma_two(ExternV::Branch, seq![b.x], b.env, no, yes);
    lemma_ended(st, b, test, r, at);
    lemma_plugged(frames, ended(st, b, test, r).1, env, at);
}

pub proof fn lemma_emit_planned(st: St, dt: DtV, arms: Seq<Arm>, env: Seq<Name>, k: Name)
    requires
        sound(st),
    ensures
        sound(emit_planned(st, dt, arms, env, k).0),
        scoped(emit_planned(st, dt, arms, env, k).1, env),
    decreases arms, arms.len() + 1, 5nat, DtV::Fail, 0nat,
{
    lemma_error(env);
    lemma_share_arms(st, dt, arms, arms.len(), env);
    let (st1, shared) = share_arms(st, dt, arms, arms.len(), env);
    lemma_emit_tree(st1, dt, arms, env, k, shared);
}

pub proof fn lemma_share_arms(st: St, dt: DtV, arms: Seq<Arm>, n: nat, env: Seq<Name>)
    requires
        sound(st),
    ensures
        sound(share_arms(st, dt, arms, n, env).0),
    decreases arms, n, 3nat, DtV::Fail, 0nat,
{
    if n > 0 && n <= arms.len() {
        lemma_share_arms(st, dt, arms, (n - 1) as nat, env);
        let (st1, shared) = share_arms(st, dt, arms, (n - 1) as nat, env);
        assert(decreases_to!(arms => arms[n - 1]));
        lemma_shared_arm(st1, arms[n - 1], env);
    }
}

pub proof fn lemma_shared_arm(st: St, arm: Arm, env: Seq<Name>)
    requires
        sound(st),
    ensures
        sound(shared_arm(st, arm, env).0),
    decreases arm, 0nat, 3nat, DtV::Fail, 0nat,
{
    let vars = pattern_vars(Seq::empty(), arm.pat);
    let want = wants(st, arm.body, vars);
    let ev = want.contains(st.ev);
    let fvs = restricted(env, want.remove(st.ev));
    let label = st.next_label;
    let st1 = st.fresh_label();
    let kk = st1.next_name;
    let st2 = st1.function_return();
    let block = (fvs + vars).push(kk);
    let (st3, params) = if ev {
        (st2.fresh_ref().with_ev(st2.next_name), block.push(st2.next_name))
    } else {
        (st2, block)
    };
    assert(decreases_to!(arm => arm.body));
    lemma_expr(st3, arm.body, params, kk);
    let (st4, body) = expr(st3, arm.body, params, kk);
    lemma_wrote(st4.with_ev(st.ev), label, symbol::ARM_BLOCK, BlockV { params, body });
}

pub proof fn lemma_emit_tree(st: St, dt: DtV, arms: Seq<Arm>, env: Seq<Name>, k: Name, shared: Seq<Option<SharedV>>)
    requires
        sound(st),
    ensures
        sound(emit_tree(st, dt, arms, env, k, shared).0),
        scoped(emit_tree(st, dt, arms, env, k, shared).1, env),
    decreases arms, 0nat, 4nat, dt, 1nat,
{
    lemma_error(env);
    match dt {
        DtV::Fail => {},
        DtV::Leaf { arm, binds, otherwise } => {
            lemma_leaf(st, dt, arms, env, k, shared);
        },
        DtV::Switch { occ, cases, default } => {
            assert(decreases_to!(dt => cases));
            lemma_emit_cases(st, cases, cases.len(), arms, env, k, shared);
            let (st1, cs) = emit_cases(st, cases, cases.len(), arms, env, k, shared);
            if let Some(d) = default {
                lemma_emit_tree(st1, *d, arms, env, k, shared);
            }
            let (st2, otherwise) = match default {
                Some(d) => emit_tree(st1, *d, arms, env, k, shared),
                None => (st1, StmtV::Error("non-exhaustive pattern match"@)),
            };
            lemma_switch_cased(occ, cs, env, otherwise);
        },
        DtV::Lits { occ, lits, rest } => {
            lemma_emit_tree(st, *rest, arms, env, k, shared);
            let (st1, s) = emit_tree(st, *rest, arms, env, k, shared);
            assert(decreases_to!(dt => lits));
            lemma_emit_lits(st1, occ, lits, lits.len(), arms, env, k, shared, s);
        },
        DtV::Tuple { occ, fields, next } => {
            lemma_take_fields(occ, fields, fields.len(), env);
            let (frames, env1) = take_fields(occ, fields, fields.len(), env);
            lemma_emit_tree(st, *next, arms, env1, k, shared);
            let (st1, s) = emit_tree(st, *next, arms, env1, k, shared);
            lemma_plugged(frames, s, env, env1);
        },
    }
}

pub proof fn lemma_leaf(st: St, dt: DtV, arms: Seq<Arm>, env: Seq<Name>, k: Name, shared: Seq<Option<SharedV>>)
    requires
        sound(st),
        dt is Leaf,
    ensures
        sound(emit_tree(st, dt, arms, env, k, shared).0),
        scoped(emit_tree(st, dt, arms, env, k, shared).1, env),
    decreases arms, 0nat, 4nat, dt, 0nat,
{
    lemma_error(env);
    if let DtV::Leaf { arm, binds, otherwise } = dt {
        lemma_bind_vars(binds, binds.len(), env);
        let (frames, env1) = bind_vars(binds, binds.len(), env);
        if arm < arms.len() && arms[arm as int].guard is Some && otherwise is Some {
            let guard = arms[arm as int].guard->0;
            assert(decreases_to!(arms => arms[arm as int]));
            assert(decreases_to!(arms[arm as int] => guard));
            lemma_direct(st, guard, env1, None);
            let d = direct(st, guard, env1, None);
            lemma_begin(st, guard, env1, env1, None, d);
            let (st1, b) = begin(st, guard, env1, env1, None, d);
            let tree = *otherwise->0;
            assert(decreases_to!(dt => tree));
            lemma_emit_tree(st1, tree, arms, b.env, k, shared);
            let (st2, no) = emit_tree(st1, tree, arms, b.env, k, shared);
            lemma_run_arm(st2, arm, arms, b.env, k, shared);
            let (st3, yes) = run_arm(st2, arm, arms, b.env, k, shared);
            lemma_expr(st3, guard, seq![b.kk] + b.outer, b.kk);
            let r = expr(st3, guard, seq![b.kk] + b.outer, b.kk);
            lemma_choice(st3, b, no, yes, r, frames, env, env1);
        } else {
            lemma_run_arm(st, arm, arms, env1, k, shared);
            let (st1, s) = run_arm(st, arm, arms, env1, k, shared);
            lemma_plugged(frames, s, env, env1);
        }
    }
}

pub proof fn lemma_run_arm(st: St, arm: usize, arms: Seq<Arm>, env: Seq<Name>, k: Name, shared: Seq<Option<SharedV>>)
    requires
        sound(st),
    ensures
        sound(run_arm(st, arm, arms, env, k, shared).0),
        scoped(run_arm(st, arm, arms, env, k, shared).1, env),
    decreases arms, 0nat, 3nat, DtV::Fail, 0nat,
{
    lemma_error(env);
    if arm < arms.len() && arm < shared.len() {
        match shared[arm as int] {
            None => {
                assert(decreases_to!(arms => arms[arm as int]));
                lemma_expr(st, arms[arm as int].body, env, k);
            },
            Some(sa) => {
                let sel = (sa.fvs + sa.vars).push(k);
                let all = if sa.ev {
                    sel.push(st.ev)
                } else {
                    sel
                };
                lemma_goto(all, Label(sa.label), env);
            },
        }
    }
}

pub proof fn lemma_emit_cases(st: St, cases: Seq<(Sym, Seq<Name>, DtV)>, n: nat, arms: Seq<Arm>, env: Seq<Name>, k: Name, shared: Seq<Option<SharedV>>)
    requires
        sound(st),
    ensures
        sound(emit_cases(st, cases, n, arms, env, k, shared).0),
        cased(emit_cases(st, cases, n, arms, env, k, shared).1, env),
    decreases arms, 0nat, 4nat, cases, n,
{
    if n > 0 && n <= cases.len() {
        lemma_emit_cases(st, cases, (n - 1) as nat, arms, env, k, shared);
        let (st1, cs) = emit_cases(st, cases, (n - 1) as nat, arms, env, k, shared);
        let arm_env = cases[n - 1].1 + env;
        lemma_suffix(cases[n - 1].1, env);
        assert(decreases_to!(cases => cases[n - 1]));
        lemma_emit_tree(st1.tagged(cases[n - 1].0), cases[n - 1].2, arms, arm_env, k, shared);
        let (st2, body) = emit_tree(st1.tagged(cases[n - 1].0), cases[n - 1].2, arms, arm_env, k, shared);
        lemma_cased(cs, st1.tag(cases[n - 1].0), arm_env, body, env);
    } else {
        lemma_none_cased(env);
    }
}

pub proof fn lemma_emit_lits(
    st: St,
    occ: Name,
    lits: Seq<(Lit, DtV)>,
    n: nat,
    arms: Seq<Arm>,
    env: Seq<Name>,
    k: Name,
    shared: Seq<Option<SharedV>>,
    rest: StmtV,
)
    requires
        sound(st),
        scoped(rest, env),
    ensures
        sound(emit_lits(st, occ, lits, n, arms, env, k, shared, rest).0),
        scoped(emit_lits(st, occ, lits, n, arms, env, k, shared, rest).1, env),
    decreases arms, 0nat, 4nat, lits, n,
{
    if n > 0 && n <= lits.len() {
        assert(decreases_to!(lits => lits[n - 1]));
        lemma_emit_tree(st, lits[n - 1].1, arms, env, k, shared);
        let (st1, yes) = emit_tree(st, lits[n - 1].1, arms, env, k, shared);
        let op = ExternV::BranchPrimK(Prim::Eq, lits[n - 1].0);
        lemma_two(op, seq![occ], env, rest, yes);
        let s = two_v(op, seq![occ], env, rest, yes);
        lemma_emit_lits(st1, occ, lits, (n - 1) as nat, arms, env, k, shared, s);
    }
}

} // verus!
