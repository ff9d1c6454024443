//! Every name lowering uses is in the environment where it uses it: an arm that has matched, and a chain of arms.

use super::bring::lemma_expr;
use super::bring_guard::lemma_guarded;
use super::bring_parts::{all_drawn, lemma_one_drawn, lemma_taken, ran};
use super::frame::plugged;
use super::have::{brought, from, lemma_arm_tests, lemma_brought, lemma_plugged, lemma_through, lemma_tried};
use super::pattern::{arm_tests, tried};
use super::reach::Kinds;
use super::scheme::{arm_body, case_chain, chain_arms, covers, switch_arms, take_refs};
use super::state::St;
use super::stride::{lemma_take_refs, LAST};
use super::supply::{
    arm_able, arms_able, lemma_arm_more, lemma_arm_on, lemma_arms_on, lemma_nth_arm, lemma_of_arm,
};
use super::tree::DtV;
use super::went::{
    fit_arm, fit_arms, lemma_arm, lemma_arm_parts, lemma_on, lemma_on_quietly, lemma_quietly, lemma_stay,
    lemma_went, okay, went,
};
use crate::seq::cover::{lemma_front, lemma_push, within};
use crate::seq::draw::{lemma_draw_enter, lemma_draw_error, lemma_draw_object};
use crate::seq::ir::Name;
use crate::seq::view::{BlockV, StmtV};
use crate::terms::term::{Arm, Pat, Var};
use crate::terms::ty::Ty;
use vstd::prelude::*;

verus! {

pub proof fn lemma_switch_arms(
    kd: Kinds,
    st: St,
    of: Option<Ty>,
    arms: Seq<Arm>,
    from: nat,
    n: nat,
    env: Seq<Name>,
    fail: Name,
    k: Name,
    ls: Set<Var>,
)
    requires
        okay(kd, st),
        fit_arms(kd, arms, ls),
        arms_able(st, arms, env, ls),
        env.contains(k),
        brought(st),
        env.contains(fail) || covers(arms, from),
    ensures
        went(kd, st, switch_arms(st, of, arms, from, n, env, fail, k).0, ls),
        brought(switch_arms(st, of, arms, from, n, env, fail, k).0),
        switch_arms(st, of, arms, from, n, env, fail, k).0.next_name < LAST ==> all_drawn(switch_arms(st, of, arms, from, n, env, fail, k).1, st.descs),
    decreases arms, n, 3nat, DtV::Fail, 0nat,
{
    lemma_stay(kd, st, ls);
    reveal(all_drawn);
    if n > 0 && from + n <= arms.len() {
        lemma_switch_arms(kd, st, of, arms, from, (n - 1) as nat, env, fail, k, ls);
        let (st0, cases) = switch_arms(st, of, arms, from, (n - 1) as nat, env, fail, k);
        lemma_went(kd, st, st0, ls);
        let arm = arms[from + n - 1];
        assert(decreases_to!(arms => arm));
        super::went::lemma_arm(kd, arms, ls, from + n - 1);
        lemma_nth_arm(st, arms, env, ls, from + n - 1);
        if let Pat::Ctor(c, subs) = arm.pat {
            super::stride::lemma_arm_tests(st0, c, subs@, of, env, fail);
            if !env.contains(fail) {
                reveal(covers);
                assert(arms[from + n - 1].guard is None);
            }
            lemma_arm_tests(st0, c, subs@, of, env, fail, st.descs);
            let t = arm_tests(st0, c, subs@, of, env, fail);
            lemma_through(env, t.arm_env, t.m.env);
            lemma_on_quietly(kd, st, st0, t.m.st, ls);
            lemma_went(kd, st, t.m.st, ls);
            lemma_brought(st0, t.m.st);
            lemma_arm_on(kd, st, t.m.st, arm, env, ls);
            lemma_arm_more(t.m.st, arm, env, t.m.env, ls);
            lemma_arm_body(kd, t.m.st, arm, t.m.env, fail, k, ls);
            let (st3, body) = arm_body(t.m.st, arm, t.m.env, fail, k);
            lemma_went(kd, t.m.st, st3, ls);
            lemma_on(kd, st, t.m.st, st3, ls);
            if st3.next_name < LAST {
                lemma_plugged(t.m.frames, body, t.arm_env, t.m.env, st.descs);
                lemma_one_drawn(cases, t.tag, BlockV { params: t.arm_env, body: plugged(t.m.frames, body) }, st.descs);
            }
        }
    }
}

pub proof fn lemma_arm_body(kd: Kinds, st: St, arm: Arm, env: Seq<Name>, fail: Name, k: Name, ls: Set<Var>)
    requires
        okay(kd, st),
        fit_arm(kd, arm, ls),
        arm_able(st, arm, env, ls),
        env.contains(fail) || arm.guard is None,
        env.contains(k),
        brought(st),
    ensures
        ran(kd, st, arm_body(st, arm, env, fail, k), env, ls),
    decreases arm, 0nat, 4nat, DtV::Fail, 0nat,
{
    lemma_arm_parts(kd, arm, ls);
    lemma_of_arm(st, arm, env, ls);
    match arm.guard {
        None => {
            assert(decreases_to!(arm => arm.body));
            lemma_expr(kd, st, arm.body, env, k, ls);
        },
        Some(guard) => {
            lemma_guarded(kd, st, arm, guard, env, fail, k, ls);
        },
    }
}

pub proof fn lemma_chain(kd: Kinds, st: St, s: Name, arms: Seq<Arm>, from: nat, env: Seq<Name>, k: Name, ls: Set<Var>)
    requires
        okay(kd, st),
        fit_arms(kd, arms, ls),
        arms_able(st, arms, env, ls),
        env.contains(k),
        brought(st),
        env.contains(s),
        st.next_name < LAST ==> s < st.next_name,
    ensures
        ran(kd, st, case_chain(st, s, arms, from, env, k), env, ls),
    decreases arms, arms.len() + 1, 3nat, DtV::Fail, 0nat,
{
    let n = if from <= arms.len() {
        (arms.len() - from) as nat
    } else {
        0
    };
    super::stride::lemma_take_refs(st, n + 1);
    let (st1, fails) = take_refs(st, n + 1);
    lemma_taken(st, n + 1);
    lemma_quietly(kd, st, st1, ls);
    lemma_went(kd, st, st1, ls);
    lemma_brought(st, st1);
    lemma_arms_on(kd, st, st1, arms, env, ls);
    let last = fails[n as int];
    let at = seq![last] + env;
    lemma_front(last, env);
    lemma_chain_arms(kd, st1, s, arms, from, fails, n, env, k, at, ls);
    let (st2, stmt) = chain_arms(st1, s, arms, from, fails, n, env, k);
    lemma_went(kd, st1, st2, ls);
    lemma_on(kd, st, st1, st2, ls);
    if st2.next_name < LAST {
        lemma_draw_error(env, st.descs);
        lemma_draw_object(
            last,
            env,
            BlockV { params: env, body: StmtV::Error("non-exhaustive pattern match"@) },
            stmt,
            env,
            st.descs,
        );
    }
}

pub proof fn lemma_chain_arms(
    kd: Kinds,
    st: St,
    s: Name,
    arms: Seq<Arm>,
    from: nat,
    fails: Seq<Name>,
    n: nat,
    env: Seq<Name>,
    k: Name,
    at: Seq<Name>,
    ls: Set<Var>,
)
    requires
        okay(kd, st),
        fit_arms(kd, arms, ls),
        arms_able(st, arms, env, ls),
        env.contains(k),
        brought(st),
        env.contains(s),
        n < fails.len(),
        from + n <= arms.len() || n == 0,
        within(env, at),
        at.contains(fails[n as int]),
    ensures
        ran(kd, st, chain_arms(st, s, arms, from, fails, n, env, k), at, ls),
    decreases arms, n, 3nat, DtV::Fail, 0nat,
{
    lemma_stay(kd, st, ls);
    if n == 0 || from + n > arms.len() {
        lemma_draw_enter(fails[0], at, st.descs);
    } else {
        let fail = fails[n as int];
        let caps = env.push(fail);
        lemma_push(env, fail);
        let before = fails[n - 1];
        lemma_front(before, at);
        lemma_chain_arms(kd, st, s, arms, from, fails, (n - 1) as nat, env, k, seq![before] + at, ls);
        let (st1, stmt) = chain_arms(st, s, arms, from, fails, (n - 1) as nat, env, k);
        lemma_went(kd, st, st1, ls);
        let arm = arms[from + n - 1];
        assert(decreases_to!(arms => arm));
        super::went::lemma_arm(kd, arms, ls, from + n - 1);
        lemma_nth_arm(st, arms, env, ls, from + n - 1);
        super::stride::lemma_tried(st1, arm.pat, s, caps, fail);
        lemma_tried(st1, arm.pat, s, caps, fail, st.descs);
        let m = tried(st1, arm.pat, s, caps, fail);
        lemma_through(env, caps, m.env);
        assert(caps.contains(fail));
        assert(m.env.contains(fail));
        lemma_on_quietly(kd, st, st1, m.st, ls);
        lemma_went(kd, st, m.st, ls);
        lemma_brought(st1, m.st);
        lemma_arm_on(kd, st, m.st, arm, env, ls);
        lemma_arm_more(m.st, arm, env, m.env, ls);
        lemma_arm_body(kd, m.st, arm, m.env, fail, k, ls);
        let (st2, body) = arm_body(m.st, arm, m.env, fail, k);
        lemma_went(kd, m.st, st2, ls);
        lemma_on(kd, st, m.st, st2, ls);
        if st2.next_name < LAST {
            lemma_plugged(m.frames, body, caps, m.env, st.descs);
            lemma_draw_object(
                before,
                caps,
                BlockV { params: caps, body: plugged(m.frames, body) },
                stmt,
                at,
                st.descs,
            );
        }
    }
}

} // verus!
