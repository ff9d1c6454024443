//! How far lowering takes its state: an arm that has matched, and a chain of arms.

use super::going::lemma_expr;
use super::going_guard::lemma_guarded;
use super::pattern::{arm_tests, tried};
use super::reach::Kinds;
use super::scheme::{arm_body, case_chain, chain_arms, switch_arms, take_refs};
use super::state::St;
use super::stride::{lemma_arm_tests, lemma_take_refs, lemma_tried};
use super::tree::DtV;
use super::went::{
    fit_arm, fit_arms, lemma_arm, lemma_arm_parts, lemma_on, lemma_on_quietly, lemma_quietly, lemma_stay,
    lemma_went, okay, went,
};
use crate::seq::ir::Name;
use crate::terms::term::{Arm, Pat, Var};
use crate::terms::ty::Ty;
use vstd::prelude::*;

verus! {

pub proof fn lemma_switch_arms(kd: Kinds, st: St, of: Option<Ty>, arms: Seq<Arm>, from: nat, n: nat, env: Seq<Name>, fail: Name, k: Name, ls: Set<Var>)
    requires
        okay(kd, st),
        fit_arms(kd, arms, ls),
    ensures
        went(kd, st, switch_arms(st, of, arms, from, n, env, fail, k).0, ls),
    decreases arms, n, 3nat, DtV::Fail, 0nat,
{
    lemma_stay(kd, st, ls);
    if n > 0 && from + n <= arms.len() {
        lemma_switch_arms(kd, st, of, arms, from, (n - 1) as nat, env, fail, k, ls);
        let (st0, cases) = switch_arms(st, of, arms, from, (n - 1) as nat, env, fail, k);
        lemma_went(kd, st, st0, ls);
        let arm = arms[from + n - 1];
        assert(decreases_to!(arms => arm));
        lemma_arm(kd, arms, ls, from + n - 1);
        if let Pat::Ctor(c, subs) = arm.pat {
            lemma_arm_tests(st0, c, subs@, of, env, fail);
            let t = arm_tests(st0, c, subs@, of, env, fail);
            lemma_on_quietly(kd, st, st0, t.m.st, ls);
            lemma_went(kd, st, t.m.st, ls);
            lemma_arm_body(kd, t.m.st, arm, t.m.env, fail, k, ls);
            lemma_on(kd, st, t.m.st, arm_body(t.m.st, arm, t.m.env, fail, k).0, ls);
        }
    }
}

pub proof fn lemma_arm_body(kd: Kinds, st: St, arm: Arm, env: Seq<Name>, fail: Name, k: Name, ls: Set<Var>)
    requires
        okay(kd, st),
        fit_arm(kd, arm, ls),
    ensures
        went(kd, st, arm_body(st, arm, env, fail, k).0, ls),
    decreases arm, 0nat, 4nat, DtV::Fail, 0nat,
{
    lemma_arm_parts(kd, arm, ls);
    match arm.guard {
        None => {
            assert(decreases_to!(arm => arm.body));
            lemma_expr(kd, st, arm.body, env, k, ls);
        },
        Some(guard) => {
            lemma_guarded(kd, st, arm, guard, env, fail, k, ls);
        },
    }
}

pub proof fn lemma_chain(kd: Kinds, st: St, s: Name, arms: Seq<Arm>, from: nat, env: Seq<Name>, k: Name, ls: Set<Var>)
    requires
        okay(kd, st),
        fit_arms(kd, arms, ls),
    ensures
        went(kd, st, case_chain(st, s, arms, from, env, k).0, ls),
    decreases arms, arms.len() + 1, 3nat, DtV::Fail, 0nat,
{
    let n = if from <= arms.len() {
        (arms.len() - from) as nat
    } else {
        0
    };
    lemma_take_refs(st, n + 1);
    let (st1, fails) = take_refs(st, n + 1);
    lemma_quietly(kd, st, st1, ls);
    lemma_went(kd, st, st1, ls);
    lemma_chain_arms(kd, st1, s, arms, from, fails, n, env, k, ls);
    lemma_on(kd, st, st1, chain_arms(st1, s, arms, from, fails, n, env, k).0, ls);
}

pub proof fn lemma_chain_arms(kd: Kinds, st: St, s: Name, arms: Seq<Arm>, from: nat, fails: Seq<Name>, n: nat, env: Seq<Name>, k: Name, ls: Set<Var>)
    requires
        okay(kd, st),
        fit_arms(kd, arms, ls),
    ensures
        went(kd, st, chain_arms(st, s, arms, from, fails, n, env, k).0, ls),
    decreases arms, n, 3nat, DtV::Fail, 0nat,
{
    lemma_stay(kd, st, ls);
    if n > 0 && from + n <= arms.len() {
        lemma_chain_arms(kd, st, s, arms, from, fails, (n - 1) as nat, env, k, ls);
        let (st1, stmt) = chain_arms(st, s, arms, from, fails, (n - 1) as nat, env, k);
        lemma_went(kd, st, st1, ls);
        let fail = fails[n as int];
        let caps = env.push(fail);
        let arm = arms[from + n - 1];
        assert(decreases_to!(arms => arm));
        lemma_arm(kd, arms, ls, from + n - 1);
        lemma_tried(st1, arm.pat, s, caps, fail);
        let m = tried(st1, arm.pat, s, caps, fail);
        lemma_on_quietly(kd, st, st1, m.st, ls);
        lemma_went(kd, st, m.st, ls);
        lemma_arm_body(kd, m.st, arm, m.env, fail, k, ls);
        lemma_on(kd, st, m.st, arm_body(m.st, arm, m.env, fail, k).0, ls);
    }
}

} // verus!
