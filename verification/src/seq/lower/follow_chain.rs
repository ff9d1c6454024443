//! Every block lowering writes names the whole environment it is entered in:
//! a chain of arms.

use super::follow_arms::lemma_arm_body;
use super::frame::plugged;
use super::pattern::{tried, MatchedV};
use super::scheme::{arm_body, case_chain, chain_arms, take_refs};
use super::state::St;
use super::tree::DtV;
use super::whole::{leads, lemma_plugged, lemma_tried, sound};
use crate::seq::balance::{lemma_error, lemma_invoke, lemma_object, scoped};
use crate::seq::ir::Name;
use crate::seq::view::{new_v, BlockV, StmtV};
use crate::terms::term::Arm;
use vstd::prelude::*;

verus! {

pub proof fn lemma_take_refs(st: St, n: nat)
    ensures
        take_refs(st, n).0.defs == st.defs,
    decreases n,
{
    reveal_with_fuel(take_refs, 2);
    if n > 0 {
        lemma_take_refs(st, (n - 1) as nat);
    }
}

/// One arm of a chain: an object whose method tries it.
pub proof fn lemma_link(m: MatchedV, body: StmtV, caps: Seq<Name>, x: Name, stmt: StmtV, at: Seq<Name>)
    requires
        leads(m.frames, caps, m.env),
        scoped(body, m.env),
        scoped(stmt, seq![x] + at),
    ensures
        scoped(new_v(x, caps, BlockV { params: caps, body: plugged(m.frames, body) }, stmt), at),
{
    lemma_plugged(m.frames, body, caps, m.env);
    lemma_object(x, caps, BlockV { params: caps, body: plugged(m.frames, body) }, stmt, at);
}

pub proof fn lemma_chain(st: St, s: Name, arms: Seq<Arm>, from: nat, env: Seq<Name>, k: Name)
    requires
        sound(st),
    ensures
        sound(case_chain(st, s, arms, from, env, k).0),
        scoped(case_chain(st, s, arms, from, env, k).1, env),
    decreases arms, arms.len() + 1, 3nat, DtV::Fail, 0nat,
{
    lemma_error(env);
    let n = if from <= arms.len() {
        (arms.len() - from) as nat
    } else {
        0
    };
    lemma_take_refs(st, n + 1);
    let (st1, fails) = take_refs(st, n + 1);
    lemma_chain_arms(st1, s, arms, from, fails, n, env, k, seq![fails[n as int]] + env);
    let (st2, stmt) = chain_arms(st1, s, arms, from, fails, n, env, k);
    let none = BlockV { params: env, body: StmtV::Error("non-exhaustive pattern match"@) };
    lemma_object(fails[n as int], env, none, stmt, env);
}

pub proof fn lemma_chain_arms(
    st: St,
    s: Name,
    arms: Seq<Arm>,
    from: nat,
    fails: Seq<Name>,
    n: nat,
    env: Seq<Name>,
    k: Name,
    at: Seq<Name>,
)
    requires
        sound(st),
    ensures
        sound(chain_arms(st, s, arms, from, fails, n, env, k).0),
        scoped(chain_arms(st, s, arms, from, fails, n, env, k).1, at),
    decreases arms, n, 3nat, DtV::Fail, 0nat,
{
    if n == 0 || from + n > arms.len() {
        lemma_invoke(seq![fails[0]], fails[0], at);
    } else {
        lemma_chain_arms(st, s, arms, from, fails, (n - 1) as nat, env, k, seq![fails[n - 1]] + at);
        let (st1, stmt) = chain_arms(st, s, arms, from, fails, (n - 1) as nat, env, k);
        let fail = fails[n as int];
        let caps = env.push(fail);
        let arm = arms[from + n - 1];
        assert(decreases_to!(arms => arm));
        lemma_tried(st1, arm.pat, s, caps, fail);
        let m = tried(st1, arm.pat, s, caps, fail);
        lemma_arm_body(m.st, arm, m.env, fail, k);
        let (st2, body) = arm_body(m.st, arm, m.env, fail, k);
        lemma_link(m, body, caps, fails[n - 1], stmt, at);
    }
}

} // verus!
