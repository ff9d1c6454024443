//! Every name lowering uses is in the environment where it uses it: a guard.

use super::bring::{lemma_direct, lemma_expr};
use super::bring_parts::{lemma_again, lemma_began, lemma_closed, ran};
use super::have::{brought, lemma_args};
use super::live::{restricted, wants};
use super::reach::Kinds;
use super::scheme::{arm_keep, begin, direct, expr, guard_test, guarded, simple};
use super::state::St;
use super::stride::LAST;
use super::supply::{arm_able, lemma_able_kept, lemma_able_on, lemma_keeps, lemma_kept, lemma_of_arm};
use super::tree::DtV;
use super::went::{fit_arm, lemma_arm_parts, lemma_on, lemma_went, okay};
use crate::seq::draw::{lemma_draw_enter, lemma_draw_two};
use crate::seq::ir::Name;
use crate::seq::view::{enter_v, ExternV};
use crate::terms::term::{Arm, Term, Var};
use vstd::prelude::*;

verus! {

pub proof fn lemma_guarded(
    kd: Kinds,
    st: St,
    arm: Arm,
    guard: Term,
    env: Seq<Name>,
    fail: Name,
    k: Name,
    ls: Set<Var>,
)
    requires
        okay(kd, st),
        fit_arm(kd, arm, ls),
        arm.guard == Some(guard),
        arm_able(st, arm, env, ls),
        env.contains(fail),
        env.contains(k),
        brought(st),
    ensures
        ran(kd, st, guarded(st, arm, guard, env, fail, k), env, ls),
    decreases arm, 0nat, 3nat, DtV::Fail, 0nat,
{
    lemma_arm_parts(kd, arm, ls);
    lemma_of_arm(st, arm, env, ls);
    reveal(arm_keep);
    reveal(guard_test);
    let want = wants(st, arm.body, Seq::empty()).union(set![k, fail]);
    assert(decreases_to!(arm => arm.body));
    assert(decreases_to!(arm => arm.guard->0));
    super::going::lemma_direct(kd, st, guard, env, None, ls);
    if simple(guard, env) {
        lemma_direct(kd, st, guard, env, None, ls);
    }
    let d = direct(st, guard, env, None);
    lemma_kept(env, want);
    lemma_began(kd, st, guard, env, restricted(env, want), None, d, ls);
    let (st1, b) = begin(st, guard, env, restricted(env, want), None, d);
    lemma_able_kept(kd, st, arm.body, Seq::empty(), want, env, b.env, ls);
    lemma_able_on(kd, st, st1, arm.body, b.env, ls);
    lemma_keeps(env, want, k, b.env);
    lemma_keeps(env, want, fail, b.env);
    lemma_expr(kd, st1, arm.body, b.env, k, ls);
    let (st2, taken) = expr(st1, arm.body, b.env, k);
    lemma_went(kd, st1, st2, ls);
    lemma_on(kd, st, st1, st2, ls);
    lemma_args(b.x, b.env);
    if st2.next_name < LAST {
        lemma_draw_enter(fail, b.env, st.descs);
        lemma_draw_two(ExternV::Branch, seq![b.x], b.env, enter_v(fail), taken, st.descs);
    }
    if !b.simple {
        lemma_again(kd, st, st2, guard, b, ls);
        lemma_expr(kd, st2, guard, seq![b.kk] + b.outer, b.kk, ls);
    }
    lemma_closed(kd, st, st2, b, guard_test(b, fail, taken), expr(st2, guard, seq![b.kk] + b.outer, b.kk), env, ls);
}

} // verus!
