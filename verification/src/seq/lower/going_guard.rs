//! How far lowering takes its state: a guard.

use super::going::{lemma_direct, lemma_expr};
use super::going_parts::{lemma_finished, lemma_started};
use super::reach::Kinds;
use super::scheme::{arm_keep, begin, direct, expr, guard_test, guarded};
use super::state::St;
use super::tree::DtV;
use super::went::{fit_arm, lemma_arm_parts, lemma_on, lemma_went, okay, went};
use crate::seq::ir::Name;
use crate::terms::term::{Arm, Term, Var};
use vstd::prelude::*;

verus! {

pub proof fn lemma_guarded(
    kd: Kinds,
    st: St,
    arm: Arm,
    guard: Term,
    env: Seq<Name>,
    fail: Name,
    k: Name,
    ls: Set<Var>,
)
    requires
        okay(kd, st),
        fit_arm(kd, arm, ls),
        arm.guard == Some(guard),
    ensures
        went(kd, st, guarded(st, arm, guard, env, fail, k).0, ls),
    decreases arm, 0nat, 3nat, DtV::Fail, 0nat,
{
    lemma_arm_parts(kd, arm, ls);
    let keep = arm_keep(st, arm, env, fail, k);
    assert(decreases_to!(arm => arm.body));
    assert(decreases_to!(arm => arm.guard->0));
    lemma_direct(kd, st, guard, env, None, ls);
    let d = direct(st, guard, env, None);
    lemma_started(kd, st, guard, env, keep, None, d, ls);
    let (st1, b) = begin(st, guard, env, keep, None, d);
    lemma_went(kd, st, st1, ls);
    lemma_expr(kd, st1, arm.body, b.env, k, ls);
    let (st2, taken) = expr(st1, arm.body, b.env, k);
    lemma_on(kd, st, st1, st2, ls);
    lemma_went(kd, st, st2, ls);
    lemma_expr(kd, st2, guard, seq![b.kk] + b.outer, b.kk, ls);
    lemma_finished(kd, st, st2, b, guard_test(b, fail, taken), expr(st2, guard, seq![b.kk] + b.outer, b.kk), ls);
}

} // verus!
