//! Every block lowering writes names the whole environment it is entered in:
//! an arm whose pattern has matched.

use super::follow::{lemma_direct, lemma_expr};
use super::follow_arms::lemma_guard_ended;
use super::scheme::{arm_keep, begin, direct, expr, guarded};
use super::state::St;
use super::tree::DtV;
use super::whole::{lemma_begin, sound};
use crate::seq::balance::scoped;
use crate::seq::ir::Name;
use crate::terms::term::{Arm, Term};
use vstd::prelude::*;

verus! {

pub proof fn lemma_guarded(st: St, arm: Arm, guard: Term, env: Seq<Name>, fail: Name, k: Name)
    requires
        sound(st),
        arm.guard == Some(guard),
    ensures
        sound(guarded(st, arm, guard, env, fail, k).0),
        scoped(guarded(st, arm, guard, env, fail, k).1, env),
    decreases arm, 0nat, 3nat, DtV::Fail, 0nat,
{
    let keep = arm_keep(st, arm, env, fail, k);
    assert(decreases_to!(arm => arm.body));
    assert(decreases_to!(arm => arm.guard->0));
    lemma_direct(st, guard, env, None);
    let d = direct(st, guard, env, None);
    lemma_begin(st, guard, env, keep, None, d);
    let (st1, b) = begin(st, guard, env, keep, None, d);
    lemma_expr(st1, arm.body, b.env, k);
    let (st2, taken) = expr(st1, arm.body, b.env, k);
    lemma_expr(st2, guard, seq![b.kk] + b.outer, b.kk);
    let r = expr(st2, guard, seq![b.kk] + b.outer, b.kk);
    lemma_guard_ended(st2, b, fail, taken, r, env);
}

} // verus!
