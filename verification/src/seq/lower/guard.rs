//! Lowering an arm that has matched, as the scheme says.

use super::expr::Bound;
use super::live::{also, restrict, wants};
use super::scheme::{arm_keep, guard_test, guarded};
use super::state::Lower;
use super::tree::Dt;
use crate::seq::ir::{Extern, Name, Statement};
use crate::seq::view::{enter_s, test_s};
use crate::terms::term::{Arm, Term, Var};
use std::collections::HashSet;
use vstd::prelude::*;

verus! {

broadcast use vstd::std_specs::hash::group_hash_axioms;

/// A branch on a guard's value: `fail` invoked, or the arm taken.
fn test_guard(b: &Bound, fail: Name, taken: Statement) -> (r: Statement)
    ensures
        r@ == guard_test(b@, fail, taken@),
{
    proof {
        reveal(guard_test);
    }
    test_s(Extern::Branch, b.x, &b.env, enter_s(fail), taken)
}

impl Lower {

    /// An arm with a guard, `guard`, whose pattern has matched.
    pub fn guarded(&mut self, arm: &Arm, guard: &Term, env: &Vec<Name>, fail: Name, k: Name) -> (r: Statement)
        requires
            arm.guard == Some(*guard),
        ensures
            final(self)@ == guarded(old(self)@, *arm, *guard, env@, fail, k).0,
            r@ == guarded(old(self)@, *arm, *guard, env@, fail, k).1,
        decreases arm, 0nat, 3nat, Dt::Fail, 0nat,
    {
        assert(decreases_to!(arm => arm.body));
        assert(decreases_to!(arm => arm.guard->0));
        let keep: Vec<Name> = self.keep_for_arm(arm, env, fail, k);
        let b: Bound = self.start(guard, env, keep, None);
        let taken: Statement = self.expr(&arm.body, &b.env, k);
        let s: Statement = test_guard(&b, fail, taken);
        self.finish(guard, b, s)
    }

    /// What an arm's body needs, and the continuations it may go to.
    pub fn keep_for_arm(&self, arm: &Arm, env: &Vec<Name>, fail: Name, k: Name) -> (r: Vec<Name>)
        ensures
            r@ == arm_keep(self@, *arm, env@, fail, k),
    {
        proof {
            reveal(arm_keep);
        }
        let none: Vec<Var> = Vec::new();
        let mut want: HashSet<Name> = self.wants(&arm.body, &none);
        also(&mut want, k);
        also(&mut want, fail);
        proof {
            assert(want@ =~= wants(self@, arm.body, Seq::empty()).union(set![k, fail]));
        }
        restrict(env, &want)
    }
}

} // verus!
