//! Lowering a `match` with objects to fail to, as the scheme says.

use super::frame::plug;
use super::pattern::Matched;
use super::scheme::{arm_body, guarded, case_chain, chain_arms, take_refs};
use super::state::Lower;
use super::tree::Dt;
use crate::seq::ir::{Name, Statement};
use crate::seq::view::{after, copy_names, enter_s, object_s};
use crate::terms::term::Arm;
use vstd::prelude::*;

verus! {

broadcast use vstd::std_specs::hash::group_hash_axioms;

impl Lower {

    /// An arm whose pattern has matched: its body if its guard holds, and the next
    /// arm, by invoking `fail`, if it does not.
    pub fn arm_body(&mut self, arm: &Arm, env: &Vec<Name>, fail: Name, k: Name) -> (r: Statement)
        ensures
            final(self)@ == arm_body(old(self)@, *arm, env@, fail, k).0,
            r@ == arm_body(old(self)@, *arm, env@, fail, k).1,
        decreases arm, 0nat, 4nat, Dt::Fail, 0nat,
    {
        match &arm.guard {
            None => {
                assert(decreases_to!(arm => arm.body));
                self.expr(&arm.body, env, k)
            },
            Some(guard) => self.guarded(arm, guard, env, fail, k),
        }
    }

    /// Names for the objects of a chain: one more than there are arms.
    pub fn chain_names(&mut self, n: usize) -> (r: Vec<Name>)
        ensures
            final(self)@ == take_refs(old(self)@, n as nat + 1).0,
            r@ == take_refs(old(self)@, n as nat + 1).1,
            r@.len() == n + 1,
    {
        proof {
            reveal(take_refs);
        }
        let ghost start_st = self@;
        let mut r: Vec<Name> = Vec::new();
        let mut i: usize = 0;
        while i < n
            invariant
                i <= n,
                r@.len() == i,
                self@ == take_refs(start_st, i as nat).0,
                r@ == take_refs(start_st, i as nat).1,
            decreases n - i,
        {
            proof {
                reveal(take_refs);
            }
            let x: Name = self.fresh_ref();
            r.push(x);
            i = i + 1;
        }
        let x: Name = self.fresh_ref();
        r.push(x);
        r
    }

    /// A chain of failure continuations, one per arm, each capturing the next.
    pub fn case_chain(&mut self, s: Name, arms: &Vec<Arm>, from: usize, live: &Vec<Name>, k: Name) -> (r: Statement)
        requires
            from <= arms@.len(),
        ensures
            final(self)@ == case_chain(old(self)@, s, arms@, from as nat, live@, k).0,
            r@ == case_chain(old(self)@, s, arms@, from as nat, live@, k).1,
        decreases arms, arms@.len() + 1, 3nat, Dt::Fail, 0nat,
    {
        let n: usize = arms.len() - from;
        let fails: Vec<Name> = self.chain_names(n);
        let last: Name = fails[n];
        let stmt: Statement = self.chain_arms(s, arms, from, &fails, n, live, k);
        let body: Statement = Statement::Error("non-exhaustive pattern match");
        object_s(last, copy_names(live), copy_names(live), body, stmt)
    }

    pub fn chain_arms(
        &mut self,
        s: Name,
        arms: &Vec<Arm>,
        from: usize,
        fails: &Vec<Name>,
        n: usize,
        live: &Vec<Name>,
        k: Name,
    ) -> (r: Statement)
        requires
            from + n <= arms@.len(),
            n < fails@.len(),
        ensures
            final(self)@ == chain_arms(old(self)@, s, arms@, from as nat, fails@, n as nat, live@, k).0,
            r@ == chain_arms(old(self)@, s, arms@, from as nat, fails@, n as nat, live@, k).1,
        decreases arms, n as nat, 3nat, Dt::Fail, 0nat,
    {
        if n == 0 {
            return enter_s(fails[0]);
        }
        let stmt: Statement = self.chain_arms(s, arms, from, fails, n - 1, live, k);
        let len: usize = arms.len();
        assert(decreases_to!(arms => arms@[from + n - 1]));
        let arm: &Arm = &arms[from + n - 1];
        let fail: Name = fails[n];
        let caps: Vec<Name> = after(live, fail);
        let m: Matched = self.try_pat(&arm.pat, s, &caps, fail);
        let body: Statement = self.arm_body(arm, &m.env, fail, k);
        let whole: Statement = plug(m.frames, body);
        object_s(fails[n - 1], copy_names(&caps), caps, whole, stmt)
    }
}

} // verus!
