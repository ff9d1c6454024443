//! Lowering a `match` over distinct constructors, as the scheme says.

use super::case::count_ctor_arms;
use super::scheme::{case, case_chain, case_prefix, switch_arms};
use super::state::Lower;
use super::tree::Dt;
use crate::seq::ir::{Block, Name, Statement, Tag};
use crate::seq::view::{before, copy_names, enter_s, object_s, switch_s};
use crate::terms::term::Arm;
use crate::terms::ty::Ty;
use vstd::prelude::*;

verus! {

broadcast use vstd::std_specs::hash::group_hash_axioms;

impl Lower {
    /// One `switch` over the arms that dispatch on a constructor.
    pub fn case_prefix(&mut self, s: Name, arms: &Vec<Arm>, from: usize, live: &Vec<Name>, k: Name) -> (r: Statement)
        requires
            from <= arms@.len(),
        ensures
            final(self)@ == case_prefix(old(self)@, s, arms@, from as nat, live@, k).0,
            r@ == case_prefix(old(self)@, s, arms@, from as nat, live@, k).1,
        decreases arms, arms@.len() + 1 + (arms@.len() - from), 7nat, Dt::Fail, 0nat,
    {
        let n: usize = count_ctor_arms(arms, from);
        let next: usize = from + n;
        if n < 2 {
            return self.case_chain(s, arms, from, live, k);
        }
        let rest: Name = self.fresh_ref();
        let of: Option<Ty> = self.type_of_name(s);
        let env: Vec<Name> = before(rest, live);
        let cases: Vec<(Tag, Block)> = self.switch_arms(&of, arms, from, n, &env, rest, k);
        let switch: Statement = switch_s(s, cases, env, enter_s(rest));
        let body: Statement = if next >= arms.len() {
            Statement::Error("non-exhaustive pattern match")
        } else {
            self.case(s, arms, next, live, k)
        };
        object_s(rest, copy_names(live), copy_names(live), body, switch)
    }
}

} // verus!
