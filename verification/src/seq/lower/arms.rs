//! Lowering the arms of a `match`, as the scheme says.

use super::case::{add_arm, all_tree_pats, count_literal_arms, covers_all, no_arms, rows_of_case};
use super::frame::plug;
use super::pattern::Matched;
use super::scheme::{
    arm_body, case_literals, case_planned, case_sure, case_total, case, case_chain, case_prefix, emit_planned,
    literal_arms, literal_tests, switch_arms,
};
use super::shape::irrefutable;
use super::state::Lower;
use super::tree::{Dt, Row};
use crate::seq::ir::{Block, Extern, Name, Statement, Tag};
use crate::seq::view::{arms_view, copy_names, switch_s, test_s};
use crate::terms::prim::{Lit, Prim};
use crate::terms::term::{Arm, Pat};
use crate::terms::ty::Ty;
use vstd::prelude::*;

verus! {

broadcast use vstd::std_specs::hash::group_hash_axioms;

impl Lower {
    /// The arms from `from` on, tried in order on `s`.
    pub fn case(&mut self, s: Name, arms: &Vec<Arm>, from: usize, live: &Vec<Name>, k: Name) -> (r: Statement)
        requires
            from <= arms@.len(),
        ensures
            final(self)@ == case(old(self)@, s, arms@, from as nat, live@, k).0,
            r@ == case(old(self)@, s, arms@, from as nat, live@, k).1,
        decreases arms, arms@.len() + 1 + (arms@.len() - from), 9nat, Dt::Fail, 0nat,
    {
        if from < arms.len() && arms[from].guard.is_none() && irrefutable(&arms[from].pat) {
            return self.case_sure(s, arms, from, live, k);
        }
        let n: usize = count_literal_arms(arms, from);
        if n > 0 {
            return self.case_literals(s, arms, from, live, k);
        }
        let of: Option<Ty> = self.type_of_name(s);
        let total: bool = from < arms.len() && (match self.constructors(&of) {
            Some(m) => m == arms.len() - from,
            None => false,
        }) && covers_all(arms, from);
        if total {
            return self.case_total(s, arms, from, live, k);
        }
        if self.opt.case_trees() {
            self.case_planned(s, arms, from, live, k)
        } else {
            self.case_chain(s, arms, from, live, k)
        }
    }

    /// An arm that cannot fail needs nothing to fail to.
    pub fn case_sure(&mut self, s: Name, arms: &Vec<Arm>, from: usize, live: &Vec<Name>, k: Name) -> (r: Statement)
        requires
            from < arms@.len(),
        ensures
            final(self)@ == case_sure(old(self)@, s, arms@, from as nat, live@, k).0,
            r@ == case_sure(old(self)@, s, arms@, from as nat, live@, k).1,
        decreases arms, arms@.len() + 1, 3nat, Dt::Fail, 0nat,
    {
        assert(decreases_to!(arms => arms@[from as int]));
        assert(decreases_to!(arms => arms@[from as int].body));
        let unused: Name = self.fresh_ref();
        let m: Matched = self.try_pat(&arms[from].pat, s, live, unused);
        let b: Statement = self.expr(&arms[from].body, &m.env, k);
        plug(m.frames, b)
    }

    /// The leading arms that test a literal, as a chain of compare-and-branch,
    /// around whatever follows them.
    pub fn case_literals(
        &mut self,
        s: Name,
        arms: &Vec<Arm>,
        from: usize,
        live: &Vec<Name>,
        k: Name,
    ) -> (r: Statement)
        requires
            from <= arms@.len(),
            literal_arms(arms@, from as nat) > 0,
        ensures
            final(self)@ == case_literals(old(self)@, s, arms@, from as nat, live@, k).0,
            r@ == case_literals(old(self)@, s, arms@, from as nat, live@, k).1,
        decreases arms, arms@.len() + 1 + (arms@.len() - from), 8nat, Dt::Fail, 0nat,
    {
        let len: usize = arms.len();
        let n: usize = count_literal_arms(arms, from);
        let rest: Statement = if from + n >= len {
            Statement::Error("non-exhaustive pattern match")
        } else {
            self.case(s, arms, from + n, live, k)
        };
        self.literal_tests(s, arms, from, n, live, k, rest)
    }

    /// An arm for every constructor, none of which can fail: one `switch`, and
    /// nothing to fall back to.
    pub fn case_total(&mut self, s: Name, arms: &Vec<Arm>, from: usize, live: &Vec<Name>, k: Name) -> (r: Statement)
        requires
            from <= arms@.len(),
        ensures
            final(self)@ == case_total(old(self)@, s, arms@, from as nat, live@, k).0,
            r@ == case_total(old(self)@, s, arms@, from as nat, live@, k).1,
        decreases arms, arms@.len() + 1, 4nat, Dt::Fail, 0nat,
    {
        let of: Option<Ty> = self.type_of_name(s);
        let unused: Name = self.fresh_ref();
        let cases: Vec<(Tag, Block)> = self.switch_arms(&of, arms, from, arms.len() - from, live, unused, k);
        switch_s(s, cases, copy_names(live), Statement::Error("non-exhaustive pattern match"))
    }

    /// A decision tree, where one can be planned.
    pub fn case_planned(&mut self, s: Name, arms: &Vec<Arm>, from: usize, live: &Vec<Name>, k: Name) -> (r: Statement)
        requires
            from <= arms@.len(),
        ensures
            final(self)@ == case_planned(old(self)@, s, arms@, from as nat, live@, k).0,
            r@ == case_planned(old(self)@, s, arms@, from as nat, live@, k).1,
        decreases arms, arms@.len() + 1 + (arms@.len() - from), 8nat, Dt::Fail, 0nat,
    {
        if all_tree_pats(arms, from) {
            let rows: Vec<Row> = rows_of_case(s, arms, from);
            let got: Option<Dt> = self.plan(&rows, arms, arms.len() - from);
            return match got {
                Some(dt) => self.emit_planned(&dt, arms, live, k),
                None => self.case_prefix(s, arms, from, live, k),
            };
        }
        self.case_prefix(s, arms, from, live, k)
    }

    /// The leading arms that test a literal, as a chain of compare-and-branch.
    pub fn literal_tests(
        &mut self,
        s: Name,
        arms: &Vec<Arm>,
        from: usize,
        n: usize,
        live: &Vec<Name>,
        k: Name,
        rest: Statement,
    ) -> (r: Statement)
        requires
            from + n <= arms@.len(),
        ensures
            final(self)@ == literal_tests(old(self)@, s, arms@, from as nat, n as nat, live@, k, rest@).0,
            r@ == literal_tests(old(self)@, s, arms@, from as nat, n as nat, live@, k, rest@).1,
        decreases arms, n as nat, 3nat, Dt::Fail, 0nat,
    {
        if n == 0 {
            return rest;
        }
        let len: usize = arms.len();
        assert(decreases_to!(arms => arms@[from + n - 1]));
        assert(decreases_to!(arms => arms@[from + n - 1].body));
        let yes: Statement = self.expr(&arms[from + n - 1].body, live, k);
        match &arms[from + n - 1].pat {
            Pat::Lit(l) => {
                let more: Statement = test_s(Extern::BranchPrimK(Prim::Eq, *l), s, live, rest, yes);
                self.literal_tests(s, arms, from, n - 1, live, k, more)
            },
            _ => rest,
        }
    }

    /// A switch's arms: each binds its fields in front of `env`.
    pub fn switch_arms(
        &mut self,
        of: &Option<Ty>,
        arms: &Vec<Arm>,
        from: usize,
        n: usize,
        env: &Vec<Name>,
        fail: Name,
        k: Name,
    ) -> (r: Vec<(Tag, Block)>)
        requires
            from + n <= arms@.len(),
        ensures
            final(self)@ == switch_arms(old(self)@, *of, arms@, from as nat, n as nat, env@, fail, k).0,
            arms_view(r@) == switch_arms(old(self)@, *of, arms@, from as nat, n as nat, env@, fail, k).1,
        decreases arms, n as nat, 3nat, Dt::Fail, 0nat,
    {
        if n == 0 {
            return no_arms();
        }
        let mut cases: Vec<(Tag, Block)> = self.switch_arms(of, arms, from, n - 1, env, fail, k);
        let len: usize = arms.len();
        assert(decreases_to!(arms => arms@[from + n - 1]));
        let arm: &Arm = &arms[from + n - 1];
        match &arm.pat {
            Pat::Ctor(c, subs) => {
                let (tag, arm_env, m) = self.arm_tests(*c, subs, of, env, fail);
                let body: Statement = self.arm_body(arm, &m.env, fail, k);
                let whole: Statement = plug(m.frames, body);
                add_arm(&mut cases, tag, arm_env, whole);
                cases
            },
            _ => cases,
        }
    }

}

} // verus!
