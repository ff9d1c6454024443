//! Lowering a planned decision tree, as the scheme says.

use super::case::{add_arm, all_shared, binding, no_arms, shared_view, taking, Shared};
use super::expr::Bound;
use super::frame::plug;
use super::live::{restrict, wants, without};
use super::scheme::{
    emit_cases, emit_lits, emit_planned, emit_tree, run_arm, share_arms, shared_arm, SharedV, ARM_COPY_BUDGET,
};
use super::shape::size;
use super::state::Lower;
use super::tree::{count_leaves, dt_view, Dt};
use crate::seq::ir::{Block, Extern, Label, Name, Statement, Tag};
use crate::seq::view::{after, arms_view, both, copy_names, jump_s, switch_s, test_s};
use crate::terms::prim::{Lit, Prim};
use crate::terms::symbol::{self, Sym};
use crate::terms::term::{pat_vars, Arm, Var};
use std::collections::HashSet;
use vstd::prelude::*;

verus! {

broadcast use vstd::std_specs::hash::group_hash_axioms;

impl Lower {
    /// Emit a planned tree in `live`.
    pub fn emit_planned(&mut self, dt: &Dt, arms: &Vec<Arm>, live: &Vec<Name>, k: Name) -> (r: Statement)
        ensures
            final(self)@ == emit_planned(old(self)@, dt_view(*dt), arms@, live@, k).0,
            r@ == emit_planned(old(self)@, dt_view(*dt), arms@, live@, k).1,
        decreases arms, arms@.len() + 1, 5nat, Dt::Fail, 0nat,
    {
        let shared: Vec<Option<Shared>> = self.share_arms(dt, arms, live);
        self.emit_tree(dt, arms, live, k, &shared)
    }

    pub fn share_arms(&mut self, dt: &Dt, arms: &Vec<Arm>, live: &Vec<Name>) -> (r: Vec<Option<Shared>>)
        ensures
            final(self)@ == share_arms(old(self)@, dt_view(*dt), arms@, arms@.len(), live@).0,
            all_shared(r@) == share_arms(old(self)@, dt_view(*dt), arms@, arms@.len(), live@).1,
        decreases arms, arms@.len(), 3nat, Dt::Fail, 0nat,
    {
        let ghost start_st = self@;
        let mut r: Vec<Option<Shared>> = Vec::new();
        proof {
            assert(all_shared(r@) =~= Seq::<Option<SharedV>>::empty());
        }
        let mut i: usize = 0;
        while i < arms.len()
            invariant
                i <= arms@.len(),
                self@ == share_arms(start_st, dt_view(*dt), arms@, i as nat, live@).0,
                all_shared(r@) == share_arms(start_st, dt_view(*dt), arms@, i as nat, live@).1,
            decreases arms@.len() - i,
        {
            assert(decreases_to!(arms => arms@[i as int]));
            let ghost was = r@;
            let many: bool = count_leaves(dt, i, 0) > 1;
            let big: bool = size(&arms[i].body, 0, ARM_COPY_BUDGET + 1) > ARM_COPY_BUDGET;
            let one: Option<Shared> = if many && big {
                Some(self.shared_arm(&arms[i], live))
            } else {
                None
            };
            r.push(one);
            i = i + 1;
            proof {
                assert(all_shared(r@) =~= all_shared(was).push(shared_view(one)));
            }
        }
        r
    }

    /// An arm's body as a label of its own.
    pub fn shared_arm(&mut self, arm: &Arm, live: &Vec<Name>) -> (r: Shared)
        ensures
            final(self)@ == shared_arm(old(self)@, *arm, live@).0,
            r@ == shared_arm(old(self)@, *arm, live@).1,
        decreases arm, 0nat, 3nat, Dt::Fail, 0nat,
    {
        assert(decreases_to!(arm => arm.body));
        let outer: Name = self.ev;
        let mut vars: Vec<Var> = Vec::new();
        pat_vars(&arm.pat, &mut vars);
        let mut want: HashSet<Name> = self.wants(&arm.body, &vars);
        let ev: bool = want.contains(&outer);
        without(&mut want, outer);
        let fvs: Vec<Name> = restrict(live, &want);
        let label: u32 = self.fresh_label();
        let kk: Name = self.function_return();
        let mut params: Vec<Name> = after(&both(&fvs, &vars), kk);
        if ev {
            let iev: Name = self.fresh_ref();
            params.push(iev);
            self.ev = iev;
        }
        let body: Statement = self.expr(&arm.body, &params, kk);
        self.ev = outer;
        self.write(label, symbol::ARM_BLOCK, Block { params, body });
        Shared { label, fvs, vars, ev }
    }

    /// Emit a tree in `env`.
    pub fn emit_tree(
        &mut self,
        dt: &Dt,
        arms: &Vec<Arm>,
        env: &Vec<Name>,
        k: Name,
        shared: &Vec<Option<Shared>>,
    ) -> (r: Statement)
        ensures
            final(self)@ == emit_tree(old(self)@, dt_view(*dt), arms@, env@, k, all_shared(shared@)).0,
            r@ == emit_tree(old(self)@, dt_view(*dt), arms@, env@, k, all_shared(shared@)).1,
        decreases arms, 0nat, 4nat, dt, 0nat,
    {
        match dt {
            Dt::Fail => Statement::Error("non-exhaustive pattern match"),
            Dt::Leaf { arm, binds, otherwise } => {
                let (frames, env1) = binding(binds, env);
                match otherwise {
                    Some(o) => if *arm < arms.len() {
                        assert(decreases_to!(arms => arms@[*arm as int]));
                        match &arms[*arm].guard {
                            Some(guard) => {
                                assert(decreases_to!(arms => guard));
                                let b: Bound = self.start(guard, &env1, copy_names(&env1), None);
                                let no: Statement = self.emit_tree(o, arms, &b.env, k, shared);
                                let yes: Statement = self.run_arm(*arm, arms, &b.env, k, shared);
                                let s: Statement = test_s(Extern::Branch, b.x, &b.env, no, yes);
                                let s2: Statement = self.finish(guard, b, s);
                                plug(frames, s2)
                            },
                            None => {
                                let s: Statement = self.run_arm(*arm, arms, &env1, k, shared);
                                plug(frames, s)
                            },
                        }
                    } else {
                        let s: Statement = self.run_arm(*arm, arms, &env1, k, shared);
                        plug(frames, s)
                    },
                    None => {
                        let s: Statement = self.run_arm(*arm, arms, &env1, k, shared);
                        plug(frames, s)
                    },
                }
            },
            Dt::Switch { occ, cases, default } => {
                let cs: Vec<(Tag, Block)> = self.emit_cases(cases, arms, env, k, shared);
                proof {
                    assert(dt_view(*dt)->cases =~= super::tree::cases_view(cases@));
                }
                let otherwise: Statement = match default {
                    Some(d) => self.emit_tree(d, arms, env, k, shared),
                    None => Statement::Error("non-exhaustive pattern match"),
                };
                switch_s(*occ, cs, copy_names(env), otherwise)
            },
            Dt::Lits { occ, lits, rest } => {
                proof {
                    assert(dt_view(*dt)->lits =~= super::tree::lits_view(lits@));
                }
                let s: Statement = self.emit_tree(rest, arms, env, k, shared);
                self.emit_lits(*occ, lits, arms, env, k, shared, s)
            },
            Dt::Tuple { occ, fields, next } => {
                let (frames, env1) = taking(*occ, fields, env);
                let s: Statement = self.emit_tree(next, arms, &env1, k, shared);
                plug(frames, s)
            },
        }
    }

    /// An arm that has matched: its body, or a jump to it.
    pub fn run_arm(
        &mut self,
        arm: usize,
        arms: &Vec<Arm>,
        env: &Vec<Name>,
        k: Name,
        shared: &Vec<Option<Shared>>,
    ) -> (r: Statement)
        ensures
            final(self)@ == run_arm(old(self)@, arm, arms@, env@, k, all_shared(shared@)).0,
            r@ == run_arm(old(self)@, arm, arms@, env@, k, all_shared(shared@)).1,
        decreases arms, 0nat, 3nat, Dt::Fail, 0nat,
    {
        if arm >= arms.len() || arm >= shared.len() {
            return Statement::Error("non-exhaustive pattern match");
        }
        assert(decreases_to!(arms => arms@[arm as int]));
        assert(decreases_to!(arms => arms@[arm as int].body));
        match &shared[arm] {
            None => self.expr(&arms[arm].body, env, k),
            Some(sa) => {
                let mut sel: Vec<Name> = after(&both(&sa.fvs, &sa.vars), k);
                if sa.ev {
                    sel.push(self.ev);
                }
                jump_s(sel, Label(sa.label))
            },
        }
    }

    pub fn emit_cases(
        &mut self,
        cases: &Vec<(Sym, Vec<Name>, Dt)>,
        arms: &Vec<Arm>,
        env: &Vec<Name>,
        k: Name,
        shared: &Vec<Option<Shared>>,
    ) -> (r: Vec<(Tag, Block)>)
        ensures
            final(self)@ == emit_cases(
                old(self)@,
                super::tree::cases_view(cases@),
                cases@.len(),
                arms@,
                env@,
                k,
                all_shared(shared@),
            ).0,
            arms_view(r@) == emit_cases(
                old(self)@,
                super::tree::cases_view(cases@),
                cases@.len(),
                arms@,
                env@,
                k,
                all_shared(shared@),
            ).1,
        decreases arms, 0nat, 4nat, cases, 0nat,
    {
        let ghost start_st = self@;
        let ghost vs = super::tree::cases_view(cases@);
        let mut r: Vec<(Tag, Block)> = no_arms();
        let mut i: usize = 0;
        while i < cases.len()
            invariant
                i <= cases@.len(),
                vs == super::tree::cases_view(cases@),
                self@ == emit_cases(start_st, vs, i as nat, arms@, env@, k, all_shared(shared@)).0,
                arms_view(r@) == emit_cases(start_st, vs, i as nat, arms@, env@, k, all_shared(shared@)).1,
            decreases cases@.len() - i,
        {
            assert(decreases_to!(cases => cases@[i as int]));
            assert(decreases_to!(cases => cases@[i as int].2));
            let tag: Tag = self.tag_of(cases[i].0);
            let arm_env: Vec<Name> = both(&cases[i].1, env);
            let body: Statement = self.emit_tree(&cases[i].2, arms, &arm_env, k, shared);
            add_arm(&mut r, tag, arm_env, body);
            i = i + 1;
        }
        r
    }

    pub fn emit_lits(
        &mut self,
        occ: Name,
        lits: &Vec<(Lit, Dt)>,
        arms: &Vec<Arm>,
        env: &Vec<Name>,
        k: Name,
        shared: &Vec<Option<Shared>>,
        rest: Statement,
    ) -> (r: Statement)
        ensures
            final(self)@ == emit_lits(
                old(self)@,
                occ,
                super::tree::lits_view(lits@),
                lits@.len(),
                arms@,
                env@,
                k,
                all_shared(shared@),
                rest@,
            ).0,
            r@ == emit_lits(
                old(self)@,
                occ,
                super::tree::lits_view(lits@),
                lits@.len(),
                arms@,
                env@,
                k,
                all_shared(shared@),
                rest@,
            ).1,
        decreases arms, 0nat, 4nat, lits, 0nat,
    {
        let ghost vs = super::tree::lits_view(lits@);
        let ghost goal = emit_lits(self@, occ, vs, lits@.len(), arms@, env@, k, all_shared(shared@), rest@);
        let mut stmt: Statement = rest;
        let mut i: usize = lits.len();
        while i > 0
            invariant
                i <= lits@.len(),
                vs == super::tree::lits_view(lits@),
                goal == emit_lits(self@, occ, vs, i as nat, arms@, env@, k, all_shared(shared@), stmt@),
            decreases i,
        {
            i = i - 1;
            assert(decreases_to!(lits => lits@[i as int]));
            assert(decreases_to!(lits => lits@[i as int].1));
            let yes: Statement = self.emit_tree(&lits[i].1, arms, env, k, shared);
            stmt = test_s(Extern::BranchPrimK(Prim::Eq, lits[i].0), occ, env, stmt, yes);
        }
        stmt
    }
}

} // verus!
