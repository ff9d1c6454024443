//! Lowering what builds a value or reads one, as the scheme says.


use super::expr::{set_of, set_of2, All, Bound};
use super::frame::{no_frames, plug, Pre};
use super::live::restrict;
use super::scheme::{
    finish, finish_all, lower_array, lower_ctor, lower_perform, lower_proj, lower_record, lower_sel, lower_tuple,
    lower_extend, lower_prim, start, start_all,
};
use super::shape::const_operand;
use super::state::Lower;
use super::tree::Dt;
use super::types::type_of;
use crate::seq::ir::{Extern, Name, Statement, Tag};
use crate::seq::view::{copy_names, ret_s};
use crate::terms::prim::Prim;
use crate::terms::symbol;
use crate::terms::term::{Term, Var};
use crate::terms::ty::Ty;
use std::collections::HashSet;
use vstd::prelude::*;

verus! {

broadcast use vstd::std_specs::hash::group_hash_axioms;

impl Lower {
    pub fn lower_ctor(&mut self, e: &Term, env: &Vec<Name>, k: Name) -> (r: Statement)
        requires
            e is Ctor,
        ensures
            final(self)@ == lower_ctor(old(self)@, *e, env@, k).0,
            r@ == lower_ctor(old(self)@, *e, env@, k).1,
        decreases e, 0nat, 1nat, Dt::Fail, 0nat,
    {
        match e {
            Term::Ctor(c, ty, args) => {
                let tag: Tag = self.tag_of(*c);
                let base: HashSet<Name> = set_of(k);
                let a: All = self.start_all(args, env, &base);
                let b: Pre = self.builds(no_frames(), *c, tag, a.done, &a.env, Some(ty.copy()), None);
                let body: Statement = plug(b.frames, ret_s(k, b.x));
                self.finish_all(args, a.bs, body)
            },
            _ => Statement::Error(""),
        }
    }

    pub fn lower_tuple(&mut self, e: &Term, env: &Vec<Name>, k: Name) -> (r: Statement)
        requires
            e is Tuple,
        ensures
            final(self)@ == lower_tuple(old(self)@, *e, env@, k).0,
            r@ == lower_tuple(old(self)@, *e, env@, k).1,
        decreases e, 0nat, 1nat, Dt::Fail, 0nat,
    {
        match e {
            Term::Tuple(items) => {
                let ty: Option<Ty> = self.type_of(e);
                let tag: Tag = self.tag_of(symbol::TUPLE);
                let base: HashSet<Name> = set_of(k);
                let a: All = self.start_all(items, env, &base);
                let b: Pre = self.builds(no_frames(), symbol::TUPLE, tag, a.done, &a.env, ty, None);
                let body: Statement = plug(b.frames, ret_s(k, b.x));
                self.finish_all(items, a.bs, body)
            },
            _ => Statement::Error(""),
        }
    }

    pub fn lower_array(&mut self, e: &Term, env: &Vec<Name>, k: Name) -> (r: Statement)
        requires
            e is Array,
        ensures
            final(self)@ == lower_array(old(self)@, *e, env@, k).0,
            r@ == lower_array(old(self)@, *e, env@, k).1,
        decreases e, 0nat, 1nat, Dt::Fail, 0nat,
    {
        match e {
            Term::Array(items, _) => {
                let ty: Option<Ty> = self.type_of(e);
                let base: HashSet<Name> = set_of(k);
                let a: All = self.start_all(items, env, &base);
                let p: Pre = self.produces(no_frames(), Extern::Array, a.done, &a.env, ty, None);
                let body: Statement = plug(p.frames, ret_s(k, p.x));
                self.finish_all(items, a.bs, body)
            },
            _ => Statement::Error(""),
        }
    }

    pub fn lower_record(&mut self, e: &Term, env: &Vec<Name>, k: Name) -> (r: Statement)
        requires
            e is Record,
        ensures
            final(self)@ == lower_record(old(self)@, *e, env@, k).0,
            r@ == lower_record(old(self)@, *e, env@, k).1,
        decreases e, 0nat, 1nat, Dt::Fail, 0nat,
    {
        match e {
            Term::Record(labels, xs) => {
                let ty: Option<Ty> = self.type_of(e);
                let base: HashSet<Name> = set_of(k);
                let a: All = self.start_all(xs, env, &base);
                let op: Extern = Extern::Record(copy_names(labels));
                let p: Pre = self.produces(no_frames(), op, a.done, &a.env, ty, None);
                let body: Statement = plug(p.frames, ret_s(k, p.x));
                self.finish_all(xs, a.bs, body)
            },
            _ => Statement::Error(""),
        }
    }

    pub fn lower_sel(&mut self, e: &Term, env: &Vec<Name>, k: Name) -> (r: Statement)
        requires
            e is Sel,
        ensures
            final(self)@ == lower_sel(old(self)@, *e, env@, k).0,
            r@ == lower_sel(old(self)@, *e, env@, k).1,
        decreases e, 0nat, 1nat, Dt::Fail, 0nat,
    {
        match e {
            Term::Sel(rec, label, ty) => {
                assert(decreases_to!(e => rec));
                let keep: Vec<Name> = restrict(env, &set_of(k));
                let b: Bound = self.start(rec, env, keep, None);
                let op: Extern = Extern::Select(*label);
                let p: Pre = self.produces_from(no_frames(), op, b.x, &b.env, Some(ty.copy()), None);
                let body: Statement = plug(p.frames, ret_s(k, p.x));
                self.finish(rec, b, body)
            },
            _ => Statement::Error(""),
        }
    }

    pub fn lower_proj(&mut self, e: &Term, env: &Vec<Name>, k: Name) -> (r: Statement)
        requires
            e is Proj,
        ensures
            final(self)@ == lower_proj(old(self)@, *e, env@, k).0,
            r@ == lower_proj(old(self)@, *e, env@, k).1,
        decreases e, 0nat, 1nat, Dt::Fail, 0nat,
    {
        match e {
            Term::Proj(t, i) => {
                assert(decreases_to!(e => t));
                let ty: Option<Ty> = self.type_of(e);
                let keep: Vec<Name> = restrict(env, &set_of(k));
                let b: Bound = self.start(t, env, keep, None);
                let p: Pre = self.produces_from(no_frames(), Extern::Field(*i), b.x, &b.env, ty, None);
                let body: Statement = plug(p.frames, ret_s(k, p.x));
                self.finish(t, b, body)
            },
            _ => Statement::Error(""),
        }
    }

    pub fn lower_prim(&mut self, e: &Term, env: &Vec<Name>, k: Name) -> (r: Statement)
        requires
            e is Prim,
        ensures
            final(self)@ == lower_prim(old(self)@, *e, env@, k).0,
            r@ == lower_prim(old(self)@, *e, env@, k).1,
        decreases e, 0nat, 1nat, Dt::Fail, 0nat,
    {
        match e {
            Term::Prim(prim, args, ty) => match const_operand(*prim, args) {
                Some((i, l)) => {
                    assert(decreases_to!(e => args));
                    assert(decreases_to!(args => args@[i as int]));
                    assert(decreases_to!(e => args@[i as int]));
                    let keep: Vec<Name> = restrict(env, &set_of(k));
                    let b: Bound = self.start(&args[i], env, keep, None);
                    let p: Pre = self.produces_from(
                        no_frames(),
                        Extern::PrimK(*prim, l),
                        b.x,
                        &b.env,
                        Some(ty.copy()),
                        None,
                    );
                    let body: Statement = plug(p.frames, ret_s(k, p.x));
                    self.finish(&args[i], b, body)
                },
                None => {
                    let base: HashSet<Name> = set_of(k);
                    let a: All = self.start_all(args, env, &base);
                    let p: Pre = self.produces(
                        no_frames(),
                        Extern::Prim(*prim),
                        a.done,
                        &a.env,
                        Some(ty.copy()),
                        None,
                    );
                    let body: Statement = plug(p.frames, ret_s(k, p.x));
                    self.finish_all(args, a.bs, body)
                },
            },
            _ => Statement::Error(""),
        }
    }

    pub fn lower_extend(&mut self, e: &Term, env: &Vec<Name>, k: Name) -> (r: Statement)
        requires
            e is Extend,
        ensures
            final(self)@ == lower_extend(old(self)@, *e, env@, k).0,
            r@ == lower_extend(old(self)@, *e, env@, k).1,
        decreases e, 0nat, 1nat, Dt::Fail, 0nat,
    {
        match e {
            Term::Extend(rec, label, val) => {
                assert(decreases_to!(e => rec));
                assert(decreases_to!(e => val));
                let ty: Option<Ty> = self.type_of(e);
                let none: Vec<Var> = Vec::new();
                let mut want: HashSet<Name> = set_of(k);
                self.want(&mut want, val, &none);
                let keep: Vec<Name> = restrict(env, &want);
                let r: Bound = self.start(rec, env, keep, None);
                let rx: Name = r.x;
                let keep2: Vec<Name> = restrict(&r.env, &set_of2(k, rx));
                let v: Bound = self.start(val, &r.env, keep2, None);
                let p: Pre = self.produces_from2(no_frames(), Extern::Extend(*label), rx, v.x, &v.env, ty, None);
                let body: Statement = plug(p.frames, ret_s(k, p.x));
                let s: Statement = self.finish(val, v, body);
                self.finish(rec, r, s)
            },
            _ => Statement::Error(""),
        }
    }

    pub fn lower_perform(&mut self, e: &Term, env: &Vec<Name>, k: Name) -> (r: Statement)
        requires
            e is Perform,
        ensures
            final(self)@ == lower_perform(old(self)@, *e, env@, k).0,
            r@ == lower_perform(old(self)@, *e, env@, k).1,
        decreases e, 0nat, 1nat, Dt::Fail, 0nat,
    {
        match e {
            Term::Perform(effect, op, arg, ty) => {
                assert(decreases_to!(e => arg));
                let arg_ty: Option<Ty> = self.type_of(arg);
                let ev: Name = self.ev;
                let keep: Vec<Name> = restrict(env, &set_of2(k, ev));
                let b: Bound = self.start(arg, env, keep, None);
                let s: Statement = self.perform(*effect, *op, b.x, k, ev, arg_ty, Some(ty.copy()));
                self.finish(arg, b, s)
            },
            _ => Statement::Error(""),
        }
    }
}

} // verus!
