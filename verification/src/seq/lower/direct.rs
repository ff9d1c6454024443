//! Lowering what cannot transfer control, where it stands, as the scheme says.


use super::frame::{frames_view, join, no_frames, rename, Frame, Pre, Several, SeveralV};
use super::pattern::only_frame;
use super::scheme::{
    direct, direct_all, direct_data, direct_extend, direct_let, direct_list, direct_loc, direct_object, direct_prim,
    direct_read, lambda, nothing, ty_closure,
};
use super::shape::{any_type, const_operand};
use super::state::{Lower, St};
use super::tree::Dt;
use super::types::type_of;
use crate::seq::ir::{Extern, Name, Tag};
use crate::seq::view::{after, copy_names};
use crate::terms::prim::{Lit, Prim};
use crate::terms::symbol;
use crate::terms::term::{Term, Var};
use crate::terms::ty::Ty;
use vstd::prelude::*;

verus! {

broadcast use vstd::std_specs::hash::group_hash_axioms;

impl Lower {
    /// Lower a term that cannot transfer control, where it stands.
    #[verifier::rlimit(40)]
    pub fn direct(&mut self, e: &Term, env: &Vec<Name>, name: Option<Name>) -> (r: Pre)
        ensures
            r.with(final(self)@) == direct(old(self)@, *e, env@, name),
        decreases e, 0nat, 1nat, Dt::Fail, 0nat,
    {
        match e {
            Term::TyLam(_, _, _) => self.direct_object(e, env, name),
            Term::Lam(_, _, _) => self.direct_object(e, env, name),
            Term::TyApp(inner, _) => self.direct(inner, env, name),
            Term::Loc(_, _) => self.direct_loc(e, env, name),
            Term::Var(v) => match name {
                None => Pre { frames: no_frames(), x: *v, env: copy_names(env) },
                Some(x) => Pre { frames: only_frame(rename(*v, x, env)), x, env: after(env, x) },
            },
            Term::Lit(l) => {
                let ty: Option<Ty> = self.type_of(e);
                self.produces(no_frames(), Extern::Lit(*l), Vec::new(), env, ty, name)
            },
            Term::Prim(_, _, _) => self.direct_prim(e, env, name),
            Term::Ctor(_, _, _) => self.direct_data(e, env, name),
            Term::Tuple(_) => self.direct_data(e, env, name),
            Term::Array(_, _) => self.direct_list(e, env, name),
            Term::Record(_, _) => self.direct_list(e, env, name),
            Term::Sel(_, _, _) => self.direct_read(e, env, name),
            Term::Proj(_, _) => self.direct_read(e, env, name),
            Term::Extend(_, _, _) => self.direct_extend(e, env, name),
            Term::Let(_, _, _, _) => self.direct_let(e, env, name),
            _ => nowhere(env),
        }
    }

    pub fn direct_loc(&mut self, e: &Term, env: &Vec<Name>, name: Option<Name>) -> (r: Pre)
        ensures
            r.with(final(self)@) == direct_loc(old(self)@, *e, env@, name),
        decreases e, 0nat, 0nat, Dt::Fail, 0nat,
    {
        match e {
            Term::Loc(loc, inner) => {
                let p: Pre = self.direct(inner, env, name);
                Pre { frames: join(only_frame(Frame::Mark(*loc)), p.frames), x: p.x, env: p.env }
            },
            _ => nowhere(env),
        }
    }

    pub fn direct_object(&mut self, e: &Term, env: &Vec<Name>, name: Option<Name>) -> (r: Pre)
        ensures
            r.with(final(self)@) == direct_object(old(self)@, *e, env@, name),
        decreases e, 0nat, 0nat, Dt::Fail, 0nat,
    {
        match e {
            Term::TyLam(id, vs, inner) => if any_type(vs) {
                let (captures, method) = self.ty_closure(*id, inner, env);
                self.makes(captures, method, env, name)
            } else {
                self.direct(inner, env, name)
            },
            Term::Lam(param, _, body) => {
                let (captures, method) = self.lambda(*param, body, env);
                self.makes(captures, method, env, name)
            },
            _ => nowhere(env),
        }
    }

    pub fn direct_prim(&mut self, e: &Term, env: &Vec<Name>, name: Option<Name>) -> (r: Pre)
        ensures
            r.with(final(self)@) == direct_prim(old(self)@, *e, env@, name),
        decreases e, 0nat, 0nat, Dt::Fail, 0nat,
    {
        match e {
            Term::Prim(p, args, _) => {
                let ty: Option<Ty> = self.type_of(e);
                match const_operand(*p, args) {
                    Some((i, l)) => {
                        assert(decreases_to!(args => args@[i as int]));
                        let d: Pre = self.direct(&args[i], env, None);
                        self.produces_from(d.frames, Extern::PrimK(*p, l), d.x, &d.env, ty, name)
                    },
                    None => {
                        let d: Several = self.direct_all(args, env);
                        self.produces(d.frames, Extern::Prim(*p), d.done, &d.env, ty, name)
                    },
                }
            },
            _ => nowhere(env),
        }
    }

    pub fn direct_data(&mut self, e: &Term, env: &Vec<Name>, name: Option<Name>) -> (r: Pre)
        ensures
            r.with(final(self)@) == direct_data(old(self)@, *e, env@, name),
        decreases e, 0nat, 0nat, Dt::Fail, 0nat,
    {
        match e {
            Term::Ctor(c, _, args) => {
                let ty: Option<Ty> = self.type_of(e);
                let tag: Tag = self.tag_of(*c);
                let d: Several = self.direct_all(args, env);
                self.builds(d.frames, *c, tag, d.done, &d.env, ty, name)
            },
            Term::Tuple(items) => {
                let ty: Option<Ty> = self.type_of(e);
                let tag: Tag = self.tag_of(symbol::TUPLE);
                let d: Several = self.direct_all(items, env);
                self.builds(d.frames, symbol::TUPLE, tag, d.done, &d.env, ty, name)
            },
            _ => nowhere(env),
        }
    }

    pub fn direct_list(&mut self, e: &Term, env: &Vec<Name>, name: Option<Name>) -> (r: Pre)
        ensures
            r.with(final(self)@) == direct_list(old(self)@, *e, env@, name),
        decreases e, 0nat, 0nat, Dt::Fail, 0nat,
    {
        match e {
            Term::Array(items, _) => {
                let ty: Option<Ty> = self.type_of(e);
                let d: Several = self.direct_all(items, env);
                self.produces(d.frames, Extern::Array, d.done, &d.env, ty, name)
            },
            Term::Record(labels, xs) => {
                let ty: Option<Ty> = self.type_of(e);
                let d: Several = self.direct_all(xs, env);
                self.produces(d.frames, Extern::Record(copy_names(labels)), d.done, &d.env, ty, name)
            },
            _ => nowhere(env),
        }
    }

    pub fn direct_read(&mut self, e: &Term, env: &Vec<Name>, name: Option<Name>) -> (r: Pre)
        ensures
            r.with(final(self)@) == direct_read(old(self)@, *e, env@, name),
        decreases e, 0nat, 0nat, Dt::Fail, 0nat,
    {
        match e {
            Term::Sel(rec, label, _) => {
                let ty: Option<Ty> = self.type_of(e);
                let d: Pre = self.direct(rec, env, None);
                self.produces_from(d.frames, Extern::Select(*label), d.x, &d.env, ty, name)
            },
            Term::Proj(t, i) => {
                let ty: Option<Ty> = self.type_of(e);
                let d: Pre = self.direct(t, env, None);
                self.produces_from(d.frames, Extern::Field(*i), d.x, &d.env, ty, name)
            },
            _ => nowhere(env),
        }
    }

    pub fn direct_extend(&mut self, e: &Term, env: &Vec<Name>, name: Option<Name>) -> (r: Pre)
        ensures
            r.with(final(self)@) == direct_extend(old(self)@, *e, env@, name),
        decreases e, 0nat, 0nat, Dt::Fail, 0nat,
    {
        match e {
            Term::Extend(rec, label, val) => {
                let ty: Option<Ty> = self.type_of(e);
                let r: Pre = self.direct(rec, env, None);
                let v: Pre = self.direct(val, &r.env, None);
                let frames: Vec<Frame> = join(r.frames, v.frames);
                self.produces_from2(frames, Extern::Extend(*label), r.x, v.x, &v.env, ty, name)
            },
            _ => nowhere(env),
        }
    }

    pub fn direct_let(&mut self, e: &Term, env: &Vec<Name>, name: Option<Name>) -> (r: Pre)
        ensures
            r.with(final(self)@) == direct_let(old(self)@, *e, env@, name),
        decreases e, 0nat, 0nat, Dt::Fail, 0nat,
    {
        match e {
            Term::Let(x, _, rhs, body) => {
                let r: Pre = self.direct(rhs, env, Some(*x));
                let b: Pre = self.direct(body, &r.env, name);
                Pre { frames: join(r.frames, b.frames), x: b.x, env: b.env }
            },
            _ => nowhere(env),
        }
    }

    /// Several simple terms, left to right.
    pub fn direct_all(&mut self, es: &Vec<Term>, env: &Vec<Name>) -> (r: Several)
        ensures
            r.with(final(self)@) == direct_all(old(self)@, es@, es@.len(), env@),
        decreases es, es@.len(), 0nat, Dt::Fail, 0nat,
    {
        let ghost start_st = self@;
        let mut frames: Vec<Frame> = no_frames();
        let mut done: Vec<Name> = Vec::new();
        let mut cur: Vec<Name> = copy_names(env);
        let mut i: usize = 0;
        while i < es.len()
            invariant
                i <= es@.len(),
                (SeveralV { st: self@, frames: frames_view(frames@), done: done@, env: cur@ }) == direct_all(
                    start_st,
                    es@,
                    i as nat,
                    env@,
                ),
            decreases es@.len() - i,
        {
            assert(decreases_to!(es => es@[i as int]));
            let p: Pre = self.direct(&es[i], &cur, None);
            frames = join(frames, p.frames);
            done.push(p.x);
            cur = p.env;
            i = i + 1;
        }
        Several { frames, done, env: cur }
    }
}

/// Nothing done.
fn nowhere(env: &Vec<Name>) -> (r: Pre)
    ensures
        forall|st: St| #[trigger] r.with(st) == nothing(st, env@),
{
    Pre { frames: no_frames(), x: 0, env: copy_names(env) }
}

} // verus!
