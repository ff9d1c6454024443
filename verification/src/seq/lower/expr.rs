//! Lowering expressions, as the scheme says.

use super::frame::{frames_view, no_frames, plug, Frame, Pre, Several, SeveralV};
use super::live::{is_in, restrict, restricted, wants, wants_all};
use super::pattern::only;
use super::scan::copy_pairs;
use super::scheme::{
    direct, expr, finish, finish_all, instantiate, lambda, lower_app, lower_array, lower_ctor, lower_lam, lower_lit,
    lower_loc, lower_perform, lower_proj, lower_record, lower_sel, lower_tuple, lower_tyapp, lower_tylam, lower_var,
    lower_extend, lower_if, lower_join, lower_jump, lower_known, lower_let, lower_letrec, lower_prim, seconds,
    simple, start, start_all, started, waiting, answered, begin, ended, ty_closure, with_descs, AllV, BoundV,
};
use super::shape::any_type;
use super::state::{Lower, St};
use super::tree::Dt;
use super::types::{described_args, type_of};
use crate::seq::ir::{extend, Block, Extern, Label, Name, Statement};
use crate::seq::view::{after, before, both, copy_names, invoke_s, jump_s, new_s, ret_s};
use crate::terms::desc;
use crate::terms::prim::{Lit, Prim};
use crate::terms::symbol;
use crate::terms::term::{Term, Var};
use crate::terms::ty::{con, lit_type, of, Ty};
use std::collections::HashSet;
use vstd::prelude::*;

verus! {

broadcast use vstd::std_specs::hash::group_hash_axioms;

/// A term started: in place, or with a continuation for it to answer.
pub struct Bound {
    pub simple: bool,
    pub frames: Vec<Frame>,
    pub kk: Name,
    pub x: Name,
    pub keep: Vec<Name>,
    pub outer: Vec<Name>,
    pub env: Vec<Name>,
}

impl View for Bound {
    type V = BoundV;

    open spec fn view(&self) -> BoundV {
        BoundV {
            simple: self.simple,
            frames: frames_view(self.frames@),
            kk: self.kk,
            x: self.x,
            keep: self.keep@,
            outer: self.outer@,
            env: self.env@,
        }
    }
}

/// Several terms started, left to right.
pub struct All {
    pub bs: Vec<Bound>,
    pub done: Vec<Name>,
    pub env: Vec<Name>,
}

pub open spec fn bounds_view(bs: Seq<Bound>) -> Seq<BoundV> {
    Seq::new(bs.len(), |i: int| bs[i]@)
}

impl All {
    pub open spec fn with(self, st: St) -> AllV {
        AllV { st, bs: bounds_view(self.bs@), done: self.done@, env: self.env@ }
    }
}

pub fn no_bounds() -> (r: Vec<Bound>)
    ensures
        bounds_view(r@) == Seq::<BoundV>::empty(),
        r@.len() == 0,
{
    let r: Vec<Bound> = Vec::new();
    proof {
        assert(bounds_view(r@) =~= Seq::<BoundV>::empty());
    }
    r
}

pub fn add_bound(bs: &mut Vec<Bound>, b: Bound)
    ensures
        bounds_view(final(bs)@) == bounds_view(old(bs)@).push(b@),
        final(bs)@.len() == old(bs)@.len() + 1,
{
    let ghost was = bs@;
    bs.push(b);
    proof {
        assert(bounds_view(bs@) =~= bounds_view(was).push(b@));
    }
}

pub fn set_of(a: Name) -> (r: HashSet<Name>)
    ensures
        r@ == set![a],
{
    let mut r: HashSet<Name> = HashSet::new();
    r.insert(a);
    proof {
        assert(r@ =~= set![a]);
    }
    r
}

pub fn set_of2(a: Name, b: Name) -> (r: HashSet<Name>)
    ensures
        r@ == set![a, b],
{
    let mut r: HashSet<Name> = HashSet::new();
    r.insert(a);
    r.insert(b);
    proof {
        assert(r@ =~= set![a, b]);
    }
    r
}

pub fn set_of3(a: Name, b: Name, c: Name) -> (r: HashSet<Name>)
    ensures
        r@ == set![a, b, c],
{
    let mut r: HashSet<Name> = HashSet::new();
    r.insert(a);
    r.insert(b);
    r.insert(c);
    proof {
        assert(r@ =~= set![a, b, c]);
    }
    r
}

/// The names of `env`, in order, that are in either set.
pub fn restrict_either(env: &Vec<Name>, a: &HashSet<Name>, b: &HashSet<Name>) -> (r: Vec<Name>)
    ensures
        r@ == restricted(env@, a@.union(b@)),
{
    proof {
        reveal(restricted);
    }
    let ghost want = a@.union(b@);
    let mut r: Vec<Name> = Vec::new();
    let mut i: usize = 0;
    while i < env.len()
        invariant
            i <= env@.len(),
            want == a@.union(b@),
            r@ == super::live::first_wanted(env@, want, i as nat),
        decreases env@.len() - i,
    {
        if (a.contains(&env[i]) || b.contains(&env[i])) && !is_in(&r, env[i]) {
            r.push(env[i]);
        }
        i = i + 1;
    }
    r
}

/// The second of each pair.
pub fn second_of(ps: &Vec<(u32, Name)>) -> (r: Vec<Name>)
    ensures
        r@ == seconds(ps@),
{
    let mut r: Vec<Name> = Vec::new();
    let mut i: usize = 0;
    while i < ps.len()
        invariant
            i <= ps@.len(),
            r@ == seconds(ps@).take(i as int),
        decreases ps@.len() - i,
    {
        r.push(ps[i].1);
        i = i + 1;
        proof {
            let all = seconds(ps@);
            assert(all.take(i as int) =~= all.take(i - 1).push(all[i - 1]));
        }
    }
    proof {
        assert(seconds(ps@).take(i as int) =~= seconds(ps@));
    }
    r
}

/// Can `e` produce a value without transferring control?
pub fn is_simple(e: &Term, env: &Vec<Name>) -> (r: bool)
    ensures
        r == simple(*e, env@),
    decreases e, 0nat,
{
    proof {
        reveal(simple);
    }
    match e {
        Term::Loc(_, inner) => is_simple(inner, env),
        Term::Var(v) => is_in(env, *v),
        Term::Lit(_) => true,
        Term::TyLam(_, vs, _) => any_type(vs),
        Term::Lam(_, _, _) => true,
        Term::Prim(_, xs, _) => all_simple(xs, env),
        Term::Ctor(_, _, xs) => all_simple(xs, env),
        Term::Tuple(xs) => all_simple(xs, env),
        Term::Array(xs, _) => all_simple(xs, env),
        Term::Record(_, xs) => all_simple(xs, env),
        Term::Sel(t, _, _) => is_simple(t, env),
        Term::Proj(t, _) => is_simple(t, env),
        Term::Extend(t, _, v) => is_simple(t, env) && is_simple(v, env),
        Term::Let(x, _, rhs, body) => {
            let inner: Vec<Name> = after(env, *x);
            is_simple(rhs, env) && is_simple(body, &inner)
        },
        _ => false,
    }
}

fn all_simple(xs: &Vec<Term>, env: &Vec<Name>) -> (r: bool)
    ensures
        r == (forall|i: int| 0 <= i < xs@.len() ==> simple(#[trigger] xs@[i], env@)),
    decreases xs, 1nat,
{
    proof {
        reveal(simple);
    }
    let mut i: usize = 0;
    while i < xs.len()
        invariant
            i <= xs@.len(),
            forall|j: int| 0 <= j < i ==> simple(#[trigger] xs@[j], env@),
        decreases xs@.len() - i,
    {
        assert(decreases_to!(xs => xs@[i as int]));
        if !is_simple(&xs[i], env) {
            return false;
        }
        i = i + 1;
    }
    true
}

impl Lower {
    pub fn with_descs(&mut self, tys: &Vec<Ty>, env: &Vec<Name>) -> (r: Several)
        ensures
            r.with(final(self)@) == with_descs(old(self)@, tys@, tys@.len(), env@),
    {
        proof {
            reveal(with_descs);
        }
        let ghost start_st = self@;
        let mut frames: Vec<Frame> = no_frames();
        let mut done: Vec<Name> = Vec::new();
        let mut cur: Vec<Name> = copy_names(env);
        let mut i: usize = 0;
        while i < tys.len()
            invariant
                i <= tys@.len(),
                (SeveralV { st: self@, frames: frames_view(frames@), done: done@, env: cur@ }) == with_descs(
                    start_st,
                    tys@,
                    i as nat,
                    env@,
                ),
            decreases tys@.len() - i,
        {
            proof {
                reveal(with_descs);
            }
            let known: Result<Name, u8> = match of(&tys[i]) {
                Some(d) => Err(d),
                None => match &tys[i] {
                    Ty::Var(v) => match self.desc_name(*v) {
                        Some(x) => Ok(x),
                        None => Err(desc::ANY),
                    },
                    _ => Err(desc::ANY),
                },
            };
            match known {
                Ok(x) => {
                    done.push(x);
                },
                Err(d) => {
                    let p: Pre = self.produces(
                        frames,
                        Extern::Lit(Lit::Int(d as i64)),
                        Vec::new(),
                        &cur,
                        Some(con(symbol::INT)),
                        None,
                    );
                    frames = p.frames;
                    cur = p.env;
                    done.push(p.x);
                },
            }
            i = i + 1;
        }
        Several { frames, done, env: cur }
    }

    /// `v`, a binding that is a type abstraction, instantiated with the descriptors
    /// `ds`, answering `k`.
    pub fn instantiate(&mut self, v: Var, ds: &Vec<Name>, env: &Vec<Name>, k: Name) -> (r: Statement)
        ensures
            final(self)@ == instantiate(old(self)@, v, ds@, env@, k).0,
            r@ == instantiate(old(self)@, v, ds@, env@, k).1,
    {
        proof {
            reveal(instantiate);
        }
        if is_in(env, v) {
            let sel: Vec<Name> = after(&before(v, ds), k);
            return invoke_s(sel, v);
        }
        let found: Option<(u32, Vec<Name>)> = match self.globals.get(v) {
            Some(g) => Some((g.0, both(&g.1, ds))),
            None => None,
        };
        match found {
            Some((label, sel)) => {
                let mut sel: Vec<Name> = sel;
                sel.push(k);
                if self.letrecs.contains(&v) {
                    sel.push(self.ev);
                }
                jump_s(sel, Label(label))
            },
            None => {
                self.unbound = true;
                Statement::Error("unbound variable")
            },
        }
    }

    pub fn desc_names(&self, id: u32) -> (r: Vec<(u32, Name)>)
        ensures
            r@ == self@.desc_names(id),
    {
        match self.tylams.get(id) {
            Some(names) => copy_pairs(names),
            None => Vec::new(),
        }
    }

    pub fn lower_var(&mut self, v: Var, env: &Vec<Name>, k: Name) -> (r: Statement)
        ensures
            final(self)@ == lower_var(old(self)@, v, env@, k).0,
            r@ == lower_var(old(self)@, v, env@, k).1,
    {
        if is_in(env, v) {
            return ret_s(k, v);
        }
        let found: Option<(u32, Vec<Name>)> = match self.globals.get(v) {
            Some(g) => Some((g.0, after(&g.1, k))),
            None => None,
        };
        match found {
            Some((label, sel)) => {
                let mut sel: Vec<Name> = sel;
                if self.letrecs.contains(&v) {
                    sel.push(self.ev);
                }
                jump_s(sel, Label(label))
            },
            None => {
                self.unbound = true;
                Statement::Error("unbound variable")
            },
        }
    }

    pub fn lower_lit(&mut self, l: &Lit, env: &Vec<Name>, k: Name) -> (r: Statement)
        ensures
            final(self)@ == lower_lit(old(self)@, *l, env@, k).0,
            r@ == lower_lit(old(self)@, *l, env@, k).1,
    {
        let p: Pre = self.produces(no_frames(), Extern::Lit(*l), Vec::new(), env, Some(lit_type(l)), None);
        plug(p.frames, ret_s(k, p.x))
    }

    /// `⟦e⟧ k` in environment `env`: run `e`, answer `k`. `env` is the exact
    /// environment the machine will have, in order.
    #[verifier::rlimit(40)]
    pub fn expr(&mut self, e: &Term, env: &Vec<Name>, k: Name) -> (r: Statement)
        ensures
            final(self)@ == expr(old(self)@, *e, env@, k).0,
            r@ == expr(old(self)@, *e, env@, k).1,
        decreases e, 0nat, 2nat, Dt::Fail, 0nat,
    {
        self.continuations.push(k);
        proof {
            assert(self@ == old(self)@.answering(k));
        }
        match e {
            Term::Loc(_, _) => self.lower_loc(e, env, k),
            Term::TyLam(_, _, _) => self.lower_tylam(e, env, k),
            Term::TyApp(_, _) => self.lower_tyapp(e, env, k),
            Term::Var(v) => self.lower_var(*v, env, k),
            Term::Lit(l) => self.lower_lit(l, env, k),
            Term::Lam(_, _, _) => self.lower_lam(e, env, k),
            Term::App(_, _) => match self.direct_worker(e) {
                Some(f) => self.lower_known(e, f, env, k),
                None => self.lower_app(e, env, k),
            },
            Term::Let(_, _, _, _) => self.lower_let(e, env, k),
            Term::Join { .. } => self.lower_join(e, env, k),
            Term::Jump(_, _, _) => self.lower_jump(e, env, k),
            Term::LetRec(_, _) => self.lower_letrec(e, env, k),
            Term::If(_, _, _) => self.lower_if(e, env, k),
            Term::Prim(_, _, _) => self.lower_prim(e, env, k),
            Term::Ctor(_, _, _) => self.lower_ctor(e, env, k),
            Term::Tuple(_) => self.lower_tuple(e, env, k),
            Term::Array(_, _) => self.lower_array(e, env, k),
            Term::Record(_, _) => self.lower_record(e, env, k),
            Term::Sel(_, _, _) => self.lower_sel(e, env, k),
            Term::Proj(_, _) => self.lower_proj(e, env, k),
            Term::Extend(_, _, _) => self.lower_extend(e, env, k),
            Term::Case(_, _, _) => self.lower_case(e, env, k),
            Term::Perform(_, _, _, _) => self.lower_perform(e, env, k),
            Term::Handle { .. } => self.lower_handle(e, env, k),
            Term::Error => Statement::Error("ill-formed term"),
        }
    }

    pub fn lower_loc(&mut self, e: &Term, env: &Vec<Name>, k: Name) -> (r: Statement)
        requires
            e is Loc,
        ensures
            final(self)@ == lower_loc(old(self)@, *e, env@, k).0,
            r@ == lower_loc(old(self)@, *e, env@, k).1,
        decreases e, 0nat, 1nat, Dt::Fail, 0nat,
    {
        match e {
            Term::Loc(loc, inner) => {
                let s: Statement = self.expr(inner, env, k);
                Statement::Mark(*loc, Box::new(s))
            },
            _ => Statement::Error(""),
        }
    }

    pub fn lower_tylam(&mut self, e: &Term, env: &Vec<Name>, k: Name) -> (r: Statement)
        requires
            e is TyLam,
        ensures
            final(self)@ == lower_tylam(old(self)@, *e, env@, k).0,
            r@ == lower_tylam(old(self)@, *e, env@, k).1,
        decreases e, 0nat, 1nat, Dt::Fail, 0nat,
    {
        match e {
            Term::TyLam(id, vs, inner) => if any_type(vs) {
                let (captures, method) = self.ty_closure(*id, inner, env);
                let f: Name = self.fresh_ref();
                new_s(f, captures, method, ret_s(k, f))
            } else {
                self.expr(inner, env, k)
            },
            _ => Statement::Error(""),
        }
    }

    pub fn lower_tyapp(&mut self, e: &Term, env: &Vec<Name>, k: Name) -> (r: Statement)
        requires
            e is TyApp,
        ensures
            final(self)@ == lower_tyapp(old(self)@, *e, env@, k).0,
            r@ == lower_tyapp(old(self)@, *e, env@, k).1,
        decreases e, 0nat, 1nat, Dt::Fail, 0nat,
    {
        match e {
            Term::TyApp(inner, tys) => match inner.peel() {
                Term::Var(v) => {
                    let args: Option<Vec<Ty>> = self.described_args(*v, Some(tys));
                    match args {
                        Some(args) => {
                            let d: Several = self.with_descs(&args, env);
                            let s: Statement = self.instantiate(*v, &d.done, &d.env, k);
                            plug(d.frames, s)
                        },
                        None => self.expr(inner, env, k),
                    }
                },
                _ => self.expr(inner, env, k),
            },
            _ => Statement::Error(""),
        }
    }

    pub fn lower_lam(&mut self, e: &Term, env: &Vec<Name>, k: Name) -> (r: Statement)
        requires
            e is Lam,
        ensures
            final(self)@ == lower_lam(old(self)@, *e, env@, k).0,
            r@ == lower_lam(old(self)@, *e, env@, k).1,
        decreases e, 0nat, 1nat, Dt::Fail, 0nat,
    {
        match e {
            Term::Lam(param, _, body) => {
                let (captures, method) = self.lambda(*param, body, env);
                let f: Name = self.fresh_ref();
                new_s(f, captures, method, ret_s(k, f))
            },
            _ => Statement::Error(""),
        }
    }

    /// Lower a lambda's body: the evidence is the caller's, not the one around the
    /// lambda.
    pub fn lambda(&mut self, param: Var, body: &Term, env: &Vec<Name>) -> (r: (Vec<Name>, Block))
        ensures
            final(self)@ == lambda(old(self)@, param, *body, env@).0,
            r.0@ == lambda(old(self)@, param, *body, env@).1,
            r.1@ == lambda(old(self)@, param, *body, env@).2,
        decreases body, 0nat, 3nat, Dt::Fail, 0nat,
    {
        let bound: Vec<Var> = only(param);
        let mut want: HashSet<Name> = self.wants(body, &bound);
        want.remove(&self.ev);
        let captures: Vec<Name> = restrict(env, &want);
        let outer: Name = self.ev;
        let ik: Name = self.function_return();
        let iev: Name = self.fresh_ref();
        let params: Vec<Name> = after(&after(&after(&captures, param), ik), iev);
        self.ev = iev;
        let inner: Statement = self.expr(body, &params, ik);
        self.ev = outer;
        (captures, Block { params, body: inner })
    }

    /// A type abstraction as an object: one method, taking the descriptors and a
    /// continuation, which evaluates `body` under them.
    pub fn ty_closure(&mut self, id: u32, body: &Term, env: &Vec<Name>) -> (r: (Vec<Name>, Block))
        ensures
            final(self)@ == ty_closure(old(self)@, id, *body, env@).0,
            r.0@ == ty_closure(old(self)@, id, *body, env@).1,
            r.1@ == ty_closure(old(self)@, id, *body, env@).2,
        decreases body, 0nat, 3nat, Dt::Fail, 0nat,
    {
        let none: Vec<Var> = Vec::new();
        let captures: Vec<Name> = restrict(env, &self.wants(body, &none));
        let depth: usize = self.tscope.len();
        let kk: Name = self.function_return();
        let names: Vec<(u32, Name)> = self.desc_names(id);
        let params: Vec<Name> = after(&both(&captures, &second_of(&names)), kk);
        self.more_scope(&names);
        let inner: Statement = self.expr(body, &params, kk);
        self.cut_scope(depth);
        (captures, Block { params, body: inner })
    }

    /// Start `e`, whose value is wanted under a name: anything that cannot transfer
    /// control is lowered where it stands.
    pub fn start(&mut self, e: &Term, env: &Vec<Name>, keep: Vec<Name>, name: Option<Name>) -> (r: Bound)
        ensures
            final(self)@ == start(old(self)@, *e, env@, keep@, name).0,
            r@ == start(old(self)@, *e, env@, keep@, name).1,
        decreases e, 0nat, 2nat, Dt::Fail, 0nat,
    {
        proof {
            reveal(begin);
            reveal(started);
            reveal(waiting);
        }
        if is_simple(e, env) {
            let p: Pre = self.direct(e, env, name);
            return Bound {
                simple: true,
                frames: p.frames,
                kk: 0,
                x: p.x,
                keep,
                outer: copy_names(env),
                env: p.env,
            };
        }
        let kk: Name = self.fresh_ref();
        self.frames.insert(kk);
        let x: Name = match name {
            Some(n) => n,
            None => {
                let ty: Option<Ty> = self.type_of(e);
                self.fresh_typed(ty)
            },
        };
        let inner: Vec<Name> = after(&keep, x);
        Bound { simple: false, frames: no_frames(), kk, x, keep, outer: copy_names(env), env: inner }
    }

    /// Finish a started term around what follows it.
    pub fn finish(&mut self, e: &Term, b: Bound, body: Statement) -> (r: Statement)
        ensures
            final(self)@ == finish(old(self)@, *e, b@, body@).0,
            r@ == finish(old(self)@, *e, b@, body@).1,
        decreases e, 0nat, 3nat, Dt::Fail, 0nat,
    {
        proof {
            reveal(ended);
            reveal(answered);
        }
        if b.simple {
            return plug(b.frames, body);
        }
        let outer: Vec<Name> = before(b.kk, &b.outer);
        let rest: Statement = self.expr(e, &outer, b.kk);
        new_s(b.kk, b.keep, Block { params: b.env, body }, rest)
    }

    /// Add what the terms from `from` on need.
    pub fn want_rest(&self, out: &mut HashSet<Name>, es: &Vec<Term>, from: usize)
        requires
            from <= es@.len(),
        ensures
            final(out)@ == old(out)@.union(wants_all(self@, es@.skip(from as int), Seq::empty())),
    {
        let ghost was = out@;
        let ghost gs = es@.skip(from as int);
        let none: Vec<Var> = Vec::new();
        let mut i: usize = from;
        proof {
            assert(out@ =~= was.union(wants_all(self@, gs.take(0), Seq::empty())));
        }
        while i < es.len()
            invariant
                from <= i <= es@.len(),
                gs == es@.skip(from as int),
                none@ == Seq::<Var>::empty(),
                out@ == was.union(wants_all(self@, gs.take(i - from), Seq::empty())),
            decreases es@.len() - i,
        {
            self.want(out, &es[i], &none);
            i = i + 1;
            proof {
                lemma_wants_more(self@, gs, i - from);
                assert(out@ =~= was.union(wants_all(self@, gs.take(i - from), Seq::empty())));
            }
        }
        proof {
            assert(gs.take(i - from) =~= gs);
        }
    }

    /// What must survive a term: `base`, the values already computed, and what the
    /// terms from `from` on need.
    pub fn keep_across(
        &self,
        es: &Vec<Term>,
        from: usize,
        done: &Vec<Name>,
        env: &Vec<Name>,
        base: &HashSet<Name>,
    ) -> (r: Vec<Name>)
        requires
            from <= es@.len(),
        ensures
            r@ == restricted(
                env@,
                base@.union(done@.to_set()).union(wants_all(self@, es@.skip(from as int), Seq::empty())),
            ),
    {
        let mut more: HashSet<Name> = HashSet::new();
        extend(&mut more, done);
        self.want_rest(&mut more, es, from);
        proof {
            assert(base@.union(more@) =~= base@.union(done@.to_set()).union(
                wants_all(self@, es@.skip(from as int), Seq::empty()),
            ));
        }
        restrict_either(env, base, &more)
    }

    /// Start several terms, left to right.
    pub fn start_all(&mut self, es: &Vec<Term>, env: &Vec<Name>, base: &HashSet<Name>) -> (r: All)
        ensures
            r.with(final(self)@) == start_all(old(self)@, es@, es@.len(), env@, base@),
            r.bs@.len() == es@.len(),
        decreases es, es@.len(), 0nat, Dt::Fail, 0nat,
    {
        let ghost start_st = self@;
        let mut bs: Vec<Bound> = no_bounds();
        let mut done: Vec<Name> = Vec::new();
        let mut cur: Vec<Name> = copy_names(env);
        let mut i: usize = 0;
        while i < es.len()
            invariant
                i <= es@.len(),
                bs@.len() == i,
                (AllV { st: self@, bs: bounds_view(bs@), done: done@, env: cur@ }) == start_all(
                    start_st,
                    es@,
                    i as nat,
                    env@,
                    base@,
                ),
            decreases es@.len() - i,
        {
            assert(decreases_to!(es => es@[i as int]));
            let keep: Vec<Name> = self.keep_across(es, i + 1, &done, &cur, base);
            let b: Bound = self.start(&es[i], &cur, keep, None);
            done.push(b.x);
            cur = copy_names(&b.env);
            add_bound(&mut bs, b);
            i = i + 1;
        }
        All { bs, done, env: cur }
    }

    /// Finish several started terms, last first.
    pub fn finish_all(&mut self, es: &Vec<Term>, bs: Vec<Bound>, body: Statement) -> (r: Statement)
        requires
            bs@.len() == es@.len(),
        ensures
            final(self)@ == finish_all(old(self)@, es@, es@.len(), bounds_view(bs@), body@).0,
            r@ == finish_all(old(self)@, es@, es@.len(), bounds_view(bs@), body@).1,
        decreases es, es@.len(), 1nat, Dt::Fail, 0nat,
    {
        let ghost all = bounds_view(bs@);
        let ghost goal = finish_all(self@, es@, es@.len(), all, body@);
        let mut bs: Vec<Bound> = bs;
        let mut stmt: Statement = body;
        let mut i: usize = es.len();
        while i > 0
            invariant
                i <= es@.len(),
                all.len() == es@.len(),
                bs@.len() == i,
                bounds_view(bs@) == all.take(i as int),
                goal == finish_all(self@, es@, i as nat, all, stmt@),
            decreases i,
        {
            let ghost was = bs@;
            let b: Bound = bs.pop().unwrap();
            i = i - 1;
            assert(decreases_to!(es => es@[i as int]));
            proof {
                assert(b@ == bounds_view(was)[i as int]);
                assert(all.take(i + 1)[i as int] == all[i as int]);
                assert(bounds_view(bs@) =~= all.take(i as int));
            }
            stmt = self.finish(&es[i], b, stmt);
        }
        stmt
    }

}

/// What `n` terms need is what all but the last do and what the last does.
pub proof fn lemma_wants_more(st: St, ts: Seq<Term>, n: int)
    requires
        0 < n <= ts.len(),
    ensures
        wants_all(st, ts.take(n), Seq::empty()) == wants_all(st, ts.take(n - 1), Seq::empty()).union(
            wants(st, ts[n - 1], Seq::empty()),
        ),
{
    let a = wants_all(st, ts.take(n), Seq::empty());
    let b = wants_all(st, ts.take(n - 1), Seq::empty()).union(wants(st, ts[n - 1], Seq::empty()));
    assert forall|x: Name| a.contains(x) <==> b.contains(x) by {
        if a.contains(x) {
            let i = choose|i: int|
                0 <= i < ts.take(n).len() && wants(st, #[trigger] ts.take(n)[i], Seq::empty()).contains(x);
            if i < n - 1 {
                assert(ts.take(n - 1)[i] == ts.take(n)[i]);
            }
        }
        if b.contains(x) {
            if wants(st, ts[n - 1], Seq::empty()).contains(x) {
                assert(ts.take(n)[n - 1] == ts[n - 1]);
            } else {
                let i = choose|i: int|
                    0 <= i < ts.take(n - 1).len() && wants(st, #[trigger] ts.take(n - 1)[i], Seq::empty()).contains(
                        x,
                    );
                assert(ts.take(n)[i] == ts.take(n - 1)[i]);
            }
        }
    }
    assert(a =~= b);
}

} // verus!
