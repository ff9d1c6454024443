//! Lowering calls, bindings and branches, as the scheme says.


use super::expr::{
    add_bound, bounds_view, is_simple, lemma_wants_more, no_bounds, restrict_either, second_of, set_of, set_of2,
    set_of3, All, Bound,
};
use super::frame::{join, no_frames, plug, Pre, Several};
use super::live::{bound_by, join_params, letrec_vars, restrict, restricted, wants, wants_all};
use super::pattern::only;
use super::scheme::{
    direct, direct_all, expr, finish, finish_all, finish_args, group_wants, lower_app, lower_binds, lower_branch,
    lower_if, lower_join, lower_jump, lower_known, lower_let, lower_letrec, lower_under, register, start, start_all,
    start_args, take_labels, with_descs,
};
use super::shape::{call_tys, const_operand, these, ty_abs};
use super::state::Lower;
use super::tree::Dt;
use super::types::described_args;
use crate::seq::ir::{extend, Block, Extern, Label, Name, Statement};
use crate::seq::view::{after, both, copy_names, invoke_s, jump_s, test_s, two_s};
use crate::terms::prim::Prim;
use crate::terms::symbol;
use crate::terms::term::{Term, Var};
use crate::terms::ty::{Poly, Ty};
use std::collections::HashSet;
use vstd::prelude::*;

verus! {

broadcast use vstd::std_specs::hash::group_hash_axioms;

impl Lower {
    /// A saturated call to a known function: the arguments go where its block wants
    /// them and control leaves.
    pub fn lower_known(&mut self, e: &Term, f: Var, env: &Vec<Name>, k: Name) -> (r: Statement)
        requires
            old(self)@.workers.contains_key(f),
        ensures
            final(self)@ == lower_known(old(self)@, *e, f, env@, k).0,
            r@ == lower_known(old(self)@, *e, f, env@, k).1,
        decreases e, 0nat, 1nat, Dt::Fail, 0nat,
    {
        let takes: bool = self.worker_ev.contains(&f);
        let ev: Name = self.ev;
        let worker: u32 = match self.workers.get(f) {
            Some(w) => w.0,
            None => 0,
        };
        let base: HashSet<Name> = if takes {
            set_of2(k, ev)
        } else {
            set_of(k)
        };
        let tys: Option<Vec<Ty>> = self.described_args(f, call_tys(e));
        let none: Vec<&Term> = Vec::new();
        let a: All = self.start_args(e, env, &base, &none, Ghost(Seq::empty()));
        let d: Several = match tys {
            Some(tys) => self.with_descs(&tys, &a.env),
            None => Several { frames: no_frames(), done: Vec::new(), env: copy_names(&a.env) },
        };
        let mut sel: Vec<Name> = both(&d.done, &a.done);
        sel.push(k);
        if takes {
            sel.push(ev);
        }
        let s: Statement = plug(d.frames, jump_s(sel, Label(worker)));
        self.finish_args(e, a.bs, s)
    }

    /// Calling is arranging `[f, arg, k, ev]` and invoking.
    pub fn lower_app(&mut self, e: &Term, env: &Vec<Name>, k: Name) -> (r: Statement)
        requires
            e is App,
        ensures
            final(self)@ == lower_app(old(self)@, *e, env@, k).0,
            r@ == lower_app(old(self)@, *e, env@, k).1,
        decreases e, 0nat, 1nat, Dt::Fail, 0nat,
    {
        match e {
            Term::App(fun, arg) => {
                assert(decreases_to!(e => fun));
                assert(decreases_to!(e => arg));
                let ev: Name = self.ev;
                let none: Vec<Var> = Vec::new();
                let mut want: HashSet<Name> = self.wants(arg, &none);
                want.insert(k);
                want.insert(ev);
                proof {
                    assert(want@ =~= wants(self@, **arg, Seq::empty()).union(set![k, ev]));
                }
                let keep: Vec<Name> = restrict(env, &want);
                let f: Bound = self.start(fun, env, keep, None);
                let fx: Name = f.x;
                let keep2: Vec<Name> = restrict(&f.env, &set_of3(k, fx, ev));
                let a: Bound = self.start(arg, &f.env, keep2, None);
                let sel: Vec<Name> = vec![fx, a.x, k, ev];
                proof {
                    assert(sel@ =~= seq![fx, a.x, k, ev]);
                }
                let s: Statement = self.finish(arg, a, invoke_s(sel, fx));
                self.finish(fun, f, s)
            },
            _ => Statement::Error(""),
        }
    }

    pub fn lower_let(&mut self, e: &Term, env: &Vec<Name>, k: Name) -> (r: Statement)
        requires
            e is Let,
        ensures
            final(self)@ == lower_let(old(self)@, *e, env@, k).0,
            r@ == lower_let(old(self)@, *e, env@, k).1,
        decreases e, 0nat, 1nat, Dt::Fail, 0nat,
    {
        match e {
            Term::Let(x, _, rhs, body) => {
                assert(decreases_to!(e => rhs));
                assert(decreases_to!(e => body));
                let mut want: HashSet<Name> = self.wants(body, &only(*x));
                super::live::also(&mut want, k);
                let keep: Vec<Name> = restrict(env, &want);
                let b: Bound = self.start(rhs, env, keep, Some(*x));
                let s: Statement = self.expr(body, &b.env, k);
                self.finish(rhs, b, s)
            },
            _ => Statement::Error(""),
        }
    }

    /// A join point is a block and nothing else.
    pub fn lower_join(&mut self, e: &Term, env: &Vec<Name>, k: Name) -> (r: Statement)
        requires
            e is Join,
        ensures
            final(self)@ == lower_join(old(self)@, *e, env@, k).0,
            r@ == lower_join(old(self)@, *e, env@, k).1,
        decreases e, 0nat, 1nat, Dt::Fail, 0nat,
    {
        match e {
            Term::Join { var, params, rhs, body, .. } => {
                assert(decreases_to!(e => rhs));
                assert(decreases_to!(e => body));
                let outer: Name = self.ev;
                let ps: Vec<Var> = join_params(params);
                let mut want: HashSet<Name> = self.wants(rhs, &ps);
                want.remove(&outer);
                let fvs: Vec<Name> = restrict(env, &want);
                let label: u32 = self.fresh_label();
                self.joins.insert(*var, (label, copy_names(&fvs)));
                let kk: Name = self.function_return();
                let iev: Name = self.fresh_ref();
                let block: Vec<Name> = after(&after(&both(&fvs, &ps), kk), iev);
                self.ev = iev;
                let made: Statement = self.expr(rhs, &block, kk);
                self.ev = outer;
                self.write(label, symbol::JOIN_BLOCK, Block { params: block, body: made });
                self.expr(body, env, k)
            },
            _ => Statement::Error(""),
        }
    }

    /// Entering a join point: put the environment into the shape its block expects,
    /// and jump.
    pub fn lower_jump(&mut self, e: &Term, env: &Vec<Name>, k: Name) -> (r: Statement)
        requires
            e is Jump,
        ensures
            final(self)@ == lower_jump(old(self)@, *e, env@, k).0,
            r@ == lower_jump(old(self)@, *e, env@, k).1,
        decreases e, 0nat, 1nat, Dt::Fail, 0nat,
    {
        match e {
            Term::Jump(j, args, _) => {
                let found: Option<(u32, Vec<Name>)> = match self.joins.get(*j) {
                    Some(x) => Some((x.0, copy_names(&x.1))),
                    None => None,
                };
                match found {
                    None => Statement::Error("a jump to a join point not in scope"),
                    Some((label, fvs)) => {
                        let ev: Name = self.ev;
                        let mut base: HashSet<Name> = set_of2(k, ev);
                        extend(&mut base, &fvs);
                        proof {
                            assert(base@ =~= set![k, ev].union(fvs@.to_set()));
                        }
                        let a: All = self.start_all(args, env, &base);
                        let sel: Vec<Name> = after(&after(&both(&fvs, &a.done), k), ev);
                        self.finish_all(args, a.bs, jump_s(sel, Label(label)))
                    },
                }
            },
            _ => Statement::Error(""),
        }
    }

    /// Lambda lifting: one label per binding, all sharing the group's captured
    /// environment.
    pub fn lower_letrec(&mut self, e: &Term, env: &Vec<Name>, k: Name) -> (r: Statement)
        requires
            e is LetRec,
        ensures
            final(self)@ == lower_letrec(old(self)@, *e, env@, k).0,
            r@ == lower_letrec(old(self)@, *e, env@, k).1,
        decreases e, 0nat, 1nat, Dt::Fail, 0nat,
    {
        match e {
            Term::LetRec(binds, body) => {
                let fvs: Vec<Name> = restrict(env, &self.group_wants(binds));
                let labels: Vec<u32> = self.take_labels(binds.len());
                let vs: Vec<Var> = letrec_vars(binds);
                self.register(&vs, &labels, &fvs);
                self.lower_binds(binds, &labels, &fvs);
                self.expr(body, env, k)
            },
            _ => Statement::Error(""),
        }
    }

    pub fn lower_binds(&mut self, binds: &Vec<(Var, Poly, Term)>, labels: &Vec<u32>, fvs: &Vec<Name>)
        requires
            labels@.len() == binds@.len(),
        ensures
            final(self)@ == lower_binds(old(self)@, binds@, labels@, fvs@, binds@.len()),
        decreases binds, binds@.len(), 0nat, Dt::Fail, 0nat,
    {
        let ghost start_st = self@;
        let mut i: usize = 0;
        while i < binds.len()
            invariant
                i <= binds@.len(),
                labels@.len() == binds@.len(),
                self@ == lower_binds(start_st, binds@, labels@, fvs@, i as nat),
            decreases binds@.len() - i,
        {
            assert(decreases_to!(binds => binds@[i as int]));
            let outer: Name = self.ev;
            let depth: usize = self.tscope.len();
            let kk: Name = self.function_return();
            let iev: Name = self.fresh_ref();
            let t: &Term = &binds[i].2;
            let abs: Option<(u32, &Vec<crate::terms::ty::TyVar>, &Term)> = ty_abs(t);
            let descs: Vec<(u32, Name)> = match abs {
                Some((id, _, _)) => self.desc_names(id),
                None => Vec::new(),
            };
            let params: Vec<Name> = after(&after(&both(fvs, &second_of(&descs)), kk), iev);
            self.more_scope(&descs);
            self.ev = iev;
            let body: Statement = if abs.is_some() {
                self.lower_under(t, &params, kk)
            } else {
                self.expr(t, &params, kk)
            };
            self.ev = outer;
            self.cut_scope(depth);
            self.write(labels[i], symbol::LETREC_BLOCK, Block { params, body });
            i = i + 1;
        }
    }

    pub fn lower_under(&mut self, t: &Term, env: &Vec<Name>, k: Name) -> (r: Statement)
        ensures
            final(self)@ == lower_under(old(self)@, *t, env@, k).0,
            r@ == lower_under(old(self)@, *t, env@, k).1,
        decreases t, 0nat, 3nat, Dt::Fail, 0nat,
    {
        match t {
            Term::Loc(_, inner) => self.lower_under(inner, env, k),
            Term::TyLam(_, _, body) => self.expr(body, env, k),
            _ => self.expr(t, env, k),
        }
    }

    /// A branching primitive with two continuation blocks is all `if` ever was.
    pub fn lower_if(&mut self, e: &Term, env: &Vec<Name>, k: Name) -> (r: Statement)
        requires
            e is If,
        ensures
            final(self)@ == lower_if(old(self)@, *e, env@, k).0,
            r@ == lower_if(old(self)@, *e, env@, k).1,
        decreases e, 0nat, 1nat, Dt::Fail, 0nat,
    {
        match e {
            Term::If(c, t, f) => match &**c {
                Term::Prim(p, cargs, _) => if p.compares() && is_simple(c, env) {
                    match const_operand(*p, cargs) {
                        Some((i, l)) => {
                            assert(decreases_to!(cargs => cargs@[i as int]));
                            let d: Pre = self.direct(&cargs[i], env, None);
                            let yes: Statement = self.expr(t, &d.env, k);
                            let no: Statement = self.expr(f, &d.env, k);
                            let s: Statement = test_s(Extern::BranchPrimK(*p, l), d.x, &d.env, no, yes);
                            plug(d.frames, s)
                        },
                        None => {
                            let d: Several = self.direct_all(cargs, env);
                            let yes: Statement = self.expr(t, &d.env, k);
                            let no: Statement = self.expr(f, &d.env, k);
                            let s: Statement = two_s(Extern::BranchPrim(*p), d.done, &d.env, no, yes);
                            plug(d.frames, s)
                        },
                    }
                } else {
                    self.lower_branch(e, env, k)
                },
                _ => self.lower_branch(e, env, k),
            },
            _ => Statement::Error(""),
        }
    }

    pub fn lower_branch(&mut self, e: &Term, env: &Vec<Name>, k: Name) -> (r: Statement)
        requires
            e is If,
        ensures
            final(self)@ == lower_branch(old(self)@, *e, env@, k).0,
            r@ == lower_branch(old(self)@, *e, env@, k).1,
        decreases e, 0nat, 0nat, Dt::Fail, 0nat,
    {
        match e {
            Term::If(c, t, f) => {
                assert(decreases_to!(e => c));
                assert(decreases_to!(e => t));
                assert(decreases_to!(e => f));
                let none: Vec<Var> = Vec::new();
                let mut want: HashSet<Name> = self.wants(t, &none);
                self.want(&mut want, f, &none);
                want.insert(k);
                let keep: Vec<Name> = restrict(env, &want);
                let b: Bound = self.start(c, env, keep, None);
                let yes: Statement = self.expr(t, &b.env, k);
                let no: Statement = self.expr(f, &b.env, k);
                let s: Statement = test_s(Extern::Branch, b.x, &b.env, no, yes);
                self.finish(c, b, s)
            },
            _ => Statement::Error(""),
        }
    }

    pub fn group_wants(&self, binds: &Vec<(Var, Poly, Term)>) -> (r: HashSet<Name>)
        ensures
            r@ == group_wants(self@, binds@),
    {
        let bound: Vec<Var> = letrec_vars(binds);
        let mut out: HashSet<Name> = HashSet::new();
        let mut i: usize = 0;
        while i < binds.len()
            invariant
                i <= binds@.len(),
                bound@ == bound_by(binds@),
                forall|n: Name| #[trigger]
                    out@.contains(n) <==> exists|j: int|
                        0 <= j < i && wants(self@, (#[trigger] binds@[j]).2, bound_by(binds@)).contains(n),
            decreases binds@.len() - i,
        {
            let ghost was = out@;
            self.want(&mut out, &binds[i].2, &bound);
            i = i + 1;
            proof {
                assert forall|n: Name| #[trigger]
                    out@.contains(n) <==> exists|j: int|
                        0 <= j < i && wants(self@, (#[trigger] binds@[j]).2, bound_by(binds@)).contains(n) by {
                    assert(out@.contains(n) <==> was.contains(n) || wants(
                        self@,
                        binds@[i - 1].2,
                        bound_by(binds@),
                    ).contains(n));
                }
            }
        }
        out.remove(&self.ev);
        proof {
            assert(out@ =~= group_wants(self@, binds@));
        }
        out
    }

    pub fn take_labels(&mut self, n: usize) -> (r: Vec<u32>)
        ensures
            final(self)@ == take_labels(old(self)@, n as nat).0,
            r@ == take_labels(old(self)@, n as nat).1,
            r@.len() == n,
    {
        let ghost start_st = self@;
        let mut r: Vec<u32> = Vec::new();
        let mut i: usize = 0;
        while i < n
            invariant
                i <= n,
                r@.len() == i,
                (self@, r@) == take_labels(start_st, i as nat),
            decreases n - i,
        {
            let l: u32 = self.fresh_label();
            r.push(l);
            i = i + 1;
        }
        r
    }

    pub fn register(&mut self, vs: &Vec<Var>, labels: &Vec<u32>, fvs: &Vec<Name>)
        requires
            labels@.len() == vs@.len(),
        ensures
            final(self)@ == register(old(self)@, vs@, labels@, fvs@, vs@.len()),
    {
        let ghost start_st = self@;
        let mut i: usize = 0;
        while i < vs.len()
            invariant
                i <= vs@.len(),
                labels@.len() == vs@.len(),
                self@ == register(start_st, vs@, labels@, fvs@, i as nat),
            decreases vs@.len() - i,
        {
            self.globals.insert(vs[i], (labels[i], copy_names(fvs)));
            self.letrecs.insert(vs[i]);
            i = i + 1;
        }
    }

    /// Start the arguments of a call, left to right; `later` are those behind them.
    pub fn start_args(
        &mut self,
        t: &Term,
        env: &Vec<Name>,
        base: &HashSet<Name>,
        later: &Vec<&Term>,
        Ghost(gs): Ghost<Seq<Term>>,
    ) -> (r: All)
        requires
            these(later@, gs),
        ensures
            r.with(final(self)@) == start_args(old(self)@, *t, env@, base@, gs),
        decreases t, 0nat, 0nat, Dt::Fail, 0nat,
    {
        match t {
            Term::Loc(_, inner) => self.start_args(inner, env, base, later, Ghost(gs)),
            Term::App(f, arg) => {
                let behind: Vec<&Term> = refs_before(arg, later, Ghost(gs));
                let a: All = self.start_args(f, env, base, &behind, Ghost(seq![**arg] + gs));
                let keep: Vec<Name> = self.keep_behind(later, Ghost(gs), &a.done, &a.env, base);
                let b: Bound = self.start(arg, &a.env, keep, None);
                let done: Vec<Name> = after(&a.done, b.x);
                let cur: Vec<Name> = copy_names(&b.env);
                let mut bs: Vec<Bound> = a.bs;
                add_bound(&mut bs, b);
                All { bs, done, env: cur }
            },
            _ => All { bs: no_bounds(), done: Vec::new(), env: copy_names(env) },
        }
    }

    /// Finish the arguments of a call, last first.
    pub fn finish_args(&mut self, t: &Term, bs: Vec<Bound>, body: Statement) -> (r: Statement)
        ensures
            final(self)@ == finish_args(old(self)@, *t, bounds_view(bs@), body@).0,
            r@ == finish_args(old(self)@, *t, bounds_view(bs@), body@).1,
        decreases t, 0nat, 0nat, Dt::Fail, 0nat,
    {
        match t {
            Term::Loc(_, inner) => self.finish_args(inner, bs, body),
            Term::App(f, arg) => if bs.len() == 0 {
                body
            } else {
                let ghost was = bs@;
                let mut bs: Vec<Bound> = bs;
                let b: Bound = bs.pop().unwrap();
                proof {
                    assert(b@ == bounds_view(was).last());
                    assert(bounds_view(bs@) =~= bounds_view(was).drop_last());
                }
                let s: Statement = self.finish(arg, b, body);
                self.finish_args(f, bs, s)
            },
            _ => body,
        }
    }

    pub fn keep_behind(
        &self,
        later: &Vec<&Term>,
        Ghost(gs): Ghost<Seq<Term>>,
        done: &Vec<Name>,
        env: &Vec<Name>,
        base: &HashSet<Name>,
    ) -> (r: Vec<Name>)
        requires
            these(later@, gs),
        ensures
            r@ == restricted(
                env@,
                base@.union(done@.to_set()).union(wants_all(self@, gs, Seq::empty())),
            ),
    {
        let mut more: HashSet<Name> = HashSet::new();
        extend(&mut more, done);
        self.want_refs(&mut more, later, Ghost(gs));
        proof {
            assert(base@.union(more@) =~= base@.union(done@.to_set()).union(wants_all(self@, gs, Seq::empty())));
        }
        restrict_either(env, base, &more)
    }

    /// Add what terms, seen through pointers, need.
    pub fn want_refs(&self, out: &mut HashSet<Name>, ts: &Vec<&Term>, Ghost(gs): Ghost<Seq<Term>>)
        requires
            these(ts@, gs),
        ensures
            final(out)@ == old(out)@.union(wants_all(self@, gs, Seq::empty())),
    {
        let ghost was = out@;
        let none: Vec<Var> = Vec::new();
        let mut i: usize = 0;
        while i < ts.len()
            invariant
                i <= ts@.len(),
                these(ts@, gs),
                none@ == Seq::<Var>::empty(),
                out@ == was.union(wants_all(self@, gs.take(i as int), Seq::empty())),
            decreases ts@.len() - i,
        {
            self.want(out, ts[i], &none);
            i = i + 1;
            proof {
                lemma_wants_more(self@, gs, i as int);
                assert(out@ =~= was.union(wants_all(self@, gs.take(i as int), Seq::empty())));
            }
        }
        proof {
            assert(gs.take(i as int) =~= gs);
            if i == 0 {
                assert(out@ =~= was.union(wants_all(self@, gs, Seq::empty())));
            }
        }
    }
}

/// `t` in front of other terms, seen through pointers.
fn refs_before<'t>(t: &'t Term, ts: &Vec<&'t Term>, Ghost(gs): Ghost<Seq<Term>>) -> (r: Vec<&'t Term>)
    requires
        these(ts@, gs),
    ensures
        these(r@, seq![*t] + gs),
{
    let mut r: Vec<&'t Term> = Vec::new();
    r.push(t);
    let mut i: usize = 0;
    while i < ts.len()
        invariant
            i <= ts@.len(),
            these(ts@, gs),
            these(r@, seq![*t] + gs.take(i as int)),
        decreases ts@.len() - i,
    {
        r.push(ts[i]);
        i = i + 1;
        proof {
            assert(gs.take(i as int) =~= gs.take(i - 1).push(gs[i - 1]));
        }
    }
    proof {
        assert(gs.take(i as int) =~= gs);
    }
    r
}

} // verus!
