//! Lowering handlers, as the scheme says.

use super::live::{also, is_free, restrict, wants};
use super::pattern::only;
use super::scheme::{
    assemble, install, lower_handle, lower_resumed, resumed_with, tail_resumptive, HandlerV, StepV,
};
use super::state::{Lower, St};
use super::tree::Dt;
use super::types::type_of;
use crate::seq::ir::{Block, Extern, Name, Rep, Statement, Tag};
use crate::seq::view::{after, before, copy_names, let_s, new_s, one_s, ret_s, sub_s};
use crate::terms::desc;
use crate::terms::prim::{Lit, Prim};
use crate::terms::symbol::{self, Sym};
use crate::terms::term::{peeled, HClause, Term, Var};
use crate::terms::ty::Ty;
use std::collections::HashSet;
use vstd::prelude::*;

verus! {

broadcast use vstd::std_specs::hash::group_hash_axioms;

/// A step of installing a handler.
pub enum Step {
    Object(Name, Vec<Name>, Block),
    Key(Name, Sym, Vec<Name>),
    Entry(Name, Sym, Vec<Name>),
}

impl View for Step {
    type V = StepV;

    open spec fn view(&self) -> StepV {
        match *self {
            Step::Object(x, captures, method) => StepV::Object(x, captures@, method@),
            Step::Key(x, sym, before) => StepV::Key(x, sym, before@),
            Step::Entry(x, ctor, fields) => StepV::Entry(x, ctor, fields@),
        }
    }
}

pub open spec fn steps_view(ss: Seq<Step>) -> Seq<StepV> {
    Seq::new(ss.len(), |i: int| ss[i]@)
}

/// A handler being installed.
pub struct Handler {
    pub steps: Vec<Step>,
    pub cur: Vec<Name>,
    pub ev: Name,
}

impl Handler {
    pub open spec fn with(self, st: St) -> HandlerV {
        HandlerV { st, steps: steps_view(self.steps@), cur: self.cur@, ev: self.ev }
    }
}

fn add_step(ss: &mut Vec<Step>, s: Step)
    ensures
        steps_view(final(ss)@) == steps_view(old(ss)@).push(s@),
{
    let ghost was = ss@;
    ss.push(s);
    proof {
        assert(steps_view(ss@) =~= steps_view(was).push(s@));
    }
}

/// If a clause only ever resumes, straight away, with a value computed without the
/// resumption, that value.
fn resumed_value(c: &HClause) -> (r: Option<&Term>)
    ensures
        match r {
            Some(e) => tail_resumptive(*c) && *e == resumed_with(c.body),
            None => !tail_resumptive(*c),
        },
{
    match c.body.peel() {
        Term::App(f, e) => {
            let resumes: bool = match f.peel() {
                Term::Var(v) => *v == c.resume,
                _ => false,
            };
            if resumes && !is_free(e, c.resume) {
                proof {
                    lemma_resumed(c.body);
                }
                Some(e)
            } else {
                None
            }
        },
        _ => None,
    }
}

proof fn lemma_resumed(t: Term)
    requires
        peeled(t) is App,
    ensures
        resumed_with(t) == *peeled(t)->App_1,
    decreases t,
{
    match t {
        Term::Loc(_, inner) => {
            lemma_resumed(*inner);
        },
        _ => {},
    }
}

impl Lower {
    fn lower_resumed(&mut self, t: &Term, env: &Vec<Name>, k: Name) -> (r: Statement)
        ensures
            final(self)@ == lower_resumed(old(self)@, *t, env@, k).0,
            r@ == lower_resumed(old(self)@, *t, env@, k).1,
        decreases t, 0nat, 3nat, Dt::Fail, 0nat,
    {
        match t {
            Term::Loc(_, inner) => self.lower_resumed(inner, env, k),
            Term::App(_, e) => self.expr(e, env, k),
            _ => self.expr(t, env, k),
        }
    }

    /// Every clause of a handler installed.
    fn install(&mut self, clauses: &Vec<HClause>, cur: Vec<Name>, target: Name) -> (r: Handler)
        ensures
            r.with(final(self)@) == install(old(self)@, clauses@, clauses@.len(), cur@, target),
        decreases clauses, clauses@.len(), 0nat, Dt::Fail, 0nat,
    {
        let ghost start_st = self@;
        let ghost first = cur@;
        let mut steps: Vec<Step> = Vec::new();
        let mut cur: Vec<Name> = cur;
        let mut ev: Name = self.ev;
        proof {
            assert(steps_view(steps@) =~= Seq::<StepV>::empty());
        }
        let mut i: usize = 0;
        while i < clauses.len()
            invariant
                i <= clauses@.len(),
                (HandlerV { st: self@, steps: steps_view(steps@), cur: cur@, ev }) == install(
                    start_st,
                    clauses@,
                    i as nat,
                    first,
                    target,
                ),
            decreases clauses@.len() - i,
        {
            assert(decreases_to!(clauses => clauses@[i as int]));
            assert(decreases_to!(clauses => clauses@[i as int].body));
            let c: &HClause = &clauses[i];
            let tail: Option<&Term> = resumed_value(c);
            let captures: Vec<Name> = match tail {
                Some(e) => restrict(&cur, &self.wants(e, &only(c.param))),
                None => {
                    let bound: Vec<Var> = after(&only(c.param), c.resume);
                    proof {
                        assert(bound@ =~= seq![c.param, c.resume]);
                    }
                    restrict(&cur, &self.wants(&c.body, &bound))
                },
            };
            let (params, body) = match tail {
                Some(_) => {
                    let kh: Name = self.fresh_ref();
                    self.continuations.push(kh);
                    let params: Vec<Name> = after(&after(&captures, c.param), kh);
                    let body: Statement = self.lower_resumed(&c.body, &params, kh);
                    (params, body)
                },
                None => {
                    let kh: Name = self.function_return();
                    let params: Vec<Name> = after(&after(&after(&captures, c.param), c.resume), kh);
                    let body: Statement = self.expr(&c.body, &params, kh);
                    (params, body)
                },
            };
            let obj: Name = self.fresh_ref();
            let key: Name = self.fresh_as(Rep::Str);
            let sym: Sym = self.key(c.effect, c.op);
            let entry: Name = self.fresh_ref();
            let at_obj: Vec<Name> = before(obj, &cur);
            let at_key: Vec<Name> = before(key, &at_obj);
            let ctor: Sym = if tail.is_some() {
                symbol::EV_TAIL
            } else {
                symbol::EV
            };
            let fields: Vec<Name> = vec![key, obj, target, ev];
            proof {
                assert(fields@ =~= seq![key, obj, target, ev]);
            }
            add_step(&mut steps, Step::Object(obj, captures, Block { params, body }));
            add_step(&mut steps, Step::Key(key, sym, at_obj));
            add_step(&mut steps, Step::Entry(entry, ctor, fields));
            cur = before(entry, &at_key);
            ev = entry;
            i = i + 1;
        }
        Handler { steps, cur, ev }
    }

    /// The steps around a statement, the last innermost.
    fn assemble(&mut self, steps: Vec<Step>, stmt: Statement) -> (r: Statement)
        ensures
            final(self)@ == assemble(old(self)@, steps_view(steps@), steps@.len(), stmt@).0,
            r@ == assemble(old(self)@, steps_view(steps@), steps@.len(), stmt@).1,
    {
        let ghost all = steps_view(steps@);
        let ghost goal = assemble(self@, all, steps@.len(), stmt@);
        let mut steps: Vec<Step> = steps;
        let mut stmt: Statement = stmt;
        while steps.len() > 0
            invariant
                steps@.len() <= all.len(),
                steps_view(steps@) == all.take(steps@.len() as int),
                goal == assemble(self@, all, steps@.len(), stmt@),
            decreases steps@.len(),
        {
            let ghost was = steps@;
            let s: Step = steps.pop().unwrap();
            proof {
                assert(s@ == steps_view(was)[was.len() - 1]);
                assert(s@ == all[was.len() - 1]);
                assert(steps_view(steps@) =~= all.take(steps@.len() as int));
            }
            stmt = match s {
                Step::Object(x, captures, method) => new_s(x, captures, method, stmt),
                Step::Key(x, sym, behind) => {
                    let params: Vec<Name> = before(x, &behind);
                    one_s(Extern::Lit(Lit::Sym(sym)), Vec::new(), params, stmt)
                },
                Step::Entry(x, ctor, fields) => {
                    let tag: Tag = self.tag_of(ctor);
                    let_s(x, tag, ctor, fields, stmt)
                },
            };
        }
        stmt
    }

    /// `handle body with { … }` answering `k`, in `env`.
    pub fn lower_handle(&mut self, e: &Term, env: &Vec<Name>, k: Name) -> (r: Statement)
        requires
            e is Handle,
        ensures
            final(self)@ == lower_handle(old(self)@, *e, env@, k).0,
            r@ == lower_handle(old(self)@, *e, env@, k).1,
        decreases e, 0nat, 1nat, Dt::Fail, 0nat,
    {
        match e {
            Term::Handle { body, clauses, ret, .. } => {
                assert(decreases_to!(e => body));
                assert(decreases_to!(e => clauses));
                assert(decreases_to!(e => ret));
                let outer: Name = self.ev;
                let target: Name = self.fresh_ref();
                let at_target: Vec<Name> = before(target, env);
                let i: Handler = self.install(clauses, copy_names(&at_target), target);
                let h: Name = self.fresh_ref();
                let (x, want) = match ret {
                    Some((p, _, t)) => {
                        let mut want: HashSet<Name> = self.wants(t, &only(*p));
                        also(&mut want, target);
                        (*p, want)
                    },
                    None => {
                        let ty: Option<Ty> = self.type_of(body);
                        let x: Name = self.fresh_typed(ty);
                        (x, super::expr::set_of(target))
                    },
                };
                let caps: Vec<Name> = restrict(&i.cur, &want);
                let params: Vec<Name> = after(&caps, x);
                let kk: Name = self.fresh_ref();
                let at_kk: Vec<Name> = before(kk, &params);
                let inner: Statement = match ret {
                    Some((_, _, t)) => {
                        assert(decreases_to!(e => t));
                        self.expr(t, &at_kk, kk)
                    },
                    None => ret_s(kk, x),
                };
                let read: Statement = one_s(Extern::Prim(Prim::GetRef), only(target), at_kk, inner);
                let at_h: Vec<Name> = before(h, &i.cur);
                self.ev = i.ev;
                let stmt: Statement = self.expr(body, &at_h, h);
                self.ev = outer;
                let mut steps: Vec<Step> = i.steps;
                add_step(&mut steps, Step::Object(h, caps, Block { params, body: read }));
                let whole: Statement = self.assemble(steps, stmt);
                let u: Name = self.fresh_as(Rep::Bits(desc::UNIT));
                let dropped: Statement = sub_s(copy_names(&at_target), copy_names(&at_target), whole);
                let at_u: Vec<Name> = before(u, &at_target);
                let entered: Statement = one_s(Extern::Prim(Prim::Enter), only(target), at_u, dropped);
                one_s(Extern::Prim(Prim::NewRef), only(k), at_target, entered)
            },
            _ => Statement::Error(""),
        }
    }
}

} // verus!
