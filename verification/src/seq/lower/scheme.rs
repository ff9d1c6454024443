//! The translation scheme: the statement each term becomes, in the environment it is
//! lowered in, answering a continuation.
//!
//! Everything takes the state lowering is in and gives the state it leaves. Where a
//! term is computed before something else, it is started, what follows is lowered
//! in the environment that leaves, and the term is finished around it: a term that
//! cannot transfer control is the frames that compute it, and any other gets a
//! continuation to answer.

use super::effect::perform;
use super::frame::{bound_name, built, made, plugged, produced, rename_v, FrameV, PreV, SeveralV};
use super::live::{bound_by, direct_worker, free, params_of, restricted, wants, wants_all};
use super::pattern::{arm_tests, tried};
use super::shape::{abs_id, abstracts, const_arg, head_tys, never_fails, nodes, over_types, tree_takes};
use super::state::St;
use super::tree::{plan, constructors, leaves, DtV, RowV};
use super::types::{described_args, type_of};
use crate::seq::ir::{Label, Name, Rep, Tag};
use crate::seq::view::{
    enter_v, invoke_v, jump_v, let_v, new_v, one_v, ret_v, sub_v, switch_v, two_v, BlockV, ExternV, StmtV,
};
use crate::terms::desc;
use crate::terms::prim::{Lit, Prim};
use crate::terms::symbol::{self, Sym};
use crate::terms::term::{pattern_vars, peeled, Arm, HClause, Pat, Term, Var};
use crate::terms::ty::{desc_of, named, type_of_lit, Poly, Ty};
use vstd::prelude::*;

verus! {

/// Can `e` produce a value without transferring control?
#[verifier::opaque]
pub open spec fn simple(e: Term, env: Seq<Name>) -> bool
    decreases e,
{
    match e {
        Term::Loc(_, inner) => simple(*inner, env),
        Term::Var(v) => env.contains(v),
        Term::Lit(_) => true,
        Term::TyLam(_, vs, _) => over_types(vs@),
        Term::Lam(_, _, _) => true,
        Term::Prim(_, xs, _) => forall|i: int| 0 <= i < xs@.len() ==> simple(#[trigger] xs@[i], env),
        Term::Ctor(_, _, xs) => forall|i: int| 0 <= i < xs@.len() ==> simple(#[trigger] xs@[i], env),
        Term::Tuple(xs) => forall|i: int| 0 <= i < xs@.len() ==> simple(#[trigger] xs@[i], env),
        Term::Array(xs, _) => forall|i: int| 0 <= i < xs@.len() ==> simple(#[trigger] xs@[i], env),
        Term::Record(_, xs) => forall|i: int| 0 <= i < xs@.len() ==> simple(#[trigger] xs@[i], env),
        Term::Sel(t, _, _) => simple(*t, env),
        Term::Proj(t, _) => simple(*t, env),
        Term::Extend(t, _, v) => simple(*t, env) && simple(*v, env),
        Term::Let(x, _, rhs, body) => simple(*rhs, env) && simple(*body, env.push(x)),
        _ => false,
    }
}

/// A term started: in place, or with a continuation for it to answer.
pub struct BoundV {
    pub simple: bool,
    pub frames: Seq<FrameV>,
    pub kk: Name,
    pub x: Name,
    pub keep: Seq<Name>,
    pub outer: Seq<Name>,
    pub env: Seq<Name>,
}

/// Several terms started, left to right.
pub struct AllV {
    pub st: St,
    pub bs: Seq<BoundV>,
    pub done: Seq<Name>,
    pub env: Seq<Name>,
}

/// The second of each pair.
pub open spec fn seconds(ps: Seq<(u32, Name)>) -> Seq<Name> {
    Seq::new(ps.len(), |i: int| ps[i].1)
}

impl St {
    /// The names type abstraction `id` binds its descriptors to.
    pub open spec fn desc_names(self, id: u32) -> Seq<(u32, Name)> {
        if self.tylams.contains_key(id) {
            self.tylams[id]
        } else {
            Seq::empty()
        }
    }
}

/// Names holding the descriptors of the first `n` of `tys`: a constant for a type
/// that is known, the descriptor in scope for a variable.
#[verifier::opaque]
pub open spec fn with_descs(st: St, tys: Seq<Ty>, n: nat, env: Seq<Name>) -> SeveralV
    decreases n,
{
    if n == 0 || n > tys.len() {
        SeveralV { st, frames: Seq::empty(), done: Seq::empty(), env }
    } else {
        let a = with_descs(st, tys, (n - 1) as nat, env);
        let known = match desc_of(tys[n - 1]) {
            Some(d) => Err::<Name, u8>(d),
            None => match tys[n - 1] {
                Ty::Var(v) => match a.st.desc_name(v) {
                    Some(x) => Ok(x),
                    None => Err(desc::ANY),
                },
                _ => Err(desc::ANY),
            },
        };
        match known {
            Ok(x) => SeveralV { done: a.done.push(x), ..a },
            Err(d) => {
                let p = produced(
                    a.st,
                    a.frames,
                    ExternV::Lit(Lit::Int(d as i64)),
                    Seq::empty(),
                    a.env,
                    Some(named(symbol::INT)),
                    None,
                );
                SeveralV { st: p.st, frames: p.frames, done: a.done.push(p.x), env: p.env }
            },
        }
    }
}

/// `v`, a binding that is a type abstraction, instantiated with the descriptors
/// `ds`, answering `k`.
#[verifier::opaque]
pub open spec fn instantiate(st: St, v: Var, ds: Seq<Name>, env: Seq<Name>, k: Name) -> (St, StmtV) {
    if env.contains(v) {
        (st, invoke_v((seq![v] + ds).push(k), v))
    } else if st.globals.contains_key(v) {
        let sel = (st.globals[v].1 + ds).push(k);
        let all = if st.letrecs.contains(v) {
            sel.push(st.ev)
        } else {
            sel
        };
        (st, jump_v(all, Label(st.globals[v].0)))
    } else {
        (st.lost(), StmtV::Error("unbound variable"@))
    }
}

/// `⟦e⟧ k` in environment `env`: run `e`, answer `k`.
pub open spec fn expr(st: St, e: Term, env: Seq<Name>, k: Name) -> (St, StmtV)
    decreases e, 0nat, 2nat, DtV::Fail, 0nat,
{
    let st = st.answering(k);
    match e {
        Term::Loc(loc, inner) => lower_loc(st, e, env, k),
        Term::TyLam(_, _, _) => lower_tylam(st, e, env, k),
        Term::TyApp(_, _) => lower_tyapp(st, e, env, k),
        Term::Var(v) => lower_var(st, v, env, k),
        Term::Lit(l) => lower_lit(st, l, env, k),
        Term::Lam(_, _, _) => lower_lam(st, e, env, k),
        Term::App(_, _) => match direct_worker(st, e) {
            Some(f) => lower_known(st, e, f, env, k),
            None => lower_app(st, e, env, k),
        },
        Term::Let(_, _, _, _) => lower_let(st, e, env, k),
        Term::Join { .. } => lower_join(st, e, env, k),
        Term::Jump(_, _, _) => lower_jump(st, e, env, k),
        Term::LetRec(_, _) => lower_letrec(st, e, env, k),
        Term::If(_, _, _) => lower_if(st, e, env, k),
        Term::Prim(_, _, _) => lower_prim(st, e, env, k),
        Term::Ctor(_, _, _) => lower_ctor(st, e, env, k),
        Term::Tuple(_) => lower_tuple(st, e, env, k),
        Term::Array(_, _) => lower_array(st, e, env, k),
        Term::Record(_, _) => lower_record(st, e, env, k),
        Term::Sel(_, _, _) => lower_sel(st, e, env, k),
        Term::Proj(_, _) => lower_proj(st, e, env, k),
        Term::Extend(_, _, _) => lower_extend(st, e, env, k),
        Term::Case(_, _, _) => lower_case(st, e, env, k),
        Term::Perform(_, _, _, _) => lower_perform(st, e, env, k),
        Term::Handle { .. } => lower_handle(st, e, env, k),
        Term::Error => (st, StmtV::Error("ill-formed term"@)),
    }
}

pub open spec fn lower_loc(st: St, e: Term, env: Seq<Name>, k: Name) -> (St, StmtV)
    decreases e, 0nat, 1nat, DtV::Fail, 0nat,
{
    match e {
        Term::Loc(loc, inner) => {
            let (st1, s) = expr(st, *inner, env, k);
            (st1, StmtV::Mark(loc, Box::new(s)))
        },
        _ => (st, StmtV::Error(Seq::empty())),
    }
}

/// A type abstraction over types takes their descriptors. One over rows or effects
/// takes nothing at run time.
pub open spec fn lower_tylam(st: St, e: Term, env: Seq<Name>, k: Name) -> (St, StmtV)
    decreases e, 0nat, 1nat, DtV::Fail, 0nat,
{
    match e {
        Term::TyLam(id, vs, inner) => if over_types(vs@) {
            let (st1, captures, method) = ty_closure(st, id, *inner, env);
            (st1.fresh_ref(), new_v(st1.next_name, captures, method, ret_v(k, st1.next_name)))
        } else {
            expr(st, *inner, env, k)
        },
        _ => (st, StmtV::Error(Seq::empty())),
    }
}

/// An instantiation passes descriptors.
pub open spec fn lower_tyapp(st: St, e: Term, env: Seq<Name>, k: Name) -> (St, StmtV)
    decreases e, 0nat, 1nat, DtV::Fail, 0nat,
{
    match e {
        Term::TyApp(inner, tys) => match peeled(*inner) {
            Term::Var(v) => match described_args(st, v, Some(tys@)) {
                Some(args) => {
                    let d = with_descs(st, args, args.len(), env);
                    let (st1, s) = instantiate(d.st, v, d.done, d.env, k);
                    (st1, plugged(d.frames, s))
                },
                None => expr(st, *inner, env, k),
            },
            _ => expr(st, *inner, env, k),
        },
        _ => (st, StmtV::Error(Seq::empty())),
    }
}

/// A value in scope is returned. A label is arranged for, exactly what its block
/// takes, and jumped to.
pub open spec fn lower_var(st: St, v: Var, env: Seq<Name>, k: Name) -> (St, StmtV) {
    if env.contains(v) {
        (st, ret_v(k, v))
    } else if st.globals.contains_key(v) {
        let sel = st.globals[v].1.push(k);
        let all = if st.letrecs.contains(v) {
            sel.push(st.ev)
        } else {
            sel
        };
        (st, jump_v(all, Label(st.globals[v].0)))
    } else {
        (st.lost(), StmtV::Error("unbound variable"@))
    }
}

pub open spec fn lower_lit(st: St, l: Lit, env: Seq<Name>, k: Name) -> (St, StmtV) {
    let p = produced(st, Seq::empty(), ExternV::Lit(l), Seq::empty(), env, Some(type_of_lit(l)), None);
    (p.st, plugged(p.frames, ret_v(k, p.x)))
}

/// Codata with one method: the argument, where to send the answer, and the evidence.
pub open spec fn lower_lam(st: St, e: Term, env: Seq<Name>, k: Name) -> (St, StmtV)
    decreases e, 0nat, 1nat, DtV::Fail, 0nat,
{
    match e {
        Term::Lam(param, _, body) => {
            let (st1, captures, method) = lambda(st, param, *body, env);
            (st1.fresh_ref(), new_v(st1.next_name, captures, method, ret_v(k, st1.next_name)))
        },
        _ => (st, StmtV::Error(Seq::empty())),
    }
}

pub open spec fn lower_ctor(st: St, e: Term, env: Seq<Name>, k: Name) -> (St, StmtV)
    decreases e, 0nat, 1nat, DtV::Fail, 0nat,
{
    match e {
        Term::Ctor(c, ty, args) => {
            let a = start_all(st.tagged(c), args@, args@.len(), env, set![k]);
            let b = built(a.st, Seq::empty(), c, st.tag(c), a.done, a.env, Some(ty), None);
            finish_all(b.st, args@, args@.len(), a.bs, plugged(b.frames, ret_v(k, b.x)))
        },
        _ => (st, StmtV::Error(Seq::empty())),
    }
}

pub open spec fn lower_tuple(st: St, e: Term, env: Seq<Name>, k: Name) -> (St, StmtV)
    decreases e, 0nat, 1nat, DtV::Fail, 0nat,
{
    match e {
        Term::Tuple(items) => {
            let a = start_all(st.tagged(symbol::TUPLE), items@, items@.len(), env, set![k]);
            let b = built(
                a.st,
                Seq::empty(),
                symbol::TUPLE,
                st.tag(symbol::TUPLE),
                a.done,
                a.env,
                type_of(st, e),
                None,
            );
            finish_all(b.st, items@, items@.len(), a.bs, plugged(b.frames, ret_v(k, b.x)))
        },
        _ => (st, StmtV::Error(Seq::empty())),
    }
}

pub open spec fn lower_array(st: St, e: Term, env: Seq<Name>, k: Name) -> (St, StmtV)
    decreases e, 0nat, 1nat, DtV::Fail, 0nat,
{
    match e {
        Term::Array(items, _) => {
            let a = start_all(st, items@, items@.len(), env, set![k]);
            let p = produced(a.st, Seq::empty(), ExternV::Array, a.done, a.env, type_of(st, e), None);
            finish_all(p.st, items@, items@.len(), a.bs, plugged(p.frames, ret_v(k, p.x)))
        },
        _ => (st, StmtV::Error(Seq::empty())),
    }
}

pub open spec fn lower_record(st: St, e: Term, env: Seq<Name>, k: Name) -> (St, StmtV)
    decreases e, 0nat, 1nat, DtV::Fail, 0nat,
{
    match e {
        Term::Record(labels, xs) => {
            let a = start_all(st, xs@, xs@.len(), env, set![k]);
            let p = produced(a.st, Seq::empty(), ExternV::Record(labels@), a.done, a.env, type_of(st, e), None);
            finish_all(p.st, xs@, xs@.len(), a.bs, plugged(p.frames, ret_v(k, p.x)))
        },
        _ => (st, StmtV::Error(Seq::empty())),
    }
}

pub open spec fn lower_sel(st: St, e: Term, env: Seq<Name>, k: Name) -> (St, StmtV)
    decreases e, 0nat, 1nat, DtV::Fail, 0nat,
{
    match e {
        Term::Sel(rec, label, ty) => {
            let (st1, b) = begin(st, *rec, env, restricted(env, set![k]), None, direct(st, *rec, env, None));
            let p = produced(st1, Seq::empty(), ExternV::Select(label), seq![b.x], b.env, Some(ty), None);
            ended(p.st, b, plugged(p.frames, ret_v(k, p.x)), expr(p.st, *rec, seq![b.kk] + b.outer, b.kk))
        },
        _ => (st, StmtV::Error(Seq::empty())),
    }
}

/// Tuple projection cannot be a `switch`: the arity an arm would have to name is not
/// in the term.
pub open spec fn lower_proj(st: St, e: Term, env: Seq<Name>, k: Name) -> (St, StmtV)
    decreases e, 0nat, 1nat, DtV::Fail, 0nat,
{
    match e {
        Term::Proj(t, i) => {
            let (st1, b) = begin(st, *t, env, restricted(env, set![k]), None, direct(st, *t, env, None));
            let p = produced(st1, Seq::empty(), ExternV::Field(i), seq![b.x], b.env, type_of(st, e), None);
            ended(p.st, b, plugged(p.frames, ret_v(k, p.x)), expr(p.st, *t, seq![b.kk] + b.outer, b.kk))
        },
        _ => (st, StmtV::Error(Seq::empty())),
    }
}

pub open spec fn lower_perform(st: St, e: Term, env: Seq<Name>, k: Name) -> (St, StmtV)
    decreases e, 0nat, 1nat, DtV::Fail, 0nat,
{
    match e {
        Term::Perform(effect, op, arg, ty) => {
            let (st1, b) = begin(st, *arg, env, restricted(env, set![k, st.ev]), None, direct(st, *arg, env, None));
            let (st2, s) = perform(st1, effect, op, b.x, k, st.ev, type_of(st, *arg), Some(ty));
            ended(st2, b, s, expr(st2, *arg, seq![b.kk] + b.outer, b.kk))
        },
        _ => (st, StmtV::Error(Seq::empty())),
    }
}

/// A lambda: the names it captures and its method, whose evidence is the caller's.
pub open spec fn lambda(st: St, param: Var, body: Term, env: Seq<Name>) -> (St, Seq<Name>, BlockV)
    decreases body, 0nat, 3nat, DtV::Fail, 0nat,
{
    let captures = restricted(env, wants(st, body, seq![param]).remove(st.ev));
    let ik = st.next_name;
    let st1 = st.function_return();
    let iev = st1.next_name;
    let st2 = st1.fresh_ref();
    let params = captures.push(param).push(ik).push(iev);
    let (st3, inner) = expr(st2.with_ev(iev), body, params, ik);
    (st3.with_ev(st.ev), captures, BlockV { params, body: inner })
}

/// A type abstraction as an object: one method, taking the descriptors and a
/// continuation.
pub open spec fn ty_closure(st: St, id: u32, body: Term, env: Seq<Name>) -> (St, Seq<Name>, BlockV)
    decreases body, 0nat, 3nat, DtV::Fail, 0nat,
{
    let captures = restricted(env, wants(st, body, Seq::empty()));
    let kk = st.next_name;
    let st1 = st.function_return();
    let names = st1.desc_names(id);
    let params = (captures + seconds(names)).push(kk);
    let (st2, inner) = expr(st1.more_scope(names), body, params, kk);
    (st2.cut_scope(st.tscope.len()), captures, BlockV { params, body: inner })
}

/// A term that cannot transfer control, lowered where it stands. A term that can is
/// never lowered this way.
pub open spec fn direct(st: St, e: Term, env: Seq<Name>, name: Option<Name>) -> PreV
    decreases e, 0nat, 1nat, DtV::Fail, 0nat,
{
    match e {
        Term::TyLam(_, _, _) => direct_object(st, e, env, name),
        Term::Lam(_, _, _) => direct_object(st, e, env, name),
        Term::TyApp(inner, _) => direct(st, *inner, env, name),
        Term::Loc(_, _) => direct_loc(st, e, env, name),
        Term::Var(v) => direct_var(st, v, env, name),
        Term::Lit(l) => produced(st, Seq::empty(), ExternV::Lit(l), Seq::empty(), env, type_of(st, e), name),
        Term::Prim(_, _, _) => direct_prim(st, e, env, name),
        Term::Ctor(_, _, _) => direct_data(st, e, env, name),
        Term::Tuple(_) => direct_data(st, e, env, name),
        Term::Array(_, _) => direct_list(st, e, env, name),
        Term::Record(_, _) => direct_list(st, e, env, name),
        Term::Sel(_, _, _) => direct_read(st, e, env, name),
        Term::Proj(_, _) => direct_read(st, e, env, name),
        Term::Extend(_, _, _) => direct_extend(st, e, env, name),
        Term::Let(_, _, _, _) => direct_let(st, e, env, name),
        _ => nothing(st, env),
    }
}

/// Nothing done.
pub open spec fn nothing(st: St, env: Seq<Name>) -> PreV {
    PreV { st, frames: Seq::empty(), x: 0, env }
}

/// Already a value. With no name forced there is nothing to emit.
pub open spec fn direct_var(st: St, v: Var, env: Seq<Name>, name: Option<Name>) -> PreV {
    match name {
        None => PreV { st, frames: Seq::empty(), x: v, env },
        Some(x) => PreV { st, frames: seq![rename_v(v, x, env)], x, env: env.push(x) },
    }
}

pub open spec fn direct_loc(st: St, e: Term, env: Seq<Name>, name: Option<Name>) -> PreV
    decreases e, 0nat, 0nat, DtV::Fail, 0nat,
{
    match e {
        Term::Loc(loc, inner) => {
            let p = direct(st, *inner, env, name);
            PreV { frames: seq![FrameV::Mark(loc)] + p.frames, ..p }
        },
        _ => nothing(st, env),
    }
}

/// Building a closure allocates, but it does not go anywhere; nor does the object a
/// generic value is.
pub open spec fn direct_object(st: St, e: Term, env: Seq<Name>, name: Option<Name>) -> PreV
    decreases e, 0nat, 0nat, DtV::Fail, 0nat,
{
    match e {
        Term::TyLam(id, vs, inner) => if over_types(vs@) {
            let (st1, captures, method) = ty_closure(st, id, *inner, env);
            made(st1, captures, method, env, name)
        } else {
            direct(st, *inner, env, name)
        },
        Term::Lam(param, _, body) => {
            let (st1, captures, method) = lambda(st, param, *body, env);
            made(st1, captures, method, env, name)
        },
        _ => nothing(st, env),
    }
}

pub open spec fn direct_prim(st: St, e: Term, env: Seq<Name>, name: Option<Name>) -> PreV
    decreases e, 0nat, 0nat, DtV::Fail, 0nat,
{
    match e {
        Term::Prim(p, args, _) => match const_arg(p, args@) {
            Some((i, l)) => {
                let d = direct(st, args@[if i == 0 { 0 } else { 1 }], env, None);
                produced(d.st, d.frames, ExternV::PrimK(p, l), seq![d.x], d.env, type_of(st, e), name)
            },
            None => {
                let d = direct_all(st, args@, args@.len(), env);
                produced(d.st, d.frames, ExternV::Prim(p), d.done, d.env, type_of(st, e), name)
            },
        },
        _ => nothing(st, env),
    }
}

pub open spec fn direct_data(st: St, e: Term, env: Seq<Name>, name: Option<Name>) -> PreV
    decreases e, 0nat, 0nat, DtV::Fail, 0nat,
{
    match e {
        Term::Ctor(c, _, args) => {
            let d = direct_all(st.tagged(c), args@, args@.len(), env);
            built(d.st, d.frames, c, st.tag(c), d.done, d.env, type_of(st, e), name)
        },
        Term::Tuple(items) => {
            let d = direct_all(st.tagged(symbol::TUPLE), items@, items@.len(), env);
            built(d.st, d.frames, symbol::TUPLE, st.tag(symbol::TUPLE), d.done, d.env, type_of(st, e), name)
        },
        _ => nothing(st, env),
    }
}

pub open spec fn direct_list(st: St, e: Term, env: Seq<Name>, name: Option<Name>) -> PreV
    decreases e, 0nat, 0nat, DtV::Fail, 0nat,
{
    match e {
        Term::Array(items, _) => {
            let d = direct_all(st, items@, items@.len(), env);
            produced(d.st, d.frames, ExternV::Array, d.done, d.env, type_of(st, e), name)
        },
        Term::Record(labels, xs) => {
            let d = direct_all(st, xs@, xs@.len(), env);
            produced(d.st, d.frames, ExternV::Record(labels@), d.done, d.env, type_of(st, e), name)
        },
        _ => nothing(st, env),
    }
}

pub open spec fn direct_read(st: St, e: Term, env: Seq<Name>, name: Option<Name>) -> PreV
    decreases e, 0nat, 0nat, DtV::Fail, 0nat,
{
    match e {
        Term::Sel(rec, label, _) => {
            let d = direct(st, *rec, env, None);
            produced(d.st, d.frames, ExternV::Select(label), seq![d.x], d.env, type_of(st, e), name)
        },
        Term::Proj(t, i) => {
            let d = direct(st, *t, env, None);
            produced(d.st, d.frames, ExternV::Field(i), seq![d.x], d.env, type_of(st, e), name)
        },
        _ => nothing(st, env),
    }
}

pub open spec fn direct_extend(st: St, e: Term, env: Seq<Name>, name: Option<Name>) -> PreV
    decreases e, 0nat, 0nat, DtV::Fail, 0nat,
{
    match e {
        Term::Extend(rec, label, val) => {
            let r = direct(st, *rec, env, None);
            let v = direct(r.st, *val, r.env, None);
            produced(
                v.st,
                r.frames + v.frames,
                ExternV::Extend(label),
                seq![r.x, v.x],
                v.env,
                type_of(st, e),
                name,
            )
        },
        _ => nothing(st, env),
    }
}

pub open spec fn direct_let(st: St, e: Term, env: Seq<Name>, name: Option<Name>) -> PreV
    decreases e, 0nat, 0nat, DtV::Fail, 0nat,
{
    match e {
        Term::Let(x, _, rhs, body) => {
            let r = direct(st, *rhs, env, Some(x));
            let b = direct(r.st, *body, r.env, name);
            PreV { frames: r.frames + b.frames, ..b }
        },
        _ => nothing(st, env),
    }
}

/// The first `n` of several simple terms, left to right.
pub open spec fn direct_all(st: St, es: Seq<Term>, n: nat, env: Seq<Name>) -> SeveralV
    decreases es, n, 0nat, DtV::Fail, 0nat,
{
    if n == 0 || n > es.len() {
        SeveralV { st, frames: Seq::empty(), done: Seq::empty(), env }
    } else {
        let a = direct_all(st, es, (n - 1) as nat, env);
        let p = direct(a.st, es[n - 1], a.env, None);
        SeveralV { st: p.st, frames: a.frames + p.frames, done: a.done.push(p.x), env: p.env }
    }
}

/// Start `e`, whose value is wanted under a name, where `p` is what lowering it in
/// place leaves. `keep` is what must still be live once it has produced a value.
#[verifier::opaque]
pub open spec fn begin(
    st: St,
    e: Term,
    env: Seq<Name>,
    keep: Seq<Name>,
    name: Option<Name>,
    p: PreV,
) -> (St, BoundV) {
    if simple(e, env) {
        started(p, env, keep)
    } else {
        waiting(st, e, env, keep, name)
    }
}

/// A term lowered where it stands.
#[verifier::opaque]
pub open spec fn started(p: PreV, env: Seq<Name>, keep: Seq<Name>) -> (St, BoundV) {
    (p.st, BoundV { simple: true, frames: p.frames, kk: 0, x: p.x, keep, outer: env, env: p.env })
}

/// A term that will answer a continuation: a frame, entered once.
#[verifier::opaque]
pub open spec fn waiting(st: St, e: Term, env: Seq<Name>, keep: Seq<Name>, name: Option<Name>) -> (St, BoundV) {
    let kk = st.next_name;
    let st1 = st.fresh_ref().framed(kk);
    let x = bound_name(st1, name);
    let st2 = match name {
        Some(_) => st1,
        None => st1.fresh_typed(type_of(st1, e)),
    };
    (st2, BoundV { simple: false, frames: Seq::empty(), kk, x, keep, outer: env, env: keep.push(x) })
}

/// A continuation that receives a value and goes on with `body`, around what
/// answers it.
#[verifier::opaque]
pub open spec fn answered(b: BoundV, body: StmtV, rest: StmtV) -> StmtV {
    new_v(b.kk, b.keep, BlockV { params: b.env, body }, rest)
}

/// `e` started.
pub open spec fn start(st: St, e: Term, env: Seq<Name>, keep: Seq<Name>, name: Option<Name>) -> (St, BoundV) {
    begin(st, e, env, keep, name, direct(st, e, env, name))
}

/// Finish a started term around what follows it, where `r` is the term lowered to
/// answer its continuation.
#[verifier::opaque]
pub open spec fn ended(st: St, b: BoundV, body: StmtV, r: (St, StmtV)) -> (St, StmtV) {
    if b.simple {
        (st, plugged(b.frames, body))
    } else {
        (r.0, answered(b, body, r.1))
    }
}

/// A started term finished around what follows it.
pub open spec fn finish(st: St, e: Term, b: BoundV, body: StmtV) -> (St, StmtV) {
    ended(st, b, body, expr(st, e, seq![b.kk] + b.outer, b.kk))
}

/// Start the first `n` of several terms, left to right. What must survive each is
/// `base`, the values already computed, and what the terms still to come need.
pub open spec fn start_all(st: St, es: Seq<Term>, n: nat, env: Seq<Name>, base: Set<Name>) -> AllV
    decreases es, n, 0nat, DtV::Fail, 0nat,
{
    if n == 0 || n > es.len() {
        AllV { st, bs: Seq::empty(), done: Seq::empty(), env }
    } else {
        let a = start_all(st, es, (n - 1) as nat, env, base);
        let want = base.union(a.done.to_set()).union(wants_all(a.st, es.skip(n as int), Seq::empty()));
        let (st1, b) = begin(a.st, es[n - 1], a.env, restricted(a.env, want), None, direct(a.st, es[n - 1], a.env, None));
        AllV { st: st1, bs: a.bs.push(b), done: a.done.push(b.x), env: b.env }
    }
}

/// Finish the first `n` of several started terms, last first.
pub open spec fn finish_all(st: St, es: Seq<Term>, n: nat, bs: Seq<BoundV>, body: StmtV) -> (St, StmtV)
    decreases es, n, 1nat, DtV::Fail, 0nat,
{
    if n == 0 || n > es.len() {
        (st, body)
    } else {
        let (st1, s) = ended(st, bs[n - 1], body, expr(st, es[n - 1], seq![bs[n - 1].kk] + bs[n - 1].outer, bs[n - 1].kk));
        finish_all(st1, es, (n - 1) as nat, bs, s)
    }
}

/// Start the arguments of a call, left to right; `later` are those behind them.
pub open spec fn start_args(st: St, t: Term, env: Seq<Name>, base: Set<Name>, later: Seq<Term>) -> AllV
    decreases t, 0nat, 0nat, DtV::Fail, 0nat,
{
    match t {
        Term::Loc(_, inner) => start_args(st, *inner, env, base, later),
        Term::App(f, arg) => {
            let a = start_args(st, *f, env, base, seq![*arg] + later);
            let want = base.union(a.done.to_set()).union(wants_all(a.st, later, Seq::empty()));
            let (st1, b) = begin(a.st, *arg, a.env, restricted(a.env, want), None, direct(a.st, *arg, a.env, None));
            AllV { st: st1, bs: a.bs.push(b), done: a.done.push(b.x), env: b.env }
        },
        _ => AllV { st, bs: Seq::empty(), done: Seq::empty(), env },
    }
}

/// Finish the arguments of a call, last first.
pub open spec fn finish_args(st: St, t: Term, bs: Seq<BoundV>, body: StmtV) -> (St, StmtV)
    decreases t, 0nat, 0nat, DtV::Fail, 0nat,
{
    match t {
        Term::Loc(_, inner) => finish_args(st, *inner, bs, body),
        Term::App(f, arg) => if bs.len() == 0 {
            (st, body)
        } else {
            let (st1, s) = ended(st, bs.last(), body, expr(st, *arg, seq![bs.last().kk] + bs.last().outer, bs.last().kk));
            finish_args(st1, *f, bs.drop_last(), s)
        },
        _ => (st, body),
    }
}

/// A saturated call to a known function: a jump.
pub open spec fn lower_known(st: St, e: Term, f: Var, env: Seq<Name>, k: Name) -> (St, StmtV)
    decreases e, 0nat, 1nat, DtV::Fail, 0nat,
{
    let takes = st.worker_ev.contains(f);
    let base = if takes {
        set![k, st.ev]
    } else {
        set![k]
    };
    let a = start_args(st, e, env, base, Seq::empty());
    let d = match described_args(st, f, head_tys(e)) {
        Some(tys) => with_descs(a.st, tys, tys.len(), a.env),
        None => SeveralV { st: a.st, frames: Seq::empty(), done: Seq::empty(), env: a.env },
    };
    let sel = (d.done + a.done).push(k);
    let all = if takes {
        sel.push(st.ev)
    } else {
        sel
    };
    finish_args(d.st, e, a.bs, plugged(d.frames, jump_v(all, Label(st.workers[f].0))))
}

/// A call: arranging `[f, arg, k, ev]` and invoking.
pub open spec fn lower_app(st: St, e: Term, env: Seq<Name>, k: Name) -> (St, StmtV)
    decreases e, 0nat, 1nat, DtV::Fail, 0nat,
{
    match e {
        Term::App(fun, arg) => {
            let ev = st.ev;
            let keep = restricted(env, wants(st, *arg, Seq::empty()).union(set![k, ev]));
            let (st1, f) = begin(st, *fun, env, keep, None, direct(st, *fun, env, None));
            let (st2, a) = begin(st1, *arg, f.env, restricted(f.env, set![k, f.x, ev]), None, direct(st1, *arg, f.env, None));
            let (st3, s) = ended(st2, a, invoke_v(seq![f.x, a.x, k, ev], f.x), expr(st2, *arg, seq![a.kk] + a.outer, a.kk));
            ended(st3, f, s, expr(st3, *fun, seq![f.kk] + f.outer, f.kk))
        },
        _ => (st, StmtV::Error(Seq::empty())),
    }
}

pub open spec fn lower_let(st: St, e: Term, env: Seq<Name>, k: Name) -> (St, StmtV)
    decreases e, 0nat, 1nat, DtV::Fail, 0nat,
{
    match e {
        Term::Let(x, _, rhs, body) => {
            let keep = restricted(env, wants(st, *body, seq![x]).insert(k));
            let (st1, b) = begin(st, *rhs, env, keep, Some(x), direct(st, *rhs, env, Some(x)));
            let (st2, s) = expr(st1, *body, b.env, k);
            ended(st2, b, s, expr(st2, *rhs, seq![b.kk] + b.outer, b.kk))
        },
        _ => (st, StmtV::Error(Seq::empty())),
    }
}

/// A join point is a block and nothing else: whatever it needs from around it is
/// passed at the jump.
pub open spec fn lower_join(st: St, e: Term, env: Seq<Name>, k: Name) -> (St, StmtV)
    decreases e, 0nat, 1nat, DtV::Fail, 0nat,
{
    match e {
        Term::Join { var, params, rhs, body, .. } => {
            let ps = params_of(params@);
            let fvs = restricted(env, wants(st, *rhs, ps).remove(st.ev));
            let label = st.next_label;
            let st1 = st.fresh_label();
            let st2 = St { joins: st1.joins.insert(var, (label, fvs)), ..st1 };
            let kk = st2.next_name;
            let st3 = st2.function_return();
            let iev = st3.next_name;
            let st4 = st3.fresh_ref();
            let block = (fvs + ps).push(kk).push(iev);
            let (st5, made) = expr(st4.with_ev(iev), *rhs, block, kk);
            let st6 = st5.with_ev(st.ev).wrote(label, symbol::JOIN_BLOCK, BlockV { params: block, body: made });
            expr(st6, *body, env, k)
        },
        _ => (st, StmtV::Error(Seq::empty())),
    }
}

/// Entering a join point: the environment its block expects, and a jump.
pub open spec fn lower_jump(st: St, e: Term, env: Seq<Name>, k: Name) -> (St, StmtV)
    decreases e, 0nat, 1nat, DtV::Fail, 0nat,
{
    match e {
        Term::Jump(j, args, _) => if st.joins.contains_key(j) {
            let (label, fvs) = st.joins[j];
            let base = set![k, st.ev].union(fvs.to_set());
            let a = start_all(st, args@, args@.len(), env, base);
            let s = jump_v((fvs + a.done).push(k).push(st.ev), Label(label));
            finish_all(a.st, args@, args@.len(), a.bs, s)
        } else {
            (st, StmtV::Error("a jump to a join point not in scope"@))
        },
        _ => (st, StmtV::Error(Seq::empty())),
    }
}

/// With `n` labels taken, and those labels.
pub open spec fn take_labels(st: St, n: nat) -> (St, Seq<u32>)
    decreases n,
{
    if n == 0 {
        (st, Seq::empty())
    } else {
        let (st1, ls) = take_labels(st, (n - 1) as nat);
        (st1.fresh_label(), ls.push(st1.next_label))
    }
}

/// With the first `n` bindings of a `letrec` known by their labels.
pub open spec fn register(st: St, vs: Seq<Var>, labels: Seq<u32>, fvs: Seq<Name>, n: nat) -> St
    decreases n,
{
    if n == 0 || n > vs.len() {
        st
    } else {
        let st1 = register(st, vs, labels, fvs, (n - 1) as nat);
        St {
            globals: st1.globals.insert(vs[n - 1], (labels[n - 1], fvs)),
            letrecs: st1.letrecs.insert(vs[n - 1]),
            ..st1
        }
    }
}

/// What the bindings of a `letrec` need, but for each other and the evidence.
pub open spec fn group_wants(st: St, binds: Seq<(Var, Poly, Term)>) -> Set<Name> {
    Set::new(
        |n: Name|
            exists|i: int|
                0 <= i < binds.len() && wants(st, (#[trigger] binds[i]).2, bound_by(binds)).contains(n),
    ).remove(st.ev)
}

/// Lambda lifting: one label per binding, all sharing what the group captures.
pub open spec fn lower_letrec(st: St, e: Term, env: Seq<Name>, k: Name) -> (St, StmtV)
    decreases e, 0nat, 1nat, DtV::Fail, 0nat,
{
    match e {
        Term::LetRec(binds, body) => {
            let fvs = restricted(env, group_wants(st, binds@));
            let (st1, labels) = take_labels(st, binds@.len());
            let st2 = register(st1, bound_by(binds@), labels, fvs, binds@.len());
            let st3 = lower_binds(st2, binds@, labels, fvs, binds@.len());
            expr(st3, *body, env, k)
        },
        _ => (st, StmtV::Error(Seq::empty())),
    }
}

/// With blocks written for the first `n` bindings of a `letrec`.
pub open spec fn lower_binds(
    st: St,
    binds: Seq<(Var, Poly, Term)>,
    labels: Seq<u32>,
    fvs: Seq<Name>,
    n: nat,
) -> St
    decreases binds, n, 0nat, DtV::Fail, 0nat,
{
    if n == 0 || n > binds.len() {
        st
    } else {
        let st0 = lower_binds(st, binds, labels, fvs, (n - 1) as nat);
        let kk = st0.next_name;
        let st1 = st0.function_return();
        let iev = st1.next_name;
        let st2 = st1.fresh_ref();
        let descs = if abstracts(binds[n - 1].2) {
            st2.desc_names(abs_id(binds[n - 1].2))
        } else {
            Seq::empty()
        };
        let params = (fvs + seconds(descs)).push(kk).push(iev);
        let (st3, body) = if abstracts(binds[n - 1].2) {
            lower_under(st2.more_scope(descs).with_ev(iev), binds[n - 1].2, params, kk)
        } else {
            expr(st2.more_scope(descs).with_ev(iev), binds[n - 1].2, params, kk)
        };
        st3.with_ev(st0.ev).cut_scope(st0.tscope.len()).wrote(
            labels[n - 1],
            symbol::LETREC_BLOCK,
            BlockV { params, body },
        )
    }
}

/// What stands under a type abstraction, lowered.
pub open spec fn lower_under(st: St, t: Term, env: Seq<Name>, k: Name) -> (St, StmtV)
    decreases t, 0nat, 3nat, DtV::Fail, 0nat,
{
    match t {
        Term::Loc(_, inner) => lower_under(st, *inner, env, k),
        Term::TyLam(_, _, body) => expr(st, *body, env, k),
        _ => expr(st, t, env, k),
    }
}

/// A branching primitive with two continuation blocks. `if x < y` is one test.
pub open spec fn lower_if(st: St, e: Term, env: Seq<Name>, k: Name) -> (St, StmtV)
    decreases e, 0nat, 1nat, DtV::Fail, 0nat,
{
    match e {
        Term::If(c, t, f) => match *c {
            Term::Prim(p, cargs, _) => if p.is_comparison() && simple(*c, env) {
                match const_arg(p, cargs@) {
                    Some((i, l)) => {
                        let d = direct(st, cargs@[if i == 0 { 0 } else { 1 }], env, None);
                        let (st1, yes) = expr(d.st, *t, d.env, k);
                        let (st2, no) = expr(st1, *f, d.env, k);
                        (
                            st2,
                            plugged(
                                d.frames,
                                two_v(ExternV::BranchPrimK(p, l), seq![d.x], d.env, no, yes),
                            ),
                        )
                    },
                    None => {
                        let d = direct_all(st, cargs@, cargs@.len(), env);
                        let (st1, yes) = expr(d.st, *t, d.env, k);
                        let (st2, no) = expr(st1, *f, d.env, k);
                        (st2, plugged(d.frames, two_v(ExternV::BranchPrim(p), d.done, d.env, no, yes)))
                    },
                }
            } else {
                lower_branch(st, e, env, k)
            },
            _ => lower_branch(st, e, env, k),
        },
        _ => (st, StmtV::Error(Seq::empty())),
    }
}

/// `if` on a value.
pub open spec fn lower_branch(st: St, e: Term, env: Seq<Name>, k: Name) -> (St, StmtV)
    decreases e, 0nat, 0nat, DtV::Fail, 0nat,
{
    match e {
        Term::If(c, t, f) => {
            let want = wants(st, *t, Seq::empty()).union(wants(st, *f, Seq::empty())).insert(k);
            let (st1, b) = begin(st, *c, env, restricted(env, want), None, direct(st, *c, env, None));
            let (st2, yes) = expr(st1, *t, b.env, k);
            let (st3, no) = expr(st2, *f, b.env, k);
            ended(st3, b, two_v(ExternV::Branch, seq![b.x], b.env, no, yes), expr(st3, *c, seq![b.kk] + b.outer, b.kk))
        },
        _ => (st, StmtV::Error(Seq::empty())),
    }
}

/// A primitive: a literal operand rides along inside the `extern`.
pub open spec fn lower_prim(st: St, e: Term, env: Seq<Name>, k: Name) -> (St, StmtV)
    decreases e, 0nat, 1nat, DtV::Fail, 0nat,
{
    match e {
        Term::Prim(prim, args, ty) => match const_arg(prim, args@) {
            Some((i, l)) => {
                let x = args@[if i == 0 { 0 } else { 1 }];
                let (st1, b) = begin(st, args@[if i == 0 { 0 } else { 1 }], env, restricted(env, set![k]), None, direct(st, args@[if i == 0 { 0 } else { 1 }], env, None));
                let p = produced(st1, Seq::empty(), ExternV::PrimK(prim, l), seq![b.x], b.env, Some(ty), None);
                ended(p.st, b, plugged(p.frames, ret_v(k, p.x)), expr(p.st, args@[if i == 0 { 0 } else { 1 }], seq![b.kk] + b.outer, b.kk))
            },
            None => {
                let a = start_all(st, args@, args@.len(), env, set![k]);
                let p = produced(a.st, Seq::empty(), ExternV::Prim(prim), a.done, a.env, Some(ty), None);
                finish_all(p.st, args@, args@.len(), a.bs, plugged(p.frames, ret_v(k, p.x)))
            },
        },
        _ => (st, StmtV::Error(Seq::empty())),
    }
}

pub open spec fn lower_extend(st: St, e: Term, env: Seq<Name>, k: Name) -> (St, StmtV)
    decreases e, 0nat, 1nat, DtV::Fail, 0nat,
{
    match e {
        Term::Extend(rec, label, val) => {
            let want = set![k].union(wants(st, *val, Seq::empty()));
            let (st1, r) = begin(st, *rec, env, restricted(env, want), None, direct(st, *rec, env, None));
            let (st2, v) = begin(st1, *val, r.env, restricted(r.env, set![k, r.x]), None, direct(st1, *val, r.env, None));
            let p = produced(
                st2,
                Seq::empty(),
                ExternV::Extend(label),
                seq![r.x, v.x],
                v.env,
                type_of(st, e),
                None,
            );
            let (st3, s) = ended(p.st, v, plugged(p.frames, ret_v(k, p.x)), expr(p.st, *val, seq![v.kk] + v.outer, v.kk));
            ended(st3, r, s, expr(st3, *rec, seq![r.kk] + r.outer, r.kk))
        },
        _ => (st, StmtV::Error(Seq::empty())),
    }
}

// --- pattern matching ---

/// What an arm's body and guard need.
pub open spec fn arm_wants(st: St, arm: Arm) -> Set<Name> {
    let bound = pattern_vars(Seq::empty(), arm.pat);
    match arm.guard {
        Some(g) => wants(st, arm.body, bound).union(wants(st, g, bound)),
        None => wants(st, arm.body, bound),
    }
}

/// What the arms of a `match` need.
pub open spec fn arms_want(st: St, arms: Seq<Arm>) -> Set<Name> {
    Set::new(|n: Name| exists|i: int| 0 <= i < arms.len() && arm_wants(st, #[trigger] arms[i]).contains(n))
}

/// How many items the tuple `t` is, under the positions around it.
pub open spec fn tuple_size(t: Term) -> Option<nat>
    decreases t,
{
    match t {
        Term::Loc(_, inner) => tuple_size(*inner),
        Term::Tuple(items) => Some(items@.len()),
        _ => None,
    }
}

/// Does the pattern take a tuple of `n` apart?
pub open spec fn takes_apart(p: Pat, n: nat) -> bool {
    match p {
        Pat::Wild => true,
        Pat::Tuple(ps) => ps@.len() == n && tree_takes(p),
        _ => false,
    }
}

/// With a name taken for each item of the tuple `t`, and those names.
pub open spec fn name_items(st: St, t: Term) -> (St, Seq<Name>)
    decreases t,
{
    match t {
        Term::Loc(_, inner) => name_items(st, *inner),
        Term::Tuple(items) => name_first(st, items@, items@.len()),
        _ => (st, Seq::empty()),
    }
}

pub open spec fn name_first(st: St, items: Seq<Term>, n: nat) -> (St, Seq<Name>)
    decreases n,
{
    if n == 0 || n > items.len() {
        (st, Seq::empty())
    } else {
        let (st1, ns) = name_first(st, items, (n - 1) as nat);
        (st1.fresh_typed(type_of(st1, items[n - 1])), ns.push(st1.next_name))
    }
}

/// The tests of a tuple pattern's fields, against names for them.
pub open spec fn tuple_tests(names: Seq<Name>, p: Pat) -> Seq<(Name, Pat)> {
    match p {
        Pat::Tuple(ps) => super::tree::field_tests(super::tree::all_some(names), ps@, ps@.len()),
        _ => Seq::empty(),
    }
}

/// A row per arm, over names for the tuple's items.
pub open spec fn tuple_rows(names: Seq<Name>, arms: Seq<Arm>) -> Seq<RowV> {
    Seq::new(
        arms.len(),
        |i: int| RowV { tests: tuple_tests(names, arms[i].pat), binds: Seq::empty(), arm: i as usize },
    )
}

/// Start the items of the tuple `t`.
pub open spec fn start_items(st: St, t: Term, env: Seq<Name>, base: Set<Name>) -> AllV
    decreases t, 0nat, 4nat, DtV::Fail, 0nat,
{
    match t {
        Term::Loc(_, inner) => start_items(st, *inner, env, base),
        Term::Tuple(items) => start_all(st, items@, items@.len(), env, base),
        _ => AllV { st, bs: Seq::empty(), done: Seq::empty(), env },
    }
}

pub open spec fn finish_items(st: St, t: Term, bs: Seq<BoundV>, body: StmtV) -> (St, StmtV)
    decreases t, 0nat, 4nat, DtV::Fail, 0nat,
{
    match t {
        Term::Loc(_, inner) => finish_items(st, *inner, bs, body),
        Term::Tuple(items) => finish_all(st, items@, items@.len(), bs, body),
        _ => (st, body),
    }
}

/// Frames that give each of the first `n` variables the value it is bound to, and
/// the environment that leaves.
pub open spec fn bind_vars(binds: Seq<(Var, Name)>, n: nat, env: Seq<Name>) -> (Seq<FrameV>, Seq<Name>)
    decreases n,
{
    if n == 0 || n > binds.len() {
        (Seq::empty(), env)
    } else {
        let (fs, env1) = bind_vars(binds, (n - 1) as nat, env);
        (fs.push(rename_v(binds[n - 1].1, binds[n - 1].0, env1)), env1.push(binds[n - 1].0))
    }
}

/// Each name with the value in the same position.
pub open spec fn zipped(names: Seq<Name>, got: Seq<Name>) -> Seq<(Var, Name)> {
    Seq::new(
        if names.len() < got.len() { names.len() } else { got.len() },
        |i: int| (names[i], got[i]),
    )
}

pub open spec fn lower_case(st: St, e: Term, env: Seq<Name>, k: Name) -> (St, StmtV)
    decreases e, 0nat, 1nat, DtV::Fail, 0nat,
{
    match e {
        Term::Case(scrutinee, arms, _) => {
            let want = arms_want(st, arms@).insert(k);
            let size = tuple_size(*scrutinee);
            if st.opt.trees() && size is Some && (forall|i: int|
                0 <= i < arms@.len() ==> takes_apart((#[trigger] arms@[i]).pat, size->0)) {
                let (st1, names) = name_items(st, *scrutinee);
                let p = plan(st1, tuple_rows(names, arms@), arms@, arms@.len());
                match p.got {
                    Some(dt) => {
                        let a = start_items(p.st, *scrutinee, env, want);
                        let binds = zipped(names, a.done);
                        let (frames, env2) = bind_vars(binds, binds.len(), a.env);
                        let (st2, s) = emit_planned(a.st, dt, arms@, env2, k);
                        finish_items(st2, *scrutinee, a.bs, plugged(frames, s))
                    },
                    None => case_of(p.st, e, env, want, k),
                }
            } else {
                case_of(st, e, env, want, k)
            }
        },
        _ => (st, StmtV::Error(Seq::empty())),
    }
}

/// A `match` on a value that is bound first.
pub open spec fn case_of(st: St, e: Term, env: Seq<Name>, want: Set<Name>, k: Name) -> (St, StmtV)
    decreases e, 0nat, 0nat, DtV::Fail, 0nat,
{
    match e {
        Term::Case(scrutinee, arms, _) => {
            let (st1, b) = begin(st, *scrutinee, env, restricted(env, want), None, direct(st, *scrutinee, env, None));
            let (st2, s) = case(st1, b.x, arms@, 0, b.env, k);
            ended(st2, b, s, expr(st2, *scrutinee, seq![b.kk] + b.outer, b.kk))
        },
        _ => (st, StmtV::Error(Seq::empty())),
    }
}

/// How many arms from `from` on test a literal and have no guard.
#[verifier::opaque]
pub open spec fn literal_arms(arms: Seq<Arm>, from: nat) -> nat
    decreases arms.len() - from,
{
    if from < arms.len() && arms[from as int].pat is Lit && arms[from as int].guard is None {
        1 + literal_arms(arms, from + 1)
    } else {
        0
    }
}

pub proof fn lemma_literal_arms(arms: Seq<Arm>, from: nat)
    requires
        from <= arms.len(),
    ensures
        from + literal_arms(arms, from) <= arms.len(),
    decreases arms.len() - from,
{
    reveal(literal_arms);
    if from < arms.len() && arms[from as int].pat is Lit && arms[from as int].guard is None {
        lemma_literal_arms(arms, from + 1);
    }
}

/// Does each arm from `from` on name a constructor of its own, unguarded, and match
/// all of its fields?
#[verifier::opaque]
pub open spec fn covers(arms: Seq<Arm>, from: nat) -> bool {
    &&& forall|i: int|
        from <= i < arms.len() ==> (#[trigger] arms[i]).guard is None && match arms[i].pat {
            Pat::Ctor(_, subs) => forall|j: int| 0 <= j < subs@.len() ==> never_fails(#[trigger] subs@[j]),
            _ => false,
        }
    &&& forall|i: int, j: int|
        from <= i < j < arms.len() ==> ctor_of(#[trigger] arms[i]) != ctor_of(#[trigger] arms[j])
}

pub open spec fn ctor_of(arm: Arm) -> Option<Sym> {
    match arm.pat {
        Pat::Ctor(c, _) => Some(c),
        _ => None,
    }
}

/// How many arms from `from` on are for constructors, each different from the ones
/// since `first`.
#[verifier::opaque]
pub open spec fn ctor_arms(arms: Seq<Arm>, first: nat, from: nat) -> nat
    decreases arms.len() - from,
{
    if from < arms.len() && ctor_of(arms[from as int]) is Some && (forall|i: int|
        first <= i < from ==> ctor_of(#[trigger] arms[i]) != ctor_of(arms[from as int])) {
        1 + ctor_arms(arms, first, from + 1)
    } else {
        0
    }
}

pub proof fn lemma_ctor_arms(arms: Seq<Arm>, first: nat, from: nat)
    requires
        from <= arms.len(),
    ensures
        from + ctor_arms(arms, first, from) <= arms.len(),
    decreases arms.len() - from,
{
    reveal(ctor_arms);
    if from < arms.len() && ctor_of(arms[from as int]) is Some && (forall|i: int|
        first <= i < from ==> ctor_of(#[trigger] arms[i]) != ctor_of(arms[from as int])) {
        lemma_ctor_arms(arms, first, from + 1);
    }
}

/// The rows of the arms from `from` on, each testing `s`.
pub open spec fn case_rows(s: Name, arms: Seq<Arm>, from: nat) -> Seq<RowV> {
    Seq::new(
        if from <= arms.len() { (arms.len() - from) as nat } else { 0 },
        |i: int| RowV { tests: seq![(s, arms[from + i].pat)], binds: Seq::empty(), arm: (from + i) as usize },
    )
}

/// The arms from `from` on, tried in order on `s`.
pub open spec fn case(st: St, s: Name, arms: Seq<Arm>, from: nat, live: Seq<Name>, k: Name) -> (St, StmtV)
    decreases arms, arms.len() + 1 + (arms.len() - from), 9nat, DtV::Fail, 0nat,
{
    if from > arms.len() {
        (st, StmtV::Error("non-exhaustive pattern match"@))
    } else if from < arms.len() && arms[from as int].guard is None && never_fails(arms[from as int].pat) {
        case_sure(st, s, arms, from, live, k)
    } else if literal_arms(arms, from) > 0 {
        case_literals(st, s, arms, from, live, k)
    } else if from < arms.len() && constructors(st, st.type_of_name(s)) == Some((arms.len() - from) as nat) && covers(
        arms,
        from,
    ) {
        case_total(st, s, arms, from, live, k)
    } else if st.opt.trees() {
        case_planned(st, s, arms, from, live, k)
    } else {
        case_chain(st, s, arms, from, live, k)
    }
}

/// An arm that cannot fail needs nothing to fail to: its bindings and its body.
pub open spec fn case_sure(st: St, s: Name, arms: Seq<Arm>, from: nat, live: Seq<Name>, k: Name) -> (St, StmtV)
    decreases arms, arms.len() + 1, 3nat, DtV::Fail, 0nat,
{
    if from >= arms.len() {
        (st, StmtV::Error(Seq::empty()))
    } else {
        let st1 = st.fresh_ref();
        let m = tried(st1, arms[from as int].pat, s, live, st.next_name);
        let (st2, b) = expr(m.st, arms[from as int].body, m.env, k);
        (st2, plugged(m.frames, b))
    }
}

/// The leading arms that test a literal, around whatever follows them.
pub open spec fn case_literals(st: St, s: Name, arms: Seq<Arm>, from: nat, live: Seq<Name>, k: Name) -> (St, StmtV)
    decreases arms, arms.len() + 1 + (arms.len() - from), 8nat, DtV::Fail, 0nat,
{
    let n = literal_arms(arms, from);
    if from > arms.len() || n == 0 {
        (st, StmtV::Error(Seq::empty()))
    } else {
        proof {
            lemma_literal_arms(arms, from);
        }
        let (st1, rest) = if from + n >= arms.len() {
            (st, StmtV::Error("non-exhaustive pattern match"@))
        } else {
            case(st, s, arms, from + n, live, k)
        };
        literal_tests(st1, s, arms, from, n, live, k, rest)
    }
}

/// An arm for every constructor, none of which can fail: one `switch`, and nothing
/// to fall back to.
pub open spec fn case_total(st: St, s: Name, arms: Seq<Arm>, from: nat, live: Seq<Name>, k: Name) -> (St, StmtV)
    decreases arms, arms.len() + 1, 4nat, DtV::Fail, 0nat,
{
    if from > arms.len() {
        (st, StmtV::Error(Seq::empty()))
    } else {
        let st1 = st.fresh_ref();
        let (st2, cases) = switch_arms(
            st1,
            st.type_of_name(s),
            arms,
            from,
            (arms.len() - from) as nat,
            live,
            st.next_name,
            k,
        );
        (st2, switch_v(s, cases, live, StmtV::Error("non-exhaustive pattern match"@)))
    }
}

/// A decision tree, where one can be planned.
pub open spec fn case_planned(st: St, s: Name, arms: Seq<Arm>, from: nat, live: Seq<Name>, k: Name) -> (St, StmtV)
    decreases arms, arms.len() + 1 + (arms.len() - from), 8nat, DtV::Fail, 0nat,
{
    if from > arms.len() {
        (st, StmtV::Error(Seq::empty()))
    } else if forall|i: int| from <= i < arms.len() ==> tree_takes((#[trigger] arms[i]).pat) {
        let p = plan(st, case_rows(s, arms, from), arms, (arms.len() - from) as nat);
        match p.got {
            Some(dt) => emit_planned(p.st, dt, arms, live, k),
            None => case_prefix(p.st, s, arms, from, live, k),
        }
    } else {
        case_prefix(st, s, arms, from, live, k)
    }
}

/// One `switch` over the longest prefix of arms on distinct constructors, with one
/// shared fallback; the chain, where fewer than two would join it.
pub open spec fn case_prefix(st: St, s: Name, arms: Seq<Arm>, from: nat, live: Seq<Name>, k: Name) -> (St, StmtV)
    decreases arms, arms.len() + 1 + (arms.len() - from), 7nat, DtV::Fail, 0nat,
{
    let n = ctor_arms(arms, from, from);
    if from > arms.len() {
        (st, StmtV::Error("non-exhaustive pattern match"@))
    } else if n < 2 {
        case_chain(st, s, arms, from, live, k)
    } else {
        proof {
            lemma_ctor_arms(arms, from, from);
        }
        let rest = st.next_name;
        let st1 = st.fresh_ref();
        let env = seq![rest] + live;
        let (st2, cases) = switch_arms(st1, st1.type_of_name(s), arms, from, n, env, rest, k);
        let switch = switch_v(s, cases, env, enter_v(rest));
        let (st3, body) = if from + n >= arms.len() {
            (st2, StmtV::Error("non-exhaustive pattern match"@))
        } else {
            case(st2, s, arms, from + n, live, k)
        };
        (st3, new_v(rest, live, BlockV { params: live, body }, switch))
    }
}

/// The first `n` literal arms from `from` on as compare-and-branch, the last
/// innermost, around what follows them.
pub open spec fn literal_tests(
    st: St,
    s: Name,
    arms: Seq<Arm>,
    from: nat,
    n: nat,
    live: Seq<Name>,
    k: Name,
    rest: StmtV,
) -> (St, StmtV)
    decreases arms, n, 3nat, DtV::Fail, 0nat,
{
    if n == 0 || from + n > arms.len() {
        (st, rest)
    } else {
        let (st1, yes) = expr(st, arms[from + n - 1].body, live, k);
        match arms[from + n - 1].pat {
            Pat::Lit(l) => literal_tests(
                st1,
                s,
                arms,
                from,
                (n - 1) as nat,
                live,
                k,
                two_v(ExternV::BranchPrimK(Prim::Eq, l), seq![s], live, rest, yes),
            ),
            _ => (st1, rest),
        }
    }
}

/// A switch's arms, for the first `n` of the arms from `from` on: each binds its
/// fields in front of `env`, and `fail` is invoked where an arm does not match
/// after all.
pub open spec fn switch_arms(
    st: St,
    of: Option<Ty>,
    arms: Seq<Arm>,
    from: nat,
    n: nat,
    env: Seq<Name>,
    fail: Name,
    k: Name,
) -> (St, Seq<(Tag, BlockV)>)
    decreases arms, n, 3nat, DtV::Fail, 0nat,
{
    if n == 0 || from + n > arms.len() {
        (st, Seq::empty())
    } else {
        let (st0, cases) = switch_arms(st, of, arms, from, (n - 1) as nat, env, fail, k);
        match arms[from + n - 1].pat {
            Pat::Ctor(c, subs) => {
                let t = arm_tests(st0, c, subs@, of, env, fail);
                let (st3, body) = arm_body(t.m.st, arms[from + n - 1], t.m.env, fail, k);
                (st3, cases.push((t.tag, BlockV { params: t.arm_env, body: plugged(t.m.frames, body) })))
            },
            _ => (st0, cases),
        }
    }
}

/// An arm whose pattern has matched: its body, if its guard holds, and `fail`
/// invoked if it does not.
pub open spec fn arm_body(st: St, arm: Arm, env: Seq<Name>, fail: Name, k: Name) -> (St, StmtV)
    decreases arm, 0nat, 4nat, DtV::Fail, 0nat,
{
    match arm.guard {
        None => expr(st, arm.body, env, k),
        Some(guard) => guarded(st, arm, guard, env, fail, k),
    }
}

/// What an arm's body needs, and the continuations it may go to.
#[verifier::opaque]
pub open spec fn arm_keep(st: St, arm: Arm, env: Seq<Name>, fail: Name, k: Name) -> Seq<Name> {
    restricted(env, wants(st, arm.body, Seq::empty()).union(set![k, fail]))
}

/// A branch on a guard's value: `fail` invoked, or the arm taken.
#[verifier::opaque]
pub open spec fn guard_test(b: BoundV, fail: Name, taken: StmtV) -> StmtV {
    two_v(ExternV::Branch, seq![b.x], b.env, enter_v(fail), taken)
}

/// An arm with a guard, `guard`, whose pattern has matched.
pub open spec fn guarded(st: St, arm: Arm, guard: Term, env: Seq<Name>, fail: Name, k: Name) -> (St, StmtV)
    decreases arm, 0nat, 3nat, DtV::Fail, 0nat,
{
    if arm.guard != Some(guard) {
        (st, StmtV::Error(Seq::empty()))
    } else {
        proof {
            assert(arm.guard->0 == guard);
            assert(decreases_to!(arm => arm.guard->0));
        }
        let keep = arm_keep(st, arm, env, fail, k);
        let (st1, b) = begin(st, guard, env, keep, None, direct(st, guard, env, None));
        let (st2, taken) = expr(st1, arm.body, b.env, k);
        let s = guard_test(b, fail, taken);
        ended(st2, b, s, expr(st2, guard, seq![b.kk] + b.outer, b.kk))
    }
}

/// With `n` names taken for objects, and those names.
#[verifier::opaque]
pub open spec fn take_refs(st: St, n: nat) -> (St, Seq<Name>)
    decreases n,
{
    if n == 0 {
        (st, Seq::empty())
    } else {
        let (st1, ns) = take_refs(st, (n - 1) as nat);
        (st1.fresh_ref(), ns.push(st1.next_name))
    }
}

/// A chain of failure continuations, one per arm, each capturing the next.
pub open spec fn case_chain(st: St, s: Name, arms: Seq<Arm>, from: nat, live: Seq<Name>, k: Name) -> (St, StmtV)
    decreases arms, arms.len() + 1, 3nat, DtV::Fail, 0nat,
{
    let n = if from <= arms.len() {
        (arms.len() - from) as nat
    } else {
        0
    };
    let (st1, fails) = take_refs(st, n + 1);
    let (st2, stmt) = chain_arms(st1, s, arms, from, fails, n, live, k);
    (
        st2,
        new_v(
            fails[n as int],
            live,
            BlockV { params: live, body: StmtV::Error("non-exhaustive pattern match"@) },
            stmt,
        ),
    )
}

/// The objects of the first `n` arms of a chain, around entering the first.
pub open spec fn chain_arms(
    st: St,
    s: Name,
    arms: Seq<Arm>,
    from: nat,
    fails: Seq<Name>,
    n: nat,
    live: Seq<Name>,
    k: Name,
) -> (St, StmtV)
    decreases arms, n, 3nat, DtV::Fail, 0nat,
{
    if n == 0 || from + n > arms.len() {
        (st, enter_v(fails[0]))
    } else {
        let (st1, stmt) = chain_arms(st, s, arms, from, fails, (n - 1) as nat, live, k);
        let fail = fails[n as int];
        let caps = live.push(fail);
        let m = tried(st1, arms[from + n - 1].pat, s, caps, fail);
        let (st2, body) = arm_body(m.st, arms[from + n - 1], m.env, fail, k);
        (st2, new_v(fails[n - 1], caps, BlockV { params: caps, body: plugged(m.frames, body) }, stmt))
    }
}

// --- decision trees ---

/// An arm reached from more than one leaf and too big to copy to each: a label its
/// leaves jump to.
pub struct SharedV {
    pub label: u32,
    pub fvs: Seq<Name>,
    pub vars: Seq<Var>,
    pub ev: bool,
}

/// The most nodes an arm's body may have and still be copied to every leaf that
/// reaches it.
pub const ARM_COPY_BUDGET: u64 = 48;

/// A planned tree in `live`: the arms it reaches from more than one leaf, and cannot
/// copy to each, made labels first.
pub open spec fn emit_planned(st: St, dt: DtV, arms: Seq<Arm>, live: Seq<Name>, k: Name) -> (St, StmtV)
    decreases arms, arms.len() + 1, 5nat, DtV::Fail, 0nat,
{
    let (st1, shared) = share_arms(st, dt, arms, arms.len(), live);
    emit_tree(st1, dt, arms, live, k, shared)
}

/// The first `n` arms, those that are shared made labels.
pub open spec fn share_arms(st: St, dt: DtV, arms: Seq<Arm>, n: nat, live: Seq<Name>) -> (St, Seq<Option<SharedV>>)
    decreases arms, n, 3nat, DtV::Fail, 0nat,
{
    if n == 0 || n > arms.len() {
        (st, Seq::empty())
    } else {
        let (st1, shared) = share_arms(st, dt, arms, (n - 1) as nat, live);
        if leaves(dt, (n - 1) as usize) > 1 && nodes(arms[n - 1].body) > ARM_COPY_BUDGET {
            let (st2, s) = shared_arm(st1, arms[n - 1], live);
            (st2, shared.push(Some(s)))
        } else {
            (st1, shared.push(None))
        }
    }
}

/// An arm's body as a label of its own, taking what it needs of `live` and its
/// pattern's variables.
pub open spec fn shared_arm(st: St, arm: Arm, live: Seq<Name>) -> (St, SharedV)
    decreases arm, 0nat, 3nat, DtV::Fail, 0nat,
{
    let vars = pattern_vars(Seq::empty(), arm.pat);
    let want = wants(st, arm.body, vars);
    let ev = want.contains(st.ev);
    let fvs = restricted(live, want.remove(st.ev));
    let label = st.next_label;
    let st1 = st.fresh_label();
    let kk = st1.next_name;
    let st2 = st1.function_return();
    let block = (fvs + vars).push(kk);
    let (st3, params) = if ev {
        (st2.fresh_ref().with_ev(st2.next_name), block.push(st2.next_name))
    } else {
        (st2, block)
    };
    let (st4, body) = expr(st3, arm.body, params, kk);
    (
        st4.with_ev(st.ev).wrote(label, symbol::ARM_BLOCK, BlockV { params, body }),
        SharedV { label, fvs, vars, ev },
    )
}

/// A tree in `env`.
pub open spec fn emit_tree(
    st: St,
    dt: DtV,
    arms: Seq<Arm>,
    env: Seq<Name>,
    k: Name,
    shared: Seq<Option<SharedV>>,
) -> (St, StmtV)
    decreases arms, 0nat, 4nat, dt, 0nat,
{
    match dt {
        DtV::Fail => (st, StmtV::Error("non-exhaustive pattern match"@)),
        DtV::Leaf { arm, binds, otherwise } => {
            let (frames, env1) = bind_vars(binds, binds.len(), env);
            if arm < arms.len() && arms[arm as int].guard is Some && otherwise is Some {
                let (st1, b) = begin(st, arms[arm as int].guard->0, env1, env1, None, direct(st, arms[arm as int].guard->0, env1, None));
                let (st2, no) = emit_tree(st1, *otherwise->0, arms, b.env, k, shared);
                let (st3, yes) = run_arm(st2, arm, arms, b.env, k, shared);
                let (st4, s) = ended(st3, b, two_v(ExternV::Branch, seq![b.x], b.env, no, yes), expr(st3, arms[arm as int].guard->0, seq![b.kk] + b.outer, b.kk));
                (st4, plugged(frames, s))
            } else {
                let (st1, s) = run_arm(st, arm, arms, env1, k, shared);
                (st1, plugged(frames, s))
            }
        },
        DtV::Switch { occ, cases, default } => {
            let (st1, cs) = emit_cases(st, cases, cases.len(), arms, env, k, shared);
            let (st2, otherwise) = match default {
                Some(d) => emit_tree(st1, *d, arms, env, k, shared),
                None => (st1, StmtV::Error("non-exhaustive pattern match"@)),
            };
            (st2, switch_v(occ, cs, env, otherwise))
        },
        DtV::Lits { occ, lits, rest } => {
            let (st1, s) = emit_tree(st, *rest, arms, env, k, shared);
            emit_lits(st1, occ, lits, lits.len(), arms, env, k, shared, s)
        },
        DtV::Tuple { occ, fields, next } => {
            let (frames, env1) = take_fields(occ, fields, fields.len(), env);
            let (st1, s) = emit_tree(st, *next, arms, env1, k, shared);
            (st1, plugged(frames, s))
        },
    }
}

/// An arm that has matched: its body, or a jump to it.
pub open spec fn run_arm(
    st: St,
    arm: usize,
    arms: Seq<Arm>,
    env: Seq<Name>,
    k: Name,
    shared: Seq<Option<SharedV>>,
) -> (St, StmtV)
    decreases arms, 0nat, 3nat, DtV::Fail, 0nat,
{
    if arm >= arms.len() || arm >= shared.len() {
        (st, StmtV::Error("non-exhaustive pattern match"@))
    } else {
        match shared[arm as int] {
            None => expr(st, arms[arm as int].body, env, k),
            Some(sa) => {
                let sel = (sa.fvs + sa.vars).push(k);
                let all = if sa.ev {
                    sel.push(st.ev)
                } else {
                    sel
                };
                (st, jump_v(all, Label(sa.label)))
            },
        }
    }
}

/// The first `n` cases of a switch.
pub open spec fn emit_cases(
    st: St,
    cases: Seq<(Sym, Seq<Name>, DtV)>,
    n: nat,
    arms: Seq<Arm>,
    env: Seq<Name>,
    k: Name,
    shared: Seq<Option<SharedV>>,
) -> (St, Seq<(Tag, BlockV)>)
    decreases arms, 0nat, 4nat, cases, n,
{
    if n == 0 || n > cases.len() {
        (st, Seq::empty())
    } else {
        let (st1, cs) = emit_cases(st, cases, (n - 1) as nat, arms, env, k, shared);
        let arm_env = cases[n - 1].1 + env;
        let (st2, body) = emit_tree(st1.tagged(cases[n - 1].0), cases[n - 1].2, arms, arm_env, k, shared);
        (st2, cs.push((st1.tag(cases[n - 1].0), BlockV { params: arm_env, body })))
    }
}

/// The first `n` literal cases as compare-and-branch, the last innermost.
pub open spec fn emit_lits(
    st: St,
    occ: Name,
    lits: Seq<(Lit, DtV)>,
    n: nat,
    arms: Seq<Arm>,
    env: Seq<Name>,
    k: Name,
    shared: Seq<Option<SharedV>>,
    rest: StmtV,
) -> (St, StmtV)
    decreases arms, 0nat, 4nat, lits, n,
{
    if n == 0 || n > lits.len() {
        (st, rest)
    } else {
        let (st1, yes) = emit_tree(st, lits[n - 1].1, arms, env, k, shared);
        emit_lits(
            st1,
            occ,
            lits,
            (n - 1) as nat,
            arms,
            env,
            k,
            shared,
            two_v(ExternV::BranchPrimK(Prim::Eq, lits[n - 1].0), seq![occ], env, rest, yes),
        )
    }
}

/// Frames that take the first `n` fields of a tuple, and the environment they leave.
pub open spec fn take_fields(occ: Name, fields: Seq<(usize, Name)>, n: nat, env: Seq<Name>) -> (Seq<FrameV>, Seq<Name>)
    decreases n,
{
    if n == 0 || n > fields.len() {
        (Seq::empty(), env)
    } else {
        let (fs, env1) = take_fields(occ, fields, (n - 1) as nat, env);
        let (i, x) = fields[n - 1];
        (
            fs.push(FrameV::Bind { op: ExternV::Field(i), args: seq![occ], params: seq![x] + env1 }),
            seq![x] + env1,
        )
    }
}

// --- handlers ---

/// Does the clause only ever resume, straight away, with a value computed without
/// the resumption?
pub open spec fn tail_resumptive(c: HClause) -> bool {
    match peeled(c.body) {
        Term::App(f, e) => peeled(*f) == Term::Var(c.resume) && !free(*e, c.resume),
        _ => false,
    }
}

/// The value a tail-resumptive clause resumes with.
pub open spec fn resumed_with(t: Term) -> Term
    decreases t,
{
    match t {
        Term::Loc(_, inner) => resumed_with(*inner),
        Term::App(_, e) => *e,
        t => t,
    }
}

/// That value, lowered.
pub open spec fn lower_resumed(st: St, t: Term, env: Seq<Name>, k: Name) -> (St, StmtV)
    decreases t, 0nat, 3nat, DtV::Fail, 0nat,
{
    match t {
        Term::Loc(_, inner) => lower_resumed(st, *inner, env, k),
        Term::App(_, e) => expr(st, *e, env, k),
        _ => expr(st, t, env, k),
    }
}

/// A step of installing a handler: each binds one name in front of the environment.
pub enum StepV {
    Object(Name, Seq<Name>, BlockV),
    Key(Name, Sym, Seq<Name>),
    Entry(Name, Sym, Seq<Name>),
}

/// A handler being installed: the steps so far, the environment they leave, and the
/// evidence they build.
pub struct HandlerV {
    pub st: St,
    pub steps: Seq<StepV>,
    pub cur: Seq<Name>,
    pub ev: Name,
}

/// The first `n` clauses of a handler installed.
pub open spec fn install(st: St, clauses: Seq<HClause>, n: nat, cur: Seq<Name>, target: Name) -> HandlerV
    decreases clauses, n, 0nat, DtV::Fail, 0nat,
{
    if n == 0 || n > clauses.len() {
        HandlerV { st, steps: Seq::empty(), cur, ev: st.ev }
    } else {
        let h = install(st, clauses, (n - 1) as nat, cur, target);
        let c = clauses[n - 1];
        let tail = tail_resumptive(c);
        let kh = h.st.next_name;
        let captures = if tail {
            restricted(h.cur, wants(h.st, resumed_with(c.body), seq![c.param]))
        } else {
            restricted(h.cur, wants(h.st, c.body, seq![c.param, c.resume]))
        };
        let params = if tail {
            captures.push(c.param).push(kh)
        } else {
            captures.push(c.param).push(c.resume).push(kh)
        };
        let (st1, body) = if tail {
            lower_resumed(h.st.fresh_ref().answering(kh), clauses[n - 1].body, params, kh)
        } else {
            expr(h.st.function_return(), clauses[n - 1].body, params, kh)
        };
        let obj = st1.next_name;
        let st2 = st1.fresh_ref();
        let key = st2.next_name;
        let st3 = st2.fresh_as(Rep::Str);
        let sym = st3.symbol(st3.key(c.effect, c.op));
        let st4 = st3.interned(st3.key(c.effect, c.op));
        let entry = st4.next_name;
        let st5 = st4.fresh_ref();
        let at_obj = seq![obj] + h.cur;
        let at_key = seq![key] + at_obj;
        HandlerV {
            st: st5,
            steps: h.steps.push(StepV::Object(obj, captures, BlockV { params, body })).push(
                StepV::Key(key, sym, at_obj),
            ).push(
                StepV::Entry(
                    entry,
                    if tail {
                        symbol::EV_TAIL
                    } else {
                        symbol::EV
                    },
                    seq![key, obj, target, h.ev],
                ),
            ),
            cur: seq![entry] + at_key,
            ev: entry,
        }
    }
}

/// The first `n` steps around a statement, the last innermost.
pub open spec fn assemble(st: St, steps: Seq<StepV>, n: nat, stmt: StmtV) -> (St, StmtV)
    decreases n,
{
    if n == 0 || n > steps.len() {
        (st, stmt)
    } else {
        match steps[n - 1] {
            StepV::Object(x, captures, method) => assemble(
                st,
                steps,
                (n - 1) as nat,
                new_v(x, captures, method, stmt),
            ),
            StepV::Key(x, sym, before) => assemble(
                st,
                steps,
                (n - 1) as nat,
                one_v(ExternV::Lit(Lit::Sym(sym)), Seq::empty(), seq![x] + before, stmt),
            ),
            StepV::Entry(x, ctor, fields) => assemble(
                st.tagged(ctor),
                steps,
                (n - 1) as nat,
                let_v(x, st.tag(ctor), ctor, fields, stmt),
            ),
        }
    }
}

/// `handle body with { … }` answering `k`: where the whole expression's value goes,
/// an object and an entry per clause, and a continuation for the body that reads
/// where to go and runs the `return` clause there.
pub open spec fn lower_handle(st: St, e: Term, env: Seq<Name>, k: Name) -> (St, StmtV)
    decreases e, 0nat, 1nat, DtV::Fail, 0nat,
{
    match e {
        Term::Handle { body, clauses, ret, .. } => {
            let outer = st.ev;
            let target = st.next_name;
            let at_target = seq![target] + env;
            let i = install(st.fresh_ref(), clauses@, clauses@.len(), at_target, target);
            let h = i.st.next_name;
            let st1 = i.st.fresh_ref();
            let (st2, x, want) = match ret {
                Some(r) => (st1, r.0, wants(st1, *r.2, seq![r.0]).insert(target)),
                None => (st1.fresh_typed(type_of(st1, *body)), st1.next_name, set![target]),
            };
            let caps = restricted(i.cur, want);
            let params = caps.push(x);
            let kk = st2.next_name;
            let st3 = st2.fresh_ref();
            let at_kk = seq![kk] + params;
            let (st4, inner) = match ret {
                Some(r) => expr(st3, *r.2, at_kk, kk),
                None => (st3, ret_v(kk, x)),
            };
            let method = BlockV {
                params,
                body: one_v(ExternV::Prim(Prim::GetRef), seq![target], at_kk, inner),
            };
            let (st5, stmt) = expr(st4.with_ev(i.ev), *body, seq![h] + i.cur, h);
            let steps = i.steps.push(StepV::Object(h, caps, method));
            let (st6, whole) = assemble(st5.with_ev(outer), steps, steps.len(), stmt);
            let u = st6.next_name;
            let dropped = sub_v(at_target, at_target, whole);
            (
                st6.fresh_as(Rep::Bits(desc::UNIT)),
                one_v(
                    ExternV::Prim(Prim::NewRef),
                    seq![k],
                    at_target,
                    one_v(ExternV::Prim(Prim::Enter), seq![target], seq![u] + at_target, dropped),
                ),
            )
        },
        _ => (st, StmtV::Error(Seq::empty())),
    }
}

} // verus!
