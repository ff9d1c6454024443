//! How far lowering takes its state: terms.

use super::effect::perform;
use super::frame::{built, made, plugged, produced, SeveralV};
use super::going_arms::lemma_case;
use super::going_handle::{lemma_handle, lemma_letrec};
use super::going_parts::{lemma_finished, lemma_started};
use super::live::{direct_worker, params_of, restricted, wants, wants_all};
use super::reach::Kinds;
use super::scheme::{
    begin, direct, direct_all, direct_data, direct_extend, direct_let, direct_list, direct_loc, direct_object,
    direct_prim, direct_read, ended, expr, finish_all, finish_args, instantiate, lambda, lower_app, lower_array,
    lower_branch, lower_case, lower_ctor, lower_extend, lower_handle, lower_if, lower_join, lower_jump, lower_known,
    lower_lam, lower_let, lower_letrec, lower_lit, lower_loc, lower_perform, lower_prim, lower_proj, lower_record,
    lower_resumed, lower_sel, lower_tuple, lower_tyapp, lower_tylam, lower_under, lower_var, seconds, start_all,
    start_args, ty_closure, with_descs, BoundV,
};
use super::shape::{const_arg, head_tys, over_types};
use super::state::St;
use super::stride::{
    lemma_built, lemma_fresh_as, lemma_made, lemma_produced, lemma_quiet_on, lemma_with_descs, quiet,
};
use super::tree::DtV;
use super::types::{described_args, type_of};
use super::went::{
    fit, fit_all, lemma_back_ev, lemma_back_scope, lemma_below, lemma_desc_names, lemma_ev, lemma_item,
    lemma_join_known, lemma_label, lemma_more_scope, lemma_on, lemma_on_quietly, lemma_operation, lemma_other_ev,
    lemma_parts, lemma_quietly, lemma_stay, lemma_went, lemma_written, okay, went,
};
use crate::seq::ir::{Label, Name, Rep};
use crate::seq::view::{invoke_v, jump_v, ret_v, two_v, BlockV, ExternV, StmtV};
use crate::terms::prim::{Lit, Prim};
use crate::terms::symbol;
use crate::terms::term::{peeled, Term, Var};
use crate::terms::ty::type_of_lit;
use vstd::prelude::*;

verus! {

pub proof fn lemma_expr(kd: Kinds, st: St, e: Term, env: Seq<Name>, k: Name, ls: Set<Var>)
    requires
        okay(kd, st),
        fit(kd, e, ls),
    ensures
        went(kd, st, expr(st, e, env, k).0, ls),
    decreases e, 0nat, 2nat, DtV::Fail, 0nat,
{
    let st0 = st;
    let st = st0.answering(k);
    assert(quiet(st0, st));
    lemma_quietly(kd, st0, st, ls);
    lemma_went(kd, st0, st, ls);
    match e {
        Term::Loc(_, _) => {
            lemma_loc(kd, st, e, env, k, ls);
            lemma_on(kd, st0, st, lower_loc(st, e, env, k).0, ls);
        },
        Term::TyLam(_, _, _) => {
            lemma_tylam(kd, st, e, env, k, ls);
            lemma_on(kd, st0, st, lower_tylam(st, e, env, k).0, ls);
        },
        Term::TyApp(_, _) => {
            lemma_tyapp(kd, st, e, env, k, ls);
            lemma_on(kd, st0, st, lower_tyapp(st, e, env, k).0, ls);
        },
        Term::Lam(_, _, _) => {
            lemma_lam(kd, st, e, env, k, ls);
            lemma_on(kd, st0, st, lower_lam(st, e, env, k).0, ls);
        },
        Term::Let(_, _, _, _) => {
            lemma_let(kd, st, e, env, k, ls);
            lemma_on(kd, st0, st, lower_let(st, e, env, k).0, ls);
        },
        Term::Join { .. } => {
            lemma_join(kd, st, e, env, k, ls);
            lemma_on(kd, st0, st, lower_join(st, e, env, k).0, ls);
        },
        Term::Jump(_, _, _) => {
            lemma_jump(kd, st, e, env, k, ls);
            lemma_on(kd, st0, st, lower_jump(st, e, env, k).0, ls);
        },
        Term::LetRec(_, _) => {
            lemma_letrec(kd, st, e, env, k, ls);
            lemma_on(kd, st0, st, lower_letrec(st, e, env, k).0, ls);
        },
        Term::If(_, _, _) => {
            lemma_if(kd, st, e, env, k, ls);
            lemma_on(kd, st0, st, lower_if(st, e, env, k).0, ls);
        },
        Term::Prim(_, _, _) => {
            lemma_prim(kd, st, e, env, k, ls);
            lemma_on(kd, st0, st, lower_prim(st, e, env, k).0, ls);
        },
        Term::Ctor(_, _, _) => {
            lemma_ctor(kd, st, e, env, k, ls);
            lemma_on(kd, st0, st, lower_ctor(st, e, env, k).0, ls);
        },
        Term::Tuple(_) => {
            lemma_tuple(kd, st, e, env, k, ls);
            lemma_on(kd, st0, st, lower_tuple(st, e, env, k).0, ls);
        },
        Term::Array(_, _) => {
            lemma_array(kd, st, e, env, k, ls);
            lemma_on(kd, st0, st, lower_array(st, e, env, k).0, ls);
        },
        Term::Record(_, _) => {
            lemma_record(kd, st, e, env, k, ls);
            lemma_on(kd, st0, st, lower_record(st, e, env, k).0, ls);
        },
        Term::Sel(_, _, _) => {
            lemma_sel(kd, st, e, env, k, ls);
            lemma_on(kd, st0, st, lower_sel(st, e, env, k).0, ls);
        },
        Term::Proj(_, _) => {
            lemma_proj(kd, st, e, env, k, ls);
            lemma_on(kd, st0, st, lower_proj(st, e, env, k).0, ls);
        },
        Term::Extend(_, _, _) => {
            lemma_extend(kd, st, e, env, k, ls);
            lemma_on(kd, st0, st, lower_extend(st, e, env, k).0, ls);
        },
        Term::Case(_, _, _) => {
            lemma_case(kd, st, e, env, k, ls);
            lemma_on(kd, st0, st, lower_case(st, e, env, k).0, ls);
        },
        Term::Perform(_, _, _, _) => {
            lemma_perform(kd, st, e, env, k, ls);
            lemma_on(kd, st0, st, lower_perform(st, e, env, k).0, ls);
        },
        Term::Handle { .. } => {
            lemma_handle(kd, st, e, env, k, ls);
            lemma_on(kd, st0, st, lower_handle(st, e, env, k).0, ls);
        },
        Term::Var(v) => {
            assert(quiet(st, lower_var(st, v, env, k).0));
            lemma_on_quietly(kd, st0, st, lower_var(st, v, env, k).0, ls);
        },
        Term::Lit(l) => {
            lemma_produced(st, Seq::empty(), ExternV::Lit(l), Seq::empty(), env, Some(type_of_lit(l)), None);
            lemma_on_quietly(kd, st0, st, lower_lit(st, l, env, k).0, ls);
        },
        Term::App(_, _) => {
            match direct_worker(st, e) {
                Some(f) => {
                    lemma_known(kd, st, e, f, env, k, ls);
                    lemma_on(kd, st0, st, lower_known(st, e, f, env, k).0, ls);
                },
                None => {
                    lemma_app(kd, st, e, env, k, ls);
                    lemma_on(kd, st0, st, lower_app(st, e, env, k).0, ls);
                },
            }
        },
        Term::Error => {},
    }
}

pub proof fn lemma_loc(kd: Kinds, st: St, e: Term, env: Seq<Name>, k: Name, ls: Set<Var>)
    requires
        okay(kd, st),
        fit(kd, e, ls),
    ensures
        went(kd, st, lower_loc(st, e, env, k).0, ls),
    decreases e, 0nat, 1nat, DtV::Fail, 0nat,
{
    lemma_parts(kd, e, ls);
    lemma_stay(kd, st, ls);
    if let Term::Loc(_, inner) = e {
        lemma_expr(kd, st, *inner, env, k, ls);
    }
}

pub proof fn lemma_tylam(kd: Kinds, st: St, e: Term, env: Seq<Name>, k: Name, ls: Set<Var>)
    requires
        okay(kd, st),
        fit(kd, e, ls),
    ensures
        went(kd, st, lower_tylam(st, e, env, k).0, ls),
    decreases e, 0nat, 1nat, DtV::Fail, 0nat,
{
    lemma_parts(kd, e, ls);
    lemma_stay(kd, st, ls);
    if let Term::TyLam(id, vs, inner) = e {
        if over_types(vs@) {
            lemma_ty_closure(kd, st, id, *inner, env, ls);
            let st1 = ty_closure(st, id, *inner, env).0;
            lemma_fresh_as(st1, Rep::Ref);
            lemma_on_quietly(kd, st, st1, st1.fresh_ref(), ls);
        } else {
            lemma_expr(kd, st, *inner, env, k, ls);
        }
    }
}

pub proof fn lemma_tyapp(kd: Kinds, st: St, e: Term, env: Seq<Name>, k: Name, ls: Set<Var>)
    requires
        okay(kd, st),
        fit(kd, e, ls),
    ensures
        went(kd, st, lower_tyapp(st, e, env, k).0, ls),
    decreases e, 0nat, 1nat, DtV::Fail, 0nat,
{
    lemma_parts(kd, e, ls);
    lemma_stay(kd, st, ls);
    if let Term::TyApp(inner, tys) = e {
        lemma_expr(kd, st, *inner, env, k, ls);
        if let Term::Var(v) = peeled(*inner) {
            if let Some(args) = described_args(st, v, Some(tys@)) {
                lemma_with_descs(st, args, args.len(), env);
                let d = with_descs(st, args, args.len(), env);
                let r = instantiate(d.st, v, d.done, d.env, k);
                assert(quiet(d.st, r.0)) by {
                    reveal(instantiate);
                }
                lemma_quiet_on(st, d.st, r.0);
                lemma_quietly(kd, st, r.0, ls);
            }
        }
    }
}

pub proof fn lemma_lam(kd: Kinds, st: St, e: Term, env: Seq<Name>, k: Name, ls: Set<Var>)
    requires
        okay(kd, st),
        fit(kd, e, ls),
    ensures
        went(kd, st, lower_lam(st, e, env, k).0, ls),
    decreases e, 0nat, 1nat, DtV::Fail, 0nat,
{
    lemma_parts(kd, e, ls);
    lemma_stay(kd, st, ls);
    if let Term::Lam(param, _, body) = e {
        lemma_lambda(kd, st, param, *body, env, ls);
        let st1 = lambda(st, param, *body, env).0;
        lemma_fresh_as(st1, Rep::Ref);
        lemma_on_quietly(kd, st, st1, st1.fresh_ref(), ls);
    }
}

pub proof fn lemma_ctor(kd: Kinds, st: St, e: Term, env: Seq<Name>, k: Name, ls: Set<Var>)
    requires
        okay(kd, st),
        fit(kd, e, ls),
    ensures
        went(kd, st, lower_ctor(st, e, env, k).0, ls),
    decreases e, 0nat, 1nat, DtV::Fail, 0nat,
{
    lemma_parts(kd, e, ls);
    lemma_stay(kd, st, ls);
    if let Term::Ctor(c, ty, args) = e {
        assert(decreases_to!(e => args@));
        let at = st.tagged(c);
        assert(quiet(st, at));
        lemma_quietly(kd, st, at, ls);
        lemma_went(kd, st, at, ls);
        lemma_start_all(kd, at, args@, args@.len(), env, set![k], ls);
        let a = start_all(at, args@, args@.len(), env, set![k]);
        lemma_went(kd, at, a.st, ls);
        lemma_built(a.st, Seq::empty(), c, st.tag(c), a.done, a.env, Some(ty), None);
        let p = built(a.st, Seq::empty(), c, st.tag(c), a.done, a.env, Some(ty), None);
        lemma_quietly(kd, a.st, p.st, ls);
        lemma_went(kd, a.st, p.st, ls);
        lemma_on(kd, at, a.st, p.st, ls);
        let s = plugged(p.frames, ret_v(k, p.x));
        lemma_finish_all(kd, p.st, args@, args@.len(), a.bs, s, ls);
        let f = finish_all(p.st, args@, args@.len(), a.bs, s).0;
        lemma_on(kd, at, p.st, f, ls);
        lemma_on(kd, st, at, f, ls);
    }
}

pub proof fn lemma_tuple(kd: Kinds, st: St, e: Term, env: Seq<Name>, k: Name, ls: Set<Var>)
    requires
        okay(kd, st),
        fit(kd, e, ls),
    ensures
        went(kd, st, lower_tuple(st, e, env, k).0, ls),
    decreases e, 0nat, 1nat, DtV::Fail, 0nat,
{
    lemma_parts(kd, e, ls);
    lemma_stay(kd, st, ls);
    if let Term::Tuple(items) = e {
        assert(decreases_to!(e => items@));
        let at = st.tagged(symbol::TUPLE);
        assert(quiet(st, at));
        lemma_quietly(kd, st, at, ls);
        lemma_went(kd, st, at, ls);
        lemma_start_all(kd, at, items@, items@.len(), env, set![k], ls);
        let a = start_all(at, items@, items@.len(), env, set![k]);
        lemma_went(kd, at, a.st, ls);
        lemma_built(a.st, Seq::empty(), symbol::TUPLE, st.tag(symbol::TUPLE), a.done, a.env, type_of(st, e), None);
        let p = built(a.st, Seq::empty(), symbol::TUPLE, st.tag(symbol::TUPLE), a.done, a.env, type_of(st, e), None);
        lemma_quietly(kd, a.st, p.st, ls);
        lemma_went(kd, a.st, p.st, ls);
        lemma_on(kd, at, a.st, p.st, ls);
        let s = plugged(p.frames, ret_v(k, p.x));
        lemma_finish_all(kd, p.st, items@, items@.len(), a.bs, s, ls);
        let f = finish_all(p.st, items@, items@.len(), a.bs, s).0;
        lemma_on(kd, at, p.st, f, ls);
        lemma_on(kd, st, at, f, ls);
    }
}

pub proof fn lemma_array(kd: Kinds, st: St, e: Term, env: Seq<Name>, k: Name, ls: Set<Var>)
    requires
        okay(kd, st),
        fit(kd, e, ls),
    ensures
        went(kd, st, lower_array(st, e, env, k).0, ls),
    decreases e, 0nat, 1nat, DtV::Fail, 0nat,
{
    lemma_parts(kd, e, ls);
    lemma_stay(kd, st, ls);
    if let Term::Array(items, _) = e {
        assert(decreases_to!(e => items@));
        lemma_start_all(kd, st, items@, items@.len(), env, set![k], ls);
        let a = start_all(st, items@, items@.len(), env, set![k]);
        lemma_went(kd, st, a.st, ls);
        lemma_produced(a.st, Seq::empty(), ExternV::Array, a.done, a.env, type_of(st, e), None);
        let p = produced(a.st, Seq::empty(), ExternV::Array, a.done, a.env, type_of(st, e), None);
        lemma_quietly(kd, a.st, p.st, ls);
        lemma_went(kd, a.st, p.st, ls);
        lemma_on(kd, st, a.st, p.st, ls);
        let s = plugged(p.frames, ret_v(k, p.x));
        lemma_finish_all(kd, p.st, items@, items@.len(), a.bs, s, ls);
        let f = finish_all(p.st, items@, items@.len(), a.bs, s).0;
        lemma_on(kd, st, p.st, f, ls);
    }
}

pub proof fn lemma_record(kd: Kinds, st: St, e: Term, env: Seq<Name>, k: Name, ls: Set<Var>)
    requires
        okay(kd, st),
        fit(kd, e, ls),
    ensures
        went(kd, st, lower_record(st, e, env, k).0, ls),
    decreases e, 0nat, 1nat, DtV::Fail, 0nat,
{
    lemma_parts(kd, e, ls);
    lemma_stay(kd, st, ls);
    if let Term::Record(labels, xs) = e {
        assert(decreases_to!(e => xs@));
        lemma_start_all(kd, st, xs@, xs@.len(), env, set![k], ls);
        let a = start_all(st, xs@, xs@.len(), env, set![k]);
        lemma_went(kd, st, a.st, ls);
        lemma_produced(a.st, Seq::empty(), ExternV::Record(labels@), a.done, a.env, type_of(st, e), None);
        let p = produced(a.st, Seq::empty(), ExternV::Record(labels@), a.done, a.env, type_of(st, e), None);
        lemma_quietly(kd, a.st, p.st, ls);
        lemma_went(kd, a.st, p.st, ls);
        lemma_on(kd, st, a.st, p.st, ls);
        let s = plugged(p.frames, ret_v(k, p.x));
        lemma_finish_all(kd, p.st, xs@, xs@.len(), a.bs, s, ls);
        let f = finish_all(p.st, xs@, xs@.len(), a.bs, s).0;
        lemma_on(kd, st, p.st, f, ls);
    }
}

pub proof fn lemma_sel(kd: Kinds, st: St, e: Term, env: Seq<Name>, k: Name, ls: Set<Var>)
    requires
        okay(kd, st),
        fit(kd, e, ls),
    ensures
        went(kd, st, lower_sel(st, e, env, k).0, ls),
    decreases e, 0nat, 1nat, DtV::Fail, 0nat,
{
    lemma_parts(kd, e, ls);
    lemma_stay(kd, st, ls);
    if let Term::Sel(rec, label, ty) = e {
        lemma_direct(kd, st, *rec, env, None, ls);
        let d = direct(st, *rec, env, None);
        lemma_started(kd, st, *rec, env, restricted(env, set![k]), None, d, ls);
        let (st1, b) = begin(st, *rec, env, restricted(env, set![k]), None, d);
        lemma_went(kd, st, st1, ls);
        lemma_produced(st1, Seq::empty(), ExternV::Select(label), seq![b.x], b.env, Some(ty), None);
        let p = produced(st1, Seq::empty(), ExternV::Select(label), seq![b.x], b.env, Some(ty), None);
        lemma_on_quietly(kd, st, st1, p.st, ls);
        lemma_went(kd, st, p.st, ls);
        lemma_expr(kd, p.st, *rec, seq![b.kk] + b.outer, b.kk, ls);
        lemma_finished(kd, st, p.st, b, plugged(p.frames, ret_v(k, p.x)), expr(p.st, *rec, seq![b.kk] + b.outer, b.kk), ls);
    }
}

pub proof fn lemma_proj(kd: Kinds, st: St, e: Term, env: Seq<Name>, k: Name, ls: Set<Var>)
    requires
        okay(kd, st),
        fit(kd, e, ls),
    ensures
        went(kd, st, lower_proj(st, e, env, k).0, ls),
    decreases e, 0nat, 1nat, DtV::Fail, 0nat,
{
    lemma_parts(kd, e, ls);
    lemma_stay(kd, st, ls);
    if let Term::Proj(t, i) = e {
        lemma_direct(kd, st, *t, env, None, ls);
        let d = direct(st, *t, env, None);
        lemma_started(kd, st, *t, env, restricted(env, set![k]), None, d, ls);
        let (st1, b) = begin(st, *t, env, restricted(env, set![k]), None, d);
        lemma_went(kd, st, st1, ls);
        lemma_produced(st1, Seq::empty(), ExternV::Field(i), seq![b.x], b.env, type_of(st, e), None);
        let p = produced(st1, Seq::empty(), ExternV::Field(i), seq![b.x], b.env, type_of(st, e), None);
        lemma_on_quietly(kd, st, st1, p.st, ls);
        lemma_went(kd, st, p.st, ls);
        lemma_expr(kd, p.st, *t, seq![b.kk] + b.outer, b.kk, ls);
        lemma_finished(kd, st, p.st, b, plugged(p.frames, ret_v(k, p.x)), expr(p.st, *t, seq![b.kk] + b.outer, b.kk), ls);
    }
}

pub proof fn lemma_perform(kd: Kinds, st: St, e: Term, env: Seq<Name>, k: Name, ls: Set<Var>)
    requires
        okay(kd, st),
        fit(kd, e, ls),
    ensures
        went(kd, st, lower_perform(st, e, env, k).0, ls),
    decreases e, 0nat, 1nat, DtV::Fail, 0nat,
{
    lemma_parts(kd, e, ls);
    lemma_stay(kd, st, ls);
    if let Term::Perform(effect, op, arg, ty) = e {
        let keep = restricted(env, set![k, st.ev]);
        lemma_direct(kd, st, *arg, env, None, ls);
        let d = direct(st, *arg, env, None);
        lemma_started(kd, st, *arg, env, keep, None, d, ls);
        let (st1, b) = begin(st, *arg, env, keep, None, d);
        lemma_went(kd, st, st1, ls);
        let aty = type_of(st, *arg);
        lemma_operation(kd, st1, effect, op, b.x, k, st.ev, aty, Some(ty), ls);
        let (st2, s) = perform(st1, effect, op, b.x, k, st.ev, aty, Some(ty));
        lemma_on(kd, st, st1, st2, ls);
        lemma_went(kd, st, st2, ls);
        lemma_expr(kd, st2, *arg, seq![b.kk] + b.outer, b.kk, ls);
        lemma_finished(kd, st, st2, b, s, expr(st2, *arg, seq![b.kk] + b.outer, b.kk), ls);
    }
}

pub proof fn lemma_lambda(kd: Kinds, st: St, param: Var, body: Term, env: Seq<Name>, ls: Set<Var>)
    requires
        okay(kd, st),
        fit(kd, body, ls),
    ensures
        went(kd, st, lambda(st, param, body, env).0, ls),
    decreases body, 0nat, 3nat, DtV::Fail, 0nat,
{
    let captures = restricted(env, wants(st, body, seq![param]).remove(st.ev));
    let ik = st.next_name;
    let st1 = st.function_return();
    assert(quiet(st, st1));
    let iev = st1.next_name;
    let st2 = st1.fresh_ref();
    lemma_fresh_as(st1, Rep::Ref);
    lemma_quiet_on(st, st1, st2);
    lemma_quietly(kd, st, st2, ls);
    lemma_went(kd, st, st2, ls);
    lemma_ev(kd, st);
    lemma_other_ev(kd, st2, iev);
    let params = captures.push(param).push(ik).push(iev);
    lemma_expr(kd, st2.with_ev(iev), body, params, ik, ls);
    let st3 = expr(st2.with_ev(iev), body, params, ik).0;
    lemma_back_ev(kd, st2, iev, st3, ls);
    lemma_on(kd, st, st2, st3.with_ev(st.ev), ls);
}

pub proof fn lemma_ty_closure(kd: Kinds, st: St, id: u32, body: Term, env: Seq<Name>, ls: Set<Var>)
    requires
        okay(kd, st),
        fit(kd, body, ls),
    ensures
        went(kd, st, ty_closure(st, id, body, env).0, ls),
    decreases body, 0nat, 3nat, DtV::Fail, 0nat,
{
    let captures = restricted(env, wants(st, body, Seq::empty()));
    let kk = st.next_name;
    let st1 = st.function_return();
    assert(quiet(st, st1));
    lemma_quietly(kd, st, st1, ls);
    lemma_went(kd, st, st1, ls);
    let names = st1.desc_names(id);
    lemma_desc_names(kd, st1, id);
    lemma_more_scope(kd, st1, names);
    let params = (captures + seconds(names)).push(kk);
    lemma_expr(kd, st1.more_scope(names), body, params, kk, ls);
    let st2 = expr(st1.more_scope(names), body, params, kk).0;
    lemma_back_scope(kd, st1, names, st2, ls);
    lemma_on(kd, st, st1, st2.cut_scope(st.tscope.len()), ls);
}

pub proof fn lemma_direct(kd: Kinds, st: St, e: Term, env: Seq<Name>, name: Option<Name>, ls: Set<Var>)
    requires
        okay(kd, st),
        fit(kd, e, ls),
    ensures
        went(kd, st, direct(st, e, env, name).st, ls),
    decreases e, 0nat, 1nat, DtV::Fail, 0nat,
{
    lemma_parts(kd, e, ls);
    lemma_stay(kd, st, ls);
    match e {
        Term::TyLam(_, _, _) | Term::Lam(_, _, _) => {
            lemma_direct_object(kd, st, e, env, name, ls);
        },
        Term::TyApp(inner, _) => {
            lemma_direct(kd, st, *inner, env, name, ls);
        },
        Term::Loc(_, _) => {
            lemma_direct_loc(kd, st, e, env, name, ls);
        },
        Term::Lit(l) => {
            lemma_produced(st, Seq::empty(), ExternV::Lit(l), Seq::empty(), env, type_of(st, e), name);
            lemma_quietly(kd, st, direct(st, e, env, name).st, ls);
        },
        Term::Prim(_, _, _) => {
            lemma_direct_prim(kd, st, e, env, name, ls);
        },
        Term::Ctor(_, _, _) | Term::Tuple(_) => {
            lemma_direct_data(kd, st, e, env, name, ls);
        },
        Term::Array(_, _) | Term::Record(_, _) => {
            lemma_direct_list(kd, st, e, env, name, ls);
        },
        Term::Sel(_, _, _) | Term::Proj(_, _) => {
            lemma_direct_read(kd, st, e, env, name, ls);
        },
        Term::Extend(_, _, _) => {
            lemma_direct_extend(kd, st, e, env, name, ls);
        },
        Term::Let(_, _, _, _) => {
            lemma_direct_let(kd, st, e, env, name, ls);
        },
        _ => {},
    }
}

pub proof fn lemma_direct_loc(kd: Kinds, st: St, e: Term, env: Seq<Name>, name: Option<Name>, ls: Set<Var>)
    requires
        okay(kd, st),
        fit(kd, e, ls),
    ensures
        went(kd, st, direct_loc(st, e, env, name).st, ls),
    decreases e, 0nat, 0nat, DtV::Fail, 0nat,
{
    lemma_parts(kd, e, ls);
    lemma_stay(kd, st, ls);
    if let Term::Loc(_, inner) = e {
        lemma_direct(kd, st, *inner, env, name, ls);
    }
}

pub proof fn lemma_direct_object(kd: Kinds, st: St, e: Term, env: Seq<Name>, name: Option<Name>, ls: Set<Var>)
    requires
        okay(kd, st),
        fit(kd, e, ls),
    ensures
        went(kd, st, direct_object(st, e, env, name).st, ls),
    decreases e, 0nat, 0nat, DtV::Fail, 0nat,
{
    lemma_parts(kd, e, ls);
    lemma_stay(kd, st, ls);
    match e {
        Term::TyLam(id, vs, inner) => {
            if over_types(vs@) {
                lemma_ty_closure(kd, st, id, *inner, env, ls);
                let (st1, captures, method) = ty_closure(st, id, *inner, env);
                lemma_made(st1, captures, method, env, name);
                lemma_on_quietly(kd, st, st1, made(st1, captures, method, env, name).st, ls);
            } else {
                lemma_direct(kd, st, *inner, env, name, ls);
            }
        },
        Term::Lam(param, _, body) => {
            lemma_lambda(kd, st, param, *body, env, ls);
            let (st1, captures, method) = lambda(st, param, *body, env);
            lemma_made(st1, captures, method, env, name);
            lemma_on_quietly(kd, st, st1, made(st1, captures, method, env, name).st, ls);
        },
        _ => {},
    }
}

pub proof fn lemma_direct_prim(kd: Kinds, st: St, e: Term, env: Seq<Name>, name: Option<Name>, ls: Set<Var>)
    requires
        okay(kd, st),
        fit(kd, e, ls),
    ensures
        went(kd, st, direct_prim(st, e, env, name).st, ls),
    decreases e, 0nat, 0nat, DtV::Fail, 0nat,
{
    lemma_parts(kd, e, ls);
    lemma_stay(kd, st, ls);
    if let Term::Prim(p, args, _) = e {
        assert(decreases_to!(e => args@));
        match const_arg(p, args@) {
            Some((i, l)) => {
                let x = args@[if i == 0 { 0 } else { 1 }];
                assert(decreases_to!(args@ => x));
                lemma_item(kd, args@, ls, if i == 0 { 0 } else { 1 });
                lemma_direct(kd, st, x, env, None, ls);
                let d = direct(st, x, env, None);
                lemma_produced(d.st, d.frames, ExternV::PrimK(p, l), seq![d.x], d.env, type_of(st, e), name);
                lemma_on_quietly(kd, st, d.st, produced(d.st, d.frames, ExternV::PrimK(p, l), seq![d.x], d.env, type_of(st, e), name).st, ls);
            },
            None => {
                lemma_direct_all(kd, st, args@, args@.len(), env, ls);
                let d = direct_all(st, args@, args@.len(), env);
                lemma_produced(d.st, d.frames, ExternV::Prim(p), d.done, d.env, type_of(st, e), name);
                lemma_on_quietly(kd, st, d.st, produced(d.st, d.frames, ExternV::Prim(p), d.done, d.env, type_of(st, e), name).st, ls);
            },
        }
    }
}

pub proof fn lemma_direct_data(kd: Kinds, st: St, e: Term, env: Seq<Name>, name: Option<Name>, ls: Set<Var>)
    requires
        okay(kd, st),
        fit(kd, e, ls),
    ensures
        went(kd, st, direct_data(st, e, env, name).st, ls),
    decreases e, 0nat, 0nat, DtV::Fail, 0nat,
{
    lemma_parts(kd, e, ls);
    lemma_stay(kd, st, ls);
    match e {
        Term::Ctor(c, _, args) => {
            assert(decreases_to!(e => args@));
            let at = st.tagged(c);
            assert(quiet(st, at));
            lemma_quietly(kd, st, at, ls);
            lemma_went(kd, st, at, ls);
            lemma_direct_all(kd, at, args@, args@.len(), env, ls);
            let d = direct_all(at, args@, args@.len(), env);
            lemma_on(kd, st, at, d.st, ls);
            lemma_built(d.st, d.frames, c, st.tag(c), d.done, d.env, type_of(st, e), name);
            let p = built(d.st, d.frames, c, st.tag(c), d.done, d.env, type_of(st, e), name);
            lemma_on_quietly(kd, st, d.st, p.st, ls);
        },
        Term::Tuple(items) => {
            assert(decreases_to!(e => items@));
            let at = st.tagged(symbol::TUPLE);
            assert(quiet(st, at));
            lemma_quietly(kd, st, at, ls);
            lemma_went(kd, st, at, ls);
            lemma_direct_all(kd, at, items@, items@.len(), env, ls);
            let d = direct_all(at, items@, items@.len(), env);
            lemma_on(kd, st, at, d.st, ls);
            lemma_built(d.st, d.frames, symbol::TUPLE, st.tag(symbol::TUPLE), d.done, d.env, type_of(st, e), name);
            let p = built(d.st, d.frames, symbol::TUPLE, st.tag(symbol::TUPLE), d.done, d.env, type_of(st, e), name);
            lemma_on_quietly(kd, st, d.st, p.st, ls);
        },
        _ => {},
    }
}

pub proof fn lemma_direct_list(kd: Kinds, st: St, e: Term, env: Seq<Name>, name: Option<Name>, ls: Set<Var>)
    requires
        okay(kd, st),
        fit(kd, e, ls),
    ensures
        went(kd, st, direct_list(st, e, env, name).st, ls),
    decreases e, 0nat, 0nat, DtV::Fail, 0nat,
{
    lemma_parts(kd, e, ls);
    lemma_stay(kd, st, ls);
    match e {
        Term::Array(items, _) => {
            assert(decreases_to!(e => items@));
            lemma_direct_all(kd, st, items@, items@.len(), env, ls);
            let d = direct_all(st, items@, items@.len(), env);
            lemma_produced(d.st, d.frames, ExternV::Array, d.done, d.env, type_of(st, e), name);
            lemma_on_quietly(kd, st, d.st, produced(d.st, d.frames, ExternV::Array, d.done, d.env, type_of(st, e), name).st, ls);
        },
        Term::Record(labels, xs) => {
            assert(decreases_to!(e => xs@));
            lemma_direct_all(kd, st, xs@, xs@.len(), env, ls);
            let d = direct_all(st, xs@, xs@.len(), env);
            lemma_produced(d.st, d.frames, ExternV::Record(labels@), d.done, d.env, type_of(st, e), name);
            lemma_on_quietly(kd, st, d.st, produced(d.st, d.frames, ExternV::Record(labels@), d.done, d.env, type_of(st, e), name).st, ls);
        },
        _ => {},
    }
}

pub proof fn lemma_direct_read(kd: Kinds, st: St, e: Term, env: Seq<Name>, name: Option<Name>, ls: Set<Var>)
    requires
        okay(kd, st),
        fit(kd, e, ls),
    ensures
        went(kd, st, direct_read(st, e, env, name).st, ls),
    decreases e, 0nat, 0nat, DtV::Fail, 0nat,
{
    lemma_parts(kd, e, ls);
    lemma_stay(kd, st, ls);
    match e {
        Term::Sel(rec, label, _) => {
            lemma_direct(kd, st, *rec, env, None, ls);
            let d = direct(st, *rec, env, None);
            lemma_produced(d.st, d.frames, ExternV::Select(label), seq![d.x], d.env, type_of(st, e), name);
            lemma_on_quietly(kd, st, d.st, produced(d.st, d.frames, ExternV::Select(label), seq![d.x], d.env, type_of(st, e), name).st, ls);
        },
        Term::Proj(t, i) => {
            lemma_direct(kd, st, *t, env, None, ls);
            let d = direct(st, *t, env, None);
            lemma_produced(d.st, d.frames, ExternV::Field(i), seq![d.x], d.env, type_of(st, e), name);
            lemma_on_quietly(kd, st, d.st, produced(d.st, d.frames, ExternV::Field(i), seq![d.x], d.env, type_of(st, e), name).st, ls);
        },
        _ => {},
    }
}

pub proof fn lemma_direct_extend(kd: Kinds, st: St, e: Term, env: Seq<Name>, name: Option<Name>, ls: Set<Var>)
    requires
        okay(kd, st),
        fit(kd, e, ls),
    ensures
        went(kd, st, direct_extend(st, e, env, name).st, ls),
    decreases e, 0nat, 0nat, DtV::Fail, 0nat,
{
    lemma_parts(kd, e, ls);
    lemma_stay(kd, st, ls);
    if let Term::Extend(rec, label, val) = e {
        lemma_direct(kd, st, *rec, env, None, ls);
        let r = direct(st, *rec, env, None);
        lemma_went(kd, st, r.st, ls);
        lemma_direct(kd, r.st, *val, r.env, None, ls);
        let d = direct(r.st, *val, r.env, None);
        lemma_on(kd, st, r.st, d.st, ls);
        lemma_produced(d.st, r.frames + d.frames, ExternV::Extend(label), seq![r.x, d.x], d.env, type_of(st, e), name);
        lemma_on_quietly(kd, st, d.st, produced(d.st, r.frames + d.frames, ExternV::Extend(label), seq![r.x, d.x], d.env, type_of(st, e), name).st, ls);
    }
}

pub proof fn lemma_direct_let(kd: Kinds, st: St, e: Term, env: Seq<Name>, name: Option<Name>, ls: Set<Var>)
    requires
        okay(kd, st),
        fit(kd, e, ls),
    ensures
        went(kd, st, direct_let(st, e, env, name).st, ls),
    decreases e, 0nat, 0nat, DtV::Fail, 0nat,
{
    lemma_parts(kd, e, ls);
    lemma_stay(kd, st, ls);
    if let Term::Let(x, _, rhs, body) = e {
        lemma_direct(kd, st, *rhs, env, Some(x), ls);
        let r = direct(st, *rhs, env, Some(x));
        lemma_went(kd, st, r.st, ls);
        lemma_direct(kd, r.st, *body, r.env, name, ls);
        lemma_on(kd, st, r.st, direct(r.st, *body, r.env, name).st, ls);
    }
}

pub proof fn lemma_direct_all(kd: Kinds, st: St, es: Seq<Term>, n: nat, env: Seq<Name>, ls: Set<Var>)
    requires
        okay(kd, st),
        fit_all(kd, es, ls),
    ensures
        went(kd, st, direct_all(st, es, n, env).st, ls),
    decreases es, n, 0nat, DtV::Fail, 0nat,
{
    lemma_stay(kd, st, ls);
    if n > 0 && n <= es.len() {
        lemma_direct_all(kd, st, es, (n - 1) as nat, env, ls);
        let a = direct_all(st, es, (n - 1) as nat, env);
        lemma_went(kd, st, a.st, ls);
        assert(decreases_to!(es => es[n - 1]));
        lemma_item(kd, es, ls, n - 1);
        lemma_direct(kd, a.st, es[n - 1], a.env, None, ls);
        lemma_on(kd, st, a.st, direct(a.st, es[n - 1], a.env, None).st, ls);
    }
}

pub proof fn lemma_start_all(kd: Kinds, st: St, es: Seq<Term>, n: nat, env: Seq<Name>, base: Set<Name>, ls: Set<Var>)
    requires
        okay(kd, st),
        fit_all(kd, es, ls),
    ensures
        went(kd, st, start_all(st, es, n, env, base).st, ls),
    decreases es, n, 0nat, DtV::Fail, 0nat,
{
    lemma_stay(kd, st, ls);
    if n > 0 && n <= es.len() {
        lemma_start_all(kd, st, es, (n - 1) as nat, env, base, ls);
        let a = start_all(st, es, (n - 1) as nat, env, base);
        let want = base.union(a.done.to_set()).union(wants_all(a.st, es.skip(n as int), Seq::empty()));
        lemma_went(kd, st, a.st, ls);
        assert(decreases_to!(es => es[n - 1]));
        lemma_item(kd, es, ls, n - 1);
        let keep = restricted(a.env, want);
        lemma_direct(kd, a.st, es[n - 1], a.env, None, ls);
        let d = direct(a.st, es[n - 1], a.env, None);
        lemma_started(kd, a.st, es[n - 1], a.env, keep, None, d, ls);
        let (st1, b) = begin(a.st, es[n - 1], a.env, keep, None, d);
        lemma_went(kd, a.st, st1, ls);
        lemma_on(kd, st, a.st, st1, ls);
    }
}

pub proof fn lemma_finish_all(kd: Kinds, st: St, es: Seq<Term>, n: nat, bs: Seq<BoundV>, body: StmtV, ls: Set<Var>)
    requires
        okay(kd, st),
        fit_all(kd, es, ls),
    ensures
        went(kd, st, finish_all(st, es, n, bs, body).0, ls),
    decreases es, n, 1nat, DtV::Fail, 0nat,
{
    lemma_stay(kd, st, ls);
    if n > 0 && n <= es.len() {
        let b = bs[n - 1];
        assert(decreases_to!(es => es[n - 1]));
        lemma_item(kd, es, ls, n - 1);
        lemma_went(kd, st, st, ls);
        lemma_expr(kd, st, es[n - 1], seq![b.kk] + b.outer, b.kk, ls);
        lemma_finished(kd, st, st, b, body, expr(st, es[n - 1], seq![b.kk] + b.outer, b.kk), ls);
        let (st1, s) = ended(st, b, body, expr(st, es[n - 1], seq![b.kk] + b.outer, b.kk));
        lemma_went(kd, st, st1, ls);
        lemma_finish_all(kd, st1, es, (n - 1) as nat, bs, s, ls);
        lemma_on(kd, st, st1, finish_all(st1, es, (n - 1) as nat, bs, s).0, ls);
    }
}

pub proof fn lemma_app(kd: Kinds, st: St, e: Term, env: Seq<Name>, k: Name, ls: Set<Var>)
    requires
        okay(kd, st),
        fit(kd, e, ls),
    ensures
        went(kd, st, lower_app(st, e, env, k).0, ls),
    decreases e, 0nat, 1nat, DtV::Fail, 0nat,
{
    lemma_parts(kd, e, ls);
    lemma_stay(kd, st, ls);
    if let Term::App(fun, arg) = e {
        let ev = st.ev;
        let keep = restricted(env, wants(st, *arg, Seq::empty()).union(set![k, ev]));
        lemma_direct(kd, st, *fun, env, None, ls);
        let d = direct(st, *fun, env, None);
        lemma_started(kd, st, *fun, env, keep, None, d, ls);
        let (st1, f) = begin(st, *fun, env, keep, None, d);
        lemma_went(kd, st, st1, ls);
        let keep2 = restricted(f.env, set![k, f.x, ev]);
        lemma_direct(kd, st1, *arg, f.env, None, ls);
        let d2 = direct(st1, *arg, f.env, None);
        lemma_started(kd, st1, *arg, f.env, keep2, None, d2, ls);
        let (st2, a) = begin(st1, *arg, f.env, keep2, None, d2);
        lemma_went(kd, st1, st2, ls);
        lemma_on(kd, st, st1, st2, ls);
        let call = invoke_v(seq![f.x, a.x, k, ev], f.x);
        lemma_went(kd, st, st2, ls);
        lemma_expr(kd, st2, *arg, seq![a.kk] + a.outer, a.kk, ls);
        lemma_finished(kd, st, st2, a, call, expr(st2, *arg, seq![a.kk] + a.outer, a.kk), ls);
        let (st3, s) = ended(st2, a, call, expr(st2, *arg, seq![a.kk] + a.outer, a.kk));
        lemma_went(kd, st, st3, ls);
        lemma_expr(kd, st3, *fun, seq![f.kk] + f.outer, f.kk, ls);
        lemma_finished(kd, st, st3, f, s, expr(st3, *fun, seq![f.kk] + f.outer, f.kk), ls);
    }
}

pub proof fn lemma_let(kd: Kinds, st: St, e: Term, env: Seq<Name>, k: Name, ls: Set<Var>)
    requires
        okay(kd, st),
        fit(kd, e, ls),
    ensures
        went(kd, st, lower_let(st, e, env, k).0, ls),
    decreases e, 0nat, 1nat, DtV::Fail, 0nat,
{
    lemma_parts(kd, e, ls);
    lemma_stay(kd, st, ls);
    if let Term::Let(x, _, rhs, body) = e {
        let keep = restricted(env, wants(st, *body, seq![x]).insert(k));
        lemma_direct(kd, st, *rhs, env, Some(x), ls);
        let d = direct(st, *rhs, env, Some(x));
        lemma_started(kd, st, *rhs, env, keep, Some(x), d, ls);
        let (st1, b) = begin(st, *rhs, env, keep, Some(x), d);
        lemma_went(kd, st, st1, ls);
        lemma_expr(kd, st1, *body, b.env, k, ls);
        let (st2, s) = expr(st1, *body, b.env, k);
        lemma_on(kd, st, st1, st2, ls);
        lemma_went(kd, st, st2, ls);
        lemma_expr(kd, st2, *rhs, seq![b.kk] + b.outer, b.kk, ls);
        lemma_finished(kd, st, st2, b, s, expr(st2, *rhs, seq![b.kk] + b.outer, b.kk), ls);
    }
}

pub proof fn lemma_join(kd: Kinds, st: St, e: Term, env: Seq<Name>, k: Name, ls: Set<Var>)
    requires
        okay(kd, st),
        fit(kd, e, ls),
    ensures
        went(kd, st, lower_join(st, e, env, k).0, ls),
    decreases e, 0nat, 1nat, DtV::Fail, 0nat,
{
    lemma_parts(kd, e, ls);
    lemma_stay(kd, st, ls);
    if let Term::Join { var, params, rhs, body, .. } = e {
        let ps = params_of(params@);
        let fvs = restricted(env, wants(st, *rhs, ps).remove(st.ev));
        lemma_parts(kd, *rhs, ls);
        lemma_below(kd, st, *rhs, ps, env);
        let label = st.next_label;
        let st1 = st.fresh_label();
        lemma_label(kd, st, ls);
        lemma_went(kd, st, st1, ls);
        lemma_join_known(kd, st1, var, label, fvs, ls);
        let st2 = St { joins: st1.joins.insert(var, (label, fvs)), ..st1 };
        lemma_went(kd, st1, st2, ls);
        let kk = st2.next_name;
        let st3 = st2.function_return();
        assert(quiet(st2, st3));
        let iev = st3.next_name;
        let st4 = st3.fresh_ref();
        lemma_fresh_as(st3, Rep::Ref);
        lemma_quiet_on(st2, st3, st4);
        lemma_quietly(kd, st2, st4, ls);
        lemma_went(kd, st2, st4, ls);
        lemma_ev(kd, st2);
        lemma_other_ev(kd, st4, iev);
        let block = (fvs + ps).push(kk).push(iev);
        lemma_expr(kd, st4.with_ev(iev), *rhs, block, kk, ls);
        let (st5, made) = expr(st4.with_ev(iev), *rhs, block, kk);
        lemma_back_ev(kd, st4, iev, st5, ls);
        let back = st5.with_ev(st.ev);
        lemma_on(kd, st1, st2, st4, ls);
        lemma_on(kd, st1, st4, back, ls);
        let st6 = back.wrote(label, symbol::JOIN_BLOCK, BlockV { params: block, body: made });
        lemma_written(kd, st, back, symbol::JOIN_BLOCK, BlockV { params: block, body: made }, ls);
        lemma_went(kd, st, st6, ls);
        lemma_expr(kd, st6, *body, env, k, ls);
        lemma_on(kd, st, st6, expr(st6, *body, env, k).0, ls);
    }
}

pub proof fn lemma_jump(kd: Kinds, st: St, e: Term, env: Seq<Name>, k: Name, ls: Set<Var>)
    requires
        okay(kd, st),
        fit(kd, e, ls),
    ensures
        went(kd, st, lower_jump(st, e, env, k).0, ls),
    decreases e, 0nat, 1nat, DtV::Fail, 0nat,
{
    lemma_parts(kd, e, ls);
    lemma_stay(kd, st, ls);
    if let Term::Jump(j, args, _) = e {
        if st.joins.contains_key(j) {
            let (label, fvs) = st.joins[j];
            let base = set![k, st.ev].union(fvs.to_set());
            assert(decreases_to!(e => args@));
            lemma_start_all(kd, st, args@, args@.len(), env, base, ls);
            let a = start_all(st, args@, args@.len(), env, base);
            lemma_went(kd, st, a.st, ls);
            let s = jump_v((fvs + a.done).push(k).push(st.ev), Label(label));
            lemma_finish_all(kd, a.st, args@, args@.len(), a.bs, s, ls);
            lemma_on(kd, st, a.st, finish_all(a.st, args@, args@.len(), a.bs, s).0, ls);
        }
    }
}

pub proof fn lemma_under(kd: Kinds, st: St, t: Term, env: Seq<Name>, k: Name, ls: Set<Var>)
    requires
        okay(kd, st),
        fit(kd, t, ls),
    ensures
        went(kd, st, lower_under(st, t, env, k).0, ls),
    decreases t, 0nat, 3nat, DtV::Fail, 0nat,
{
    lemma_parts(kd, t, ls);
    match t {
        Term::Loc(_, inner) => {
            lemma_under(kd, st, *inner, env, k, ls);
        },
        Term::TyLam(_, _, body) => {
            lemma_expr(kd, st, *body, env, k, ls);
        },
        _ => {
            lemma_expr(kd, st, t, env, k, ls);
        },
    }
}

pub proof fn lemma_resumed(kd: Kinds, st: St, t: Term, env: Seq<Name>, k: Name, ls: Set<Var>)
    requires
        okay(kd, st),
        fit(kd, t, ls),
    ensures
        went(kd, st, lower_resumed(st, t, env, k).0, ls),
    decreases t, 0nat, 3nat, DtV::Fail, 0nat,
{
    lemma_parts(kd, t, ls);
    match t {
        Term::Loc(_, inner) => {
            lemma_resumed(kd, st, *inner, env, k, ls);
        },
        Term::App(_, e) => {
            lemma_expr(kd, st, *e, env, k, ls);
        },
        _ => {
            lemma_expr(kd, st, t, env, k, ls);
        },
    }
}

pub proof fn lemma_start_args(kd: Kinds, st: St, t: Term, env: Seq<Name>, base: Set<Name>, later: Seq<Term>, ls: Set<Var>)
    requires
        okay(kd, st),
        fit(kd, t, ls),
    ensures
        went(kd, st, start_args(st, t, env, base, later).st, ls),
    decreases t, 0nat, 0nat, DtV::Fail, 0nat,
{
    lemma_parts(kd, t, ls);
    lemma_stay(kd, st, ls);
    match t {
        Term::Loc(_, inner) => {
            lemma_start_args(kd, st, *inner, env, base, later, ls);
        },
        Term::App(f, arg) => {
            lemma_start_args(kd, st, *f, env, base, seq![*arg] + later, ls);
            let a = start_args(st, *f, env, base, seq![*arg] + later);
            lemma_went(kd, st, a.st, ls);
            let want = base.union(a.done.to_set()).union(wants_all(a.st, later, Seq::empty()));
            let keep = restricted(a.env, want);
            lemma_direct(kd, a.st, *arg, a.env, None, ls);
            let d = direct(a.st, *arg, a.env, None);
            lemma_started(kd, a.st, *arg, a.env, keep, None, d, ls);
            let (st1, b) = begin(a.st, *arg, a.env, keep, None, d);
            lemma_went(kd, a.st, st1, ls);
            lemma_on(kd, st, a.st, st1, ls);
        },
        _ => {},
    }
}

pub proof fn lemma_finish_args(kd: Kinds, st: St, t: Term, bs: Seq<BoundV>, body: StmtV, ls: Set<Var>)
    requires
        okay(kd, st),
        fit(kd, t, ls),
    ensures
        went(kd, st, finish_args(st, t, bs, body).0, ls),
    decreases t, 0nat, 0nat, DtV::Fail, 0nat,
{
    lemma_parts(kd, t, ls);
    lemma_stay(kd, st, ls);
    match t {
        Term::Loc(_, inner) => {
            lemma_finish_args(kd, st, *inner, bs, body, ls);
        },
        Term::App(f, arg) => {
            if bs.len() > 0 {
                let b = bs.last();
                lemma_went(kd, st, st, ls);
                lemma_expr(kd, st, *arg, seq![b.kk] + b.outer, b.kk, ls);
                lemma_finished(kd, st, st, b, body, expr(st, *arg, seq![b.kk] + b.outer, b.kk), ls);
                let (st1, s) = ended(st, b, body, expr(st, *arg, seq![b.kk] + b.outer, b.kk));
                lemma_went(kd, st, st1, ls);
                lemma_finish_args(kd, st1, *f, bs.drop_last(), s, ls);
                lemma_on(kd, st, st1, finish_args(st1, *f, bs.drop_last(), s).0, ls);
            }
        },
        _ => {},
    }
}

pub proof fn lemma_known(kd: Kinds, st: St, e: Term, f: Var, env: Seq<Name>, k: Name, ls: Set<Var>)
    requires
        okay(kd, st),
        fit(kd, e, ls),
    ensures
        went(kd, st, lower_known(st, e, f, env, k).0, ls),
    decreases e, 0nat, 1nat, DtV::Fail, 0nat,
{
    let takes = st.worker_ev.contains(f);
    let base = if takes {
        set![k, st.ev]
    } else {
        set![k]
    };
    lemma_start_args(kd, st, e, env, base, Seq::empty(), ls);
    let a = start_args(st, e, env, base, Seq::empty());
    lemma_went(kd, st, a.st, ls);
    lemma_stay(kd, a.st, ls);
    if let Some(tys) = described_args(st, f, head_tys(e)) {
        lemma_with_descs(a.st, tys, tys.len(), a.env);
        lemma_quietly(kd, a.st, with_descs(a.st, tys, tys.len(), a.env).st, ls);
    }
    let d = match described_args(st, f, head_tys(e)) {
        Some(tys) => with_descs(a.st, tys, tys.len(), a.env),
        None => SeveralV { st: a.st, frames: Seq::empty(), done: Seq::empty(), env: a.env },
    };
    lemma_on(kd, st, a.st, d.st, ls);
    lemma_went(kd, st, d.st, ls);
    let sel = (d.done + a.done).push(k);
    let all = if takes {
        sel.push(st.ev)
    } else {
        sel
    };
    let s = plugged(d.frames, jump_v(all, Label(st.workers[f].0)));
    lemma_finish_args(kd, d.st, e, a.bs, s, ls);
    lemma_on(kd, st, d.st, finish_args(d.st, e, a.bs, s).0, ls);
}

pub proof fn lemma_if(kd: Kinds, st: St, e: Term, env: Seq<Name>, k: Name, ls: Set<Var>)
    requires
        okay(kd, st),
        fit(kd, e, ls),
    ensures
        went(kd, st, lower_if(st, e, env, k).0, ls),
    decreases e, 0nat, 1nat, DtV::Fail, 0nat,
{
    lemma_parts(kd, e, ls);
    lemma_stay(kd, st, ls);
    if let Term::If(c, t, f) = e {
        lemma_branch(kd, st, e, env, k, ls);
        if let Term::Prim(p, cargs, _) = *c {
            lemma_parts(kd, *c, ls);
            assert(decreases_to!(e => c));
            assert(decreases_to!(c => cargs@));
            match const_arg(p, cargs@) {
                Some((i, l)) => {
                    let x = cargs@[if i == 0 { 0 } else { 1 }];
                    assert(decreases_to!(cargs@ => x));
                    lemma_item(kd, cargs@, ls, if i == 0 { 0 } else { 1 });
                    lemma_direct(kd, st, x, env, None, ls);
                    let d = direct(st, x, env, None);
                    lemma_went(kd, st, d.st, ls);
                    lemma_expr(kd, d.st, *t, d.env, k, ls);
                    let st1 = expr(d.st, *t, d.env, k).0;
                    lemma_went(kd, d.st, st1, ls);
                    lemma_expr(kd, st1, *f, d.env, k, ls);
                    lemma_on(kd, st, d.st, st1, ls);
                    lemma_on(kd, st, st1, expr(st1, *f, d.env, k).0, ls);
                },
                None => {
                    lemma_direct_all(kd, st, cargs@, cargs@.len(), env, ls);
                    let d = direct_all(st, cargs@, cargs@.len(), env);
                    lemma_went(kd, st, d.st, ls);
                    lemma_expr(kd, d.st, *t, d.env, k, ls);
                    let st1 = expr(d.st, *t, d.env, k).0;
                    lemma_went(kd, d.st, st1, ls);
                    lemma_expr(kd, st1, *f, d.env, k, ls);
                    lemma_on(kd, st, d.st, st1, ls);
                    lemma_on(kd, st, st1, expr(st1, *f, d.env, k).0, ls);
                },
            }
        }
    }
}

pub proof fn lemma_branch(kd: Kinds, st: St, e: Term, env: Seq<Name>, k: Name, ls: Set<Var>)
    requires
        okay(kd, st),
        fit(kd, e, ls),
    ensures
        went(kd, st, lower_branch(st, e, env, k).0, ls),
    decreases e, 0nat, 0nat, DtV::Fail, 0nat,
{
    lemma_parts(kd, e, ls);
    lemma_stay(kd, st, ls);
    if let Term::If(c, t, f) = e {
        let want = wants(st, *t, Seq::empty()).union(wants(st, *f, Seq::empty())).insert(k);
        lemma_direct(kd, st, *c, env, None, ls);
        let d = direct(st, *c, env, None);
        lemma_started(kd, st, *c, env, restricted(env, want), None, d, ls);
        let (st1, b) = begin(st, *c, env, restricted(env, want), None, d);
        lemma_went(kd, st, st1, ls);
        lemma_expr(kd, st1, *t, b.env, k, ls);
        let (st2, yes) = expr(st1, *t, b.env, k);
        lemma_went(kd, st1, st2, ls);
        lemma_expr(kd, st2, *f, b.env, k, ls);
        let (st3, no) = expr(st2, *f, b.env, k);
        lemma_on(kd, st, st1, st2, ls);
        lemma_on(kd, st, st2, st3, ls);
        lemma_went(kd, st, st3, ls);
        lemma_expr(kd, st3, *c, seq![b.kk] + b.outer, b.kk, ls);
        lemma_finished(kd, st, st3, b, two_v(ExternV::Branch, seq![b.x], b.env, no, yes), expr(st3, *c, seq![b.kk] + b.outer, b.kk), ls);
    }
}

pub proof fn lemma_prim(kd: Kinds, st: St, e: Term, env: Seq<Name>, k: Name, ls: Set<Var>)
    requires
        okay(kd, st),
        fit(kd, e, ls),
    ensures
        went(kd, st, lower_prim(st, e, env, k).0, ls),
    decreases e, 0nat, 1nat, DtV::Fail, 0nat,
{
    lemma_parts(kd, e, ls);
    lemma_stay(kd, st, ls);
    if let Term::Prim(prim, args, ty) = e {
        assert(decreases_to!(e => args@));
        match const_arg(prim, args@) {
            Some((i, l)) => {
                let x = args@[if i == 0 { 0 } else { 1 }];
                assert(decreases_to!(args@ => x));
                lemma_item(kd, args@, ls, if i == 0 { 0 } else { 1 });
                lemma_direct(kd, st, x, env, None, ls);
                let d = direct(st, x, env, None);
                lemma_started(kd, st, x, env, restricted(env, set![k]), None, d, ls);
                let (st1, b) = begin(st, x, env, restricted(env, set![k]), None, d);
                lemma_went(kd, st, st1, ls);
                lemma_produced(st1, Seq::empty(), ExternV::PrimK(prim, l), seq![b.x], b.env, Some(ty), None);
                let p = produced(st1, Seq::empty(), ExternV::PrimK(prim, l), seq![b.x], b.env, Some(ty), None);
                lemma_on_quietly(kd, st, st1, p.st, ls);
                lemma_went(kd, st, p.st, ls);
                lemma_expr(kd, p.st, x, seq![b.kk] + b.outer, b.kk, ls);
                lemma_finished(kd, st, p.st, b, plugged(p.frames, ret_v(k, p.x)), expr(p.st, x, seq![b.kk] + b.outer, b.kk), ls);
            },
            None => {
                lemma_start_all(kd, st, args@, args@.len(), env, set![k], ls);
                let a = start_all(st, args@, args@.len(), env, set![k]);
                lemma_produced(a.st, Seq::empty(), ExternV::Prim(prim), a.done, a.env, Some(ty), None);
                let p = produced(a.st, Seq::empty(), ExternV::Prim(prim), a.done, a.env, Some(ty), None);
                lemma_on_quietly(kd, st, a.st, p.st, ls);
                lemma_went(kd, st, p.st, ls);
                let s = plugged(p.frames, ret_v(k, p.x));
                lemma_finish_all(kd, p.st, args@, args@.len(), a.bs, s, ls);
                lemma_on(kd, st, p.st, finish_all(p.st, args@, args@.len(), a.bs, s).0, ls);
            },
        }
    }
}

pub proof fn lemma_extend(kd: Kinds, st: St, e: Term, env: Seq<Name>, k: Name, ls: Set<Var>)
    requires
        okay(kd, st),
        fit(kd, e, ls),
    ensures
        went(kd, st, lower_extend(st, e, env, k).0, ls),
    decreases e, 0nat, 1nat, DtV::Fail, 0nat,
{
    lemma_parts(kd, e, ls);
    lemma_stay(kd, st, ls);
    if let Term::Extend(rec, label, val) = e {
        let want = set![k].union(wants(st, *val, Seq::empty()));
        lemma_direct(kd, st, *rec, env, None, ls);
        let d = direct(st, *rec, env, None);
        lemma_started(kd, st, *rec, env, restricted(env, want), None, d, ls);
        let (st1, r) = begin(st, *rec, env, restricted(env, want), None, d);
        lemma_went(kd, st, st1, ls);
        let keep = restricted(r.env, set![k, r.x]);
        lemma_direct(kd, st1, *val, r.env, None, ls);
        let d2 = direct(st1, *val, r.env, None);
        lemma_started(kd, st1, *val, r.env, keep, None, d2, ls);
        let (st2, v) = begin(st1, *val, r.env, keep, None, d2);
        lemma_went(kd, st1, st2, ls);
        lemma_on(kd, st, st1, st2, ls);
        let op = ExternV::Extend(label);
        lemma_produced(st2, Seq::empty(), op, seq![r.x, v.x], v.env, type_of(st, e), None);
        let p = produced(st2, Seq::empty(), op, seq![r.x, v.x], v.env, type_of(st, e), None);
        lemma_on_quietly(kd, st, st2, p.st, ls);
        let done = plugged(p.frames, ret_v(k, p.x));
        lemma_went(kd, st, p.st, ls);
        lemma_expr(kd, p.st, *val, seq![v.kk] + v.outer, v.kk, ls);
        lemma_finished(kd, st, p.st, v, done, expr(p.st, *val, seq![v.kk] + v.outer, v.kk), ls);
        let (st3, s) = ended(p.st, v, done, expr(p.st, *val, seq![v.kk] + v.outer, v.kk));
        lemma_went(kd, st, st3, ls);
        lemma_expr(kd, st3, *rec, seq![r.kk] + r.outer, r.kk, ls);
        lemma_finished(kd, st, st3, r, s, expr(st3, *rec, seq![r.kk] + r.outer, r.kk), ls);
    }
}

} // verus!
