//! Every name lowering uses is in the environment where it uses it: terms.

use super::bring_arms::lemma_case;
use super::bring_handle::{lemma_handle, lemma_join, lemma_letrec};
use super::bring_parts::{
    all_at_hand, all_fit, all_started, args_begun, args_started, at_hand, begun, holding, lemma_again,
    lemma_answered, lemma_answered_with, lemma_arg_started, lemma_args_begun, lemma_args_begun_on, lemma_began,
    lemma_closed, lemma_done_kept, lemma_first, lemma_hand_on, lemma_head, lemma_instantiate, lemma_label_there,
    lemma_later, lemma_later_kept, lemma_made_held, lemma_no_args, lemma_none_later, lemma_none_started,
    lemma_nth_started, lemma_one_built, lemma_one_made, lemma_one_started, lemma_ran_on, lemma_ran_plugged,
    lemma_rest_kept, lemma_scope_descs, lemma_started_loc, lemma_started_on, lemma_var, ran,
};
use super::effect::perform;
use super::frame::{built, plugged, produced, rename_v, FrameV, SeveralV};
use super::have::{
    brought, chained, lemma_args, lemma_args2, lemma_brought, lemma_chained, lemma_leads_both, lemma_leads_nowhere,
    lemma_leads_one, lemma_operation, lemma_plugged, lemma_renamed, lemma_with_descs,
};
use super::live::{direct_worker, restricted, wants, wants_all};
use super::reach::Kinds;
use super::reach_state::lemma_simple_grows;
use super::scheme::{
    begin, direct, direct_all, direct_data, direct_extend, direct_let, direct_list, direct_loc, direct_object,
    direct_prim, direct_read, ended, expr, finish_all, finish_args, instantiate, lambda, lower_app, lower_array,
    lower_branch, lower_case, lower_ctor, lower_extend, lower_handle, lower_if, lower_join, lower_jump, lower_known,
    lower_lam, lower_let, lower_letrec, lower_lit, lower_loc, lower_perform, lower_prim, lower_proj, lower_record,
    lower_resumed, lower_sel, lower_tuple, lower_tyapp, lower_tylam, lower_under, lower_var, resumed_with, seconds,
    simple, start_all, start_args, ty_closure, with_descs, BoundV,
};
use super::shape::{const_arg, head_tys, over_types};
use super::state::St;
use super::stride::{lemma_fresh_as, lemma_quiet_on, quiet, LAST};
use super::supply::{
    able, all_able, args_able, lemma_able_as, lemma_able_kept, lemma_able_more, lemma_able_on, lemma_able_parts,
    lemma_all_on, lemma_args_parts, lemma_keeps, lemma_kept, lemma_nth, lemma_stocked, lemma_stocked_as,
    lemma_stocked_kept, stocked,
};
use super::tree::DtV;
use super::types::{described_args, type_of};
use super::went::{
    fit, fit_all, lemma_back_ev, lemma_back_scope, lemma_desc_names, lemma_ev, lemma_item, lemma_more_scope,
    lemma_on, lemma_on_quietly, lemma_other_ev, lemma_parts, lemma_quietly, lemma_stay, lemma_went, okay, went,
};
use crate::seq::cover::{lemma_both, lemma_front, lemma_push};
use crate::seq::draw::{
    drawn, found, lemma_draw_error, lemma_draw_goto, lemma_draw_invoke, lemma_draw_mark, lemma_draw_object,
    lemma_draw_ret, lemma_draw_two,
};
use crate::seq::ir::{Label, Name, Rep};
use crate::seq::view::{invoke_v, jump_v, ret_v, two_v, ExternV, StmtV};
use crate::terms::prim::{Lit, Prim};
use crate::terms::symbol;
use crate::terms::term::{peeled, Term, Var};
use crate::terms::ty::type_of_lit;
use vstd::prelude::*;

verus! {

pub proof fn lemma_expr(kd: Kinds, st: St, e: Term, env: Seq<Name>, k: Name, ls: Set<Var>)
    requires
        okay(kd, st),
        fit(kd, e, ls),
        able(st, e, env, ls),
        env.contains(k),
        brought(st),
    ensures
        ran(kd, st, expr(st, e, env, k), env, ls),
    decreases e, 0nat, 2nat, DtV::Fail, 0nat,
{
    let st0 = st;
    let st = st0.answering(k);
    assert(quiet(st0, st));
    lemma_quietly(kd, st0, st, ls);
    lemma_went(kd, st0, st, ls);
    lemma_able_on(kd, st0, st, e, env, ls);
    lemma_brought(st0, st);
    match e {
        Term::Loc(_, _) => {
            lemma_loc(kd, st, e, env, k, ls);
            lemma_ran_on(kd, st0, st, lower_loc(st, e, env, k), env, ls);
        },
        Term::TyLam(_, _, _) => {
            lemma_tylam(kd, st, e, env, k, ls);
            lemma_ran_on(kd, st0, st, lower_tylam(st, e, env, k), env, ls);
        },
        Term::TyApp(_, _) => {
            lemma_tyapp(kd, st, e, env, k, ls);
            lemma_ran_on(kd, st0, st, lower_tyapp(st, e, env, k), env, ls);
        },
        Term::Lam(_, _, _) => {
            lemma_lam(kd, st, e, env, k, ls);
            lemma_ran_on(kd, st0, st, lower_lam(st, e, env, k), env, ls);
        },
        Term::Let(_, _, _, _) => {
            lemma_let(kd, st, e, env, k, ls);
            lemma_ran_on(kd, st0, st, lower_let(st, e, env, k), env, ls);
        },
        Term::Join { .. } => {
            lemma_join(kd, st, e, env, k, ls);
            lemma_ran_on(kd, st0, st, lower_join(st, e, env, k), env, ls);
        },
        Term::Jump(_, _, _) => {
            lemma_jump(kd, st, e, env, k, ls);
            lemma_ran_on(kd, st0, st, lower_jump(st, e, env, k), env, ls);
        },
        Term::LetRec(_, _) => {
            lemma_letrec(kd, st, e, env, k, ls);
            lemma_ran_on(kd, st0, st, lower_letrec(st, e, env, k), env, ls);
        },
        Term::If(_, _, _) => {
            lemma_if(kd, st, e, env, k, ls);
            lemma_ran_on(kd, st0, st, lower_if(st, e, env, k), env, ls);
        },
        Term::Prim(_, _, _) => {
            lemma_prim(kd, st, e, env, k, ls);
            lemma_ran_on(kd, st0, st, lower_prim(st, e, env, k), env, ls);
        },
        Term::Ctor(_, _, _) => {
            lemma_ctor(kd, st, e, env, k, ls);
            lemma_ran_on(kd, st0, st, lower_ctor(st, e, env, k), env, ls);
        },
        Term::Tuple(_) => {
            lemma_tuple(kd, st, e, env, k, ls);
            lemma_ran_on(kd, st0, st, lower_tuple(st, e, env, k), env, ls);
        },
        Term::Array(_, _) => {
            lemma_array(kd, st, e, env, k, ls);
            lemma_ran_on(kd, st0, st, lower_array(st, e, env, k), env, ls);
        },
        Term::Record(_, _) => {
            lemma_record(kd, st, e, env, k, ls);
            lemma_ran_on(kd, st0, st, lower_record(st, e, env, k), env, ls);
        },
        Term::Sel(_, _, _) => {
            lemma_sel(kd, st, e, env, k, ls);
            lemma_ran_on(kd, st0, st, lower_sel(st, e, env, k), env, ls);
        },
        Term::Proj(_, _) => {
            lemma_proj(kd, st, e, env, k, ls);
            lemma_ran_on(kd, st0, st, lower_proj(st, e, env, k), env, ls);
        },
        Term::Extend(_, _, _) => {
            lemma_extend(kd, st, e, env, k, ls);
            lemma_ran_on(kd, st0, st, lower_extend(st, e, env, k), env, ls);
        },
        Term::Case(_, _, _) => {
            lemma_case(kd, st, e, env, k, ls);
            lemma_ran_on(kd, st0, st, lower_case(st, e, env, k), env, ls);
        },
        Term::Perform(_, _, _, _) => {
            lemma_perform(kd, st, e, env, k, ls);
            lemma_ran_on(kd, st0, st, lower_perform(st, e, env, k), env, ls);
        },
        Term::Handle { .. } => {
            lemma_handle(kd, st, e, env, k, ls);
            lemma_ran_on(kd, st0, st, lower_handle(st, e, env, k), env, ls);
        },
        Term::Var(v) => {
            lemma_var(kd, st, v, env, k, ls);
            lemma_ran_on(kd, st0, st, lower_var(st, v, env, k), env, ls);
        },
        Term::Lit(l) => {
            lemma_answered(kd, st, ExternV::Lit(l), Seq::empty(), env, Some(type_of_lit(l)), k, ls);
            lemma_ran_on(kd, st0, st, lower_lit(st, l, env, k), env, ls);
        },
        Term::App(_, _) => {
            match direct_worker(st, e) {
                Some(f) => {
                    lemma_known(kd, st, e, f, env, k, ls);
                    lemma_ran_on(kd, st0, st, lower_known(st, e, f, env, k), env, ls);
                },
                None => {
                    lemma_app(kd, st, e, env, k, ls);
                    lemma_ran_on(kd, st0, st, lower_app(st, e, env, k), env, ls);
                },
            }
        },
        Term::Error => {
            lemma_draw_error(env, st.descs);
        },
    }
}

pub proof fn lemma_loc(kd: Kinds, st: St, e: Term, env: Seq<Name>, k: Name, ls: Set<Var>)
    requires
        okay(kd, st),
        fit(kd, e, ls),
        able(st, e, env, ls),
        env.contains(k),
        brought(st),
    ensures
        ran(kd, st, lower_loc(st, e, env, k), env, ls),
    decreases e, 0nat, 1nat, DtV::Fail, 0nat,
{
    lemma_parts(kd, e, ls);
    lemma_able_parts(st, e, env, ls);
    lemma_stay(kd, st, ls);
    lemma_draw_error(env, st.descs);
    if let Term::Loc(loc, inner) = e {
        lemma_expr(kd, st, *inner, env, k, ls);
        let r = expr(st, *inner, env, k);
        if r.0.next_name < LAST {
            lemma_draw_mark(loc, r.1, env, st.descs);
        }
    }
}

pub proof fn lemma_tylam(kd: Kinds, st: St, e: Term, env: Seq<Name>, k: Name, ls: Set<Var>)
    requires
        okay(kd, st),
        fit(kd, e, ls),
        able(st, e, env, ls),
        env.contains(k),
        brought(st),
    ensures
        ran(kd, st, lower_tylam(st, e, env, k), env, ls),
    decreases e, 0nat, 1nat, DtV::Fail, 0nat,
{
    lemma_parts(kd, e, ls);
    lemma_able_parts(st, e, env, ls);
    lemma_stay(kd, st, ls);
    lemma_draw_error(env, st.descs);
    if let Term::TyLam(id, vs, inner) = e {
        if over_types(vs@) {
            lemma_ty_closure(kd, st, id, *inner, env, ls);
            let (st1, captures, method) = ty_closure(st, id, *inner, env);
            lemma_fresh_as(st1, Rep::Ref);
            lemma_on_quietly(kd, st, st1, st1.fresh_ref(), ls);
            lemma_went(kd, st, st1, ls);
            lemma_brought(st1, st1.fresh_ref());
            let x = st1.next_name;
            if st1.fresh_ref().next_name < LAST {
                lemma_front(x, env);
                lemma_draw_ret(k, x, seq![x] + env, st.descs);
                lemma_draw_object(x, captures, method, ret_v(k, x), env, st.descs);
            }
        } else {
            lemma_expr(kd, st, *inner, env, k, ls);
        }
    }
}

pub proof fn lemma_tyapp(kd: Kinds, st: St, e: Term, env: Seq<Name>, k: Name, ls: Set<Var>)
    requires
        okay(kd, st),
        fit(kd, e, ls),
        able(st, e, env, ls),
        env.contains(k),
        brought(st),
    ensures
        ran(kd, st, lower_tyapp(st, e, env, k), env, ls),
    decreases e, 0nat, 1nat, DtV::Fail, 0nat,
{
    lemma_parts(kd, e, ls);
    lemma_able_parts(st, e, env, ls);
    lemma_stay(kd, st, ls);
    lemma_draw_error(env, st.descs);
    if let Term::TyApp(inner, tys) = e {
        lemma_expr(kd, st, *inner, env, k, ls);
        if let Term::Var(v) = peeled(*inner) {
            if let Some(args) = described_args(st, v, Some(tys@)) {
                super::stride::lemma_with_descs(st, args, args.len(), env);
                lemma_scope_descs(kd, st);
                lemma_with_descs(st, args, args.len(), env);
                let d = with_descs(st, args, args.len(), env);
                lemma_quietly(kd, st, d.st, ls);
                lemma_went(kd, st, d.st, ls);
                lemma_brought(st, d.st);
                lemma_able_on(kd, st, d.st, *inner, env, ls);
                lemma_able_more(d.st, *inner, env, d.env, ls);
                lemma_instantiate(kd, d.st, *inner, v, d.done, d.env, k, ls);
                let r = instantiate(d.st, v, d.done, d.env, k);
                lemma_ran_on(kd, st, d.st, r, d.env, ls);
                lemma_ran_plugged(kd, st, d.frames, r, env, d.env, ls);
            }
        }
    }
}

pub proof fn lemma_lam(kd: Kinds, st: St, e: Term, env: Seq<Name>, k: Name, ls: Set<Var>)
    requires
        okay(kd, st),
        fit(kd, e, ls),
        able(st, e, env, ls),
        env.contains(k),
        brought(st),
    ensures
        ran(kd, st, lower_lam(st, e, env, k), env, ls),
    decreases e, 0nat, 1nat, DtV::Fail, 0nat,
{
    lemma_parts(kd, e, ls);
    lemma_able_parts(st, e, env, ls);
    lemma_stay(kd, st, ls);
    lemma_draw_error(env, st.descs);
    if let Term::Lam(param, _, body) = e {
        lemma_lambda(kd, st, param, *body, env, ls);
        let (st1, captures, method) = lambda(st, param, *body, env);
        lemma_fresh_as(st1, Rep::Ref);
        lemma_on_quietly(kd, st, st1, st1.fresh_ref(), ls);
        lemma_went(kd, st, st1, ls);
        lemma_brought(st1, st1.fresh_ref());
        let x = st1.next_name;
        if st1.fresh_ref().next_name < LAST {
            lemma_front(x, env);
            lemma_draw_ret(k, x, seq![x] + env, st.descs);
            lemma_draw_object(x, captures, method, ret_v(k, x), env, st.descs);
        }
    }
}

pub proof fn lemma_ctor(kd: Kinds, st: St, e: Term, env: Seq<Name>, k: Name, ls: Set<Var>)
    requires
        okay(kd, st),
        fit(kd, e, ls),
        able(st, e, env, ls),
        env.contains(k),
        brought(st),
    ensures
        ran(kd, st, lower_ctor(st, e, env, k), env, ls),
    decreases e, 0nat, 1nat, DtV::Fail, 0nat,
{
    lemma_parts(kd, e, ls);
    lemma_able_parts(st, e, env, ls);
    lemma_stay(kd, st, ls);
    lemma_draw_error(env, st.descs);
    if let Term::Ctor(c, ty, args) = e {
        assert(decreases_to!(e => args@));
        let at = st.tagged(c);
        assert(quiet(st, at));
        lemma_quietly(kd, st, at, ls);
        lemma_went(kd, st, at, ls);
        lemma_brought(st, at);
        lemma_all_on(kd, st, at, args@, env, ls);
        lemma_start_all(kd, at, args@, args@.len(), env, set![k], ls);
        let a = start_all(at, args@, args@.len(), env, set![k]);
        lemma_went(kd, at, a.st, ls);
        assert(set![k].contains(k));
        lemma_answered_with(kd, a.st, c, st.tag(c), a.done, a.env, Some(ty), k, ls);
        let p = built(a.st, Seq::empty(), c, st.tag(c), a.done, a.env, Some(ty), None);
        lemma_went(kd, a.st, p.st, ls);
        lemma_on(kd, at, a.st, p.st, ls);
        let s = plugged(p.frames, ret_v(k, p.x));
        lemma_started_on(kd, a.st, p.st, args@, a.bs, ls);
        assert(a.bs.take(args@.len() as int) =~= a.bs);
        lemma_finish_all(kd, p.st, args@, args@.len(), a.bs, s, env, a.env, ls);
        let f = finish_all(p.st, args@, args@.len(), a.bs, s);
        lemma_ran_on(kd, at, p.st, f, env, ls);
        lemma_ran_on(kd, st, at, f, env, ls);
    }
}

pub proof fn lemma_tuple(kd: Kinds, st: St, e: Term, env: Seq<Name>, k: Name, ls: Set<Var>)
    requires
        okay(kd, st),
        fit(kd, e, ls),
        able(st, e, env, ls),
        env.contains(k),
        brought(st),
    ensures
        ran(kd, st, lower_tuple(st, e, env, k), env, ls),
    decreases e, 0nat, 1nat, DtV::Fail, 0nat,
{
    lemma_parts(kd, e, ls);
    lemma_able_parts(st, e, env, ls);
    lemma_stay(kd, st, ls);
    lemma_draw_error(env, st.descs);
    if let Term::Tuple(items) = e {
        assert(decreases_to!(e => items@));
        let at = st.tagged(symbol::TUPLE);
        assert(quiet(st, at));
        lemma_quietly(kd, st, at, ls);
        lemma_went(kd, st, at, ls);
        lemma_brought(st, at);
        lemma_all_on(kd, st, at, items@, env, ls);
        lemma_start_all(kd, at, items@, items@.len(), env, set![k], ls);
        let a = start_all(at, items@, items@.len(), env, set![k]);
        lemma_went(kd, at, a.st, ls);
        assert(set![k].contains(k));
        lemma_answered_with(kd, a.st, symbol::TUPLE, st.tag(symbol::TUPLE), a.done, a.env, type_of(st, e), k, ls);
        let p = built(a.st, Seq::empty(), symbol::TUPLE, st.tag(symbol::TUPLE), a.done, a.env, type_of(st, e), None);
        lemma_went(kd, a.st, p.st, ls);
        lemma_on(kd, at, a.st, p.st, ls);
        let s = plugged(p.frames, ret_v(k, p.x));
        lemma_started_on(kd, a.st, p.st, items@, a.bs, ls);
        assert(a.bs.take(items@.len() as int) =~= a.bs);
        lemma_finish_all(kd, p.st, items@, items@.len(), a.bs, s, env, a.env, ls);
        let f = finish_all(p.st, items@, items@.len(), a.bs, s);
        lemma_ran_on(kd, at, p.st, f, env, ls);
        lemma_ran_on(kd, st, at, f, env, ls);
    }
}

pub proof fn lemma_array(kd: Kinds, st: St, e: Term, env: Seq<Name>, k: Name, ls: Set<Var>)
    requires
        okay(kd, st),
        fit(kd, e, ls),
        able(st, e, env, ls),
        env.contains(k),
        brought(st),
    ensures
        ran(kd, st, lower_array(st, e, env, k), env, ls),
    decreases e, 0nat, 1nat, DtV::Fail, 0nat,
{
    lemma_parts(kd, e, ls);
    lemma_able_parts(st, e, env, ls);
    lemma_stay(kd, st, ls);
    lemma_draw_error(env, st.descs);
    if let Term::Array(items, _) = e {
        assert(decreases_to!(e => items@));
        lemma_start_all(kd, st, items@, items@.len(), env, set![k], ls);
        let a = start_all(st, items@, items@.len(), env, set![k]);
        lemma_went(kd, st, a.st, ls);
        assert(set![k].contains(k));
        lemma_answered(kd, a.st, ExternV::Array, a.done, a.env, type_of(st, e), k, ls);
        let p = produced(a.st, Seq::empty(), ExternV::Array, a.done, a.env, type_of(st, e), None);
        lemma_went(kd, a.st, p.st, ls);
        lemma_on(kd, st, a.st, p.st, ls);
        let s = plugged(p.frames, ret_v(k, p.x));
        lemma_started_on(kd, a.st, p.st, items@, a.bs, ls);
        assert(a.bs.take(items@.len() as int) =~= a.bs);
        lemma_finish_all(kd, p.st, items@, items@.len(), a.bs, s, env, a.env, ls);
        let f = finish_all(p.st, items@, items@.len(), a.bs, s);
        lemma_ran_on(kd, st, p.st, f, env, ls);
    }
}

pub proof fn lemma_record(kd: Kinds, st: St, e: Term, env: Seq<Name>, k: Name, ls: Set<Var>)
    requires
        okay(kd, st),
        fit(kd, e, ls),
        able(st, e, env, ls),
        env.contains(k),
        brought(st),
    ensures
        ran(kd, st, lower_record(st, e, env, k), env, ls),
    decreases e, 0nat, 1nat, DtV::Fail, 0nat,
{
    lemma_parts(kd, e, ls);
    lemma_able_parts(st, e, env, ls);
    lemma_stay(kd, st, ls);
    lemma_draw_error(env, st.descs);
    if let Term::Record(labels, xs) = e {
        assert(decreases_to!(e => xs@));
        lemma_start_all(kd, st, xs@, xs@.len(), env, set![k], ls);
        let a = start_all(st, xs@, xs@.len(), env, set![k]);
        lemma_went(kd, st, a.st, ls);
        assert(set![k].contains(k));
        lemma_answered(kd, a.st, ExternV::Record(labels@), a.done, a.env, type_of(st, e), k, ls);
        let p = produced(a.st, Seq::empty(), ExternV::Record(labels@), a.done, a.env, type_of(st, e), None);
        lemma_went(kd, a.st, p.st, ls);
        lemma_on(kd, st, a.st, p.st, ls);
        let s = plugged(p.frames, ret_v(k, p.x));
        lemma_started_on(kd, a.st, p.st, xs@, a.bs, ls);
        assert(a.bs.take(xs@.len() as int) =~= a.bs);
        lemma_finish_all(kd, p.st, xs@, xs@.len(), a.bs, s, env, a.env, ls);
        let f = finish_all(p.st, xs@, xs@.len(), a.bs, s);
        lemma_ran_on(kd, st, p.st, f, env, ls);
    }
}

pub proof fn lemma_sel(kd: Kinds, st: St, e: Term, env: Seq<Name>, k: Name, ls: Set<Var>)
    requires
        okay(kd, st),
        fit(kd, e, ls),
        able(st, e, env, ls),
        env.contains(k),
        brought(st),
    ensures
        ran(kd, st, lower_sel(st, e, env, k), env, ls),
    decreases e, 0nat, 1nat, DtV::Fail, 0nat,
{
    lemma_parts(kd, e, ls);
    lemma_able_parts(st, e, env, ls);
    lemma_stay(kd, st, ls);
    lemma_draw_error(env, st.descs);
    if let Term::Sel(rec, label, ty) = e {
        let want = set![k];
        super::going::lemma_direct(kd, st, *rec, env, None, ls);
        if simple(*rec, env) {
            lemma_direct(kd, st, *rec, env, None, ls);
        }
        let d = direct(st, *rec, env, None);
        lemma_kept(env, want);
        lemma_began(kd, st, *rec, env, restricted(env, want), None, d, ls);
        let (st1, b) = begin(st, *rec, env, restricted(env, want), None, d);
        lemma_keeps(env, want, k, b.env);
        lemma_args(b.x, b.env);
        lemma_answered(kd, st1, ExternV::Select(label), seq![b.x], b.env, Some(ty), k, ls);
        let p = produced(st1, Seq::empty(), ExternV::Select(label), seq![b.x], b.env, Some(ty), None);
        lemma_went(kd, st1, p.st, ls);
        lemma_on(kd, st, st1, p.st, ls);
        if !b.simple {
            lemma_again(kd, st, p.st, *rec, b, ls);
            lemma_expr(kd, p.st, *rec, seq![b.kk] + b.outer, b.kk, ls);
        }
        lemma_closed(kd, st, p.st, b, plugged(p.frames, ret_v(k, p.x)), expr(p.st, *rec, seq![b.kk] + b.outer, b.kk), env, ls);
    }
}

pub proof fn lemma_proj(kd: Kinds, st: St, e: Term, env: Seq<Name>, k: Name, ls: Set<Var>)
    requires
        okay(kd, st),
        fit(kd, e, ls),
        able(st, e, env, ls),
        env.contains(k),
        brought(st),
    ensures
        ran(kd, st, lower_proj(st, e, env, k), env, ls),
    decreases e, 0nat, 1nat, DtV::Fail, 0nat,
{
    lemma_parts(kd, e, ls);
    lemma_able_parts(st, e, env, ls);
    lemma_stay(kd, st, ls);
    lemma_draw_error(env, st.descs);
    if let Term::Proj(t, i) = e {
        let want = set![k];
        super::going::lemma_direct(kd, st, *t, env, None, ls);
        if simple(*t, env) {
            lemma_direct(kd, st, *t, env, None, ls);
        }
        let d = direct(st, *t, env, None);
        lemma_kept(env, want);
        lemma_began(kd, st, *t, env, restricted(env, want), None, d, ls);
        let (st1, b) = begin(st, *t, env, restricted(env, want), None, d);
        lemma_keeps(env, want, k, b.env);
        lemma_args(b.x, b.env);
        lemma_answered(kd, st1, ExternV::Field(i), seq![b.x], b.env, type_of(st, e), k, ls);
        let p = produced(st1, Seq::empty(), ExternV::Field(i), seq![b.x], b.env, type_of(st, e), None);
        lemma_went(kd, st1, p.st, ls);
        lemma_on(kd, st, st1, p.st, ls);
        if !b.simple {
            lemma_again(kd, st, p.st, *t, b, ls);
            lemma_expr(kd, p.st, *t, seq![b.kk] + b.outer, b.kk, ls);
        }
        lemma_closed(kd, st, p.st, b, plugged(p.frames, ret_v(k, p.x)), expr(p.st, *t, seq![b.kk] + b.outer, b.kk), env, ls);
    }
}

pub proof fn lemma_perform(kd: Kinds, st: St, e: Term, env: Seq<Name>, k: Name, ls: Set<Var>)
    requires
        okay(kd, st),
        fit(kd, e, ls),
        able(st, e, env, ls),
        env.contains(k),
        brought(st),
    ensures
        ran(kd, st, lower_perform(st, e, env, k), env, ls),
    decreases e, 0nat, 1nat, DtV::Fail, 0nat,
{
    lemma_parts(kd, e, ls);
    lemma_able_parts(st, e, env, ls);
    lemma_stay(kd, st, ls);
    lemma_draw_error(env, st.descs);
    if let Term::Perform(effect, op, arg, ty) = e {
        let want = set![k, st.ev];
        super::going::lemma_direct(kd, st, *arg, env, None, ls);
        if simple(*arg, env) {
            lemma_direct(kd, st, *arg, env, None, ls);
        }
        let d = direct(st, *arg, env, None);
        lemma_kept(env, want);
        lemma_began(kd, st, *arg, env, restricted(env, want), None, d, ls);
        let (st1, b) = begin(st, *arg, env, restricted(env, want), None, d);
        lemma_keeps(env, want, k, b.env);
        lemma_keeps(env, want, st.ev, b.env);
        let aty = type_of(st, *arg);
        super::went::lemma_operation(kd, st1, effect, op, b.x, k, st.ev, aty, Some(ty), ls);
        lemma_operation(kd, st1, effect, op, b.x, k, st.ev, aty, Some(ty), b.env, ls);
        let (st2, s) = perform(st1, effect, op, b.x, k, st.ev, aty, Some(ty));
        lemma_went(kd, st1, st2, ls);
        lemma_on(kd, st, st1, st2, ls);
        if !b.simple {
            lemma_again(kd, st, st2, *arg, b, ls);
            lemma_expr(kd, st2, *arg, seq![b.kk] + b.outer, b.kk, ls);
        }
        lemma_closed(kd, st, st2, b, s, expr(st2, *arg, seq![b.kk] + b.outer, b.kk), env, ls);
    }
}

pub proof fn lemma_lambda(kd: Kinds, st: St, param: Var, body: Term, env: Seq<Name>, ls: Set<Var>)
    requires
        okay(kd, st),
        fit(kd, body, ls),
        kd.plain(param),
        stocked(st, body, env, ls),
        brought(st),
    ensures
        holding(kd, st, lambda(st, param, body, env), env, ls),
    decreases body, 0nat, 3nat, DtV::Fail, 0nat,
{
    let want = wants(st, body, seq![param]).remove(st.ev);
    let captures = restricted(env, want);
    lemma_kept(env, want);
    let ik = st.next_name;
    let st1 = st.function_return();
    assert(quiet(st, st1));
    let iev = st1.next_name;
    let st2 = st1.fresh_ref();
    lemma_fresh_as(st1, Rep::Ref);
    lemma_quiet_on(st, st1, st2);
    lemma_quietly(kd, st, st2, ls);
    lemma_went(kd, st, st2, ls);
    lemma_ev(kd, st);
    lemma_other_ev(kd, st2, iev);
    let at = st2.with_ev(iev);
    lemma_brought(st, at);
    let params = captures.push(param).push(ik).push(iev);
    lemma_push(captures, param);
    lemma_push(captures.push(param), ik);
    lemma_push(captures.push(param).push(ik), iev);
    lemma_stocked_kept(kd, st, body, seq![param], want, env, params, ls);
    lemma_stocked_as(st, at, body, params, ls);
    lemma_stocked(at, body, params, ls);
    lemma_expr(kd, at, body, params, ik, ls);
    let st3 = expr(at, body, params, ik).0;
    lemma_back_ev(kd, st2, iev, st3, ls);
    lemma_on(kd, st, st2, st3.with_ev(st.ev), ls);
    lemma_went(kd, at, st3, ls);
    lemma_brought(st3, st3.with_ev(st.ev));
}

pub proof fn lemma_ty_closure(kd: Kinds, st: St, id: u32, body: Term, env: Seq<Name>, ls: Set<Var>)
    requires
        okay(kd, st),
        fit(kd, body, ls),
        able(st, body, env, ls),
        brought(st),
    ensures
        holding(kd, st, ty_closure(st, id, body, env), env, ls),
    decreases body, 0nat, 3nat, DtV::Fail, 0nat,
{
    let want = wants(st, body, Seq::empty());
    let captures = restricted(env, want);
    lemma_kept(env, want);
    let kk = st.next_name;
    let st1 = st.function_return();
    assert(quiet(st, st1));
    lemma_quietly(kd, st, st1, ls);
    lemma_went(kd, st, st1, ls);
    let names = st1.desc_names(id);
    lemma_desc_names(kd, st1, id);
    lemma_more_scope(kd, st1, names);
    let at = st1.more_scope(names);
    let params = (captures + seconds(names)).push(kk);
    lemma_both(captures, seconds(names));
    lemma_push(captures + seconds(names), kk);
    lemma_able_kept(kd, st, body, Seq::empty(), want, env, params, ls);
    lemma_able_as(st, at, body, params, ls);
    lemma_brought(st, at);
    lemma_expr(kd, at, body, params, kk, ls);
    let st2 = expr(at, body, params, kk).0;
    lemma_back_scope(kd, st1, names, st2, ls);
    lemma_on(kd, st, st1, st2.cut_scope(st.tscope.len()), ls);
    lemma_went(kd, at, st2, ls);
    lemma_brought(st2, st2.cut_scope(st.tscope.len()));
}

pub proof fn lemma_direct(kd: Kinds, st: St, e: Term, env: Seq<Name>, name: Option<Name>, ls: Set<Var>)
    requires
        okay(kd, st),
        fit(kd, e, ls),
        able(st, e, env, ls),
        simple(e, env),
        brought(st),
        name is Some ==> name->0 < kd.lo,
    ensures
        at_hand(kd, st, direct(st, e, env, name), env, name, ls),
    decreases e, 0nat, 1nat, DtV::Fail, 0nat,
{
    lemma_parts(kd, e, ls);
    lemma_able_parts(st, e, env, ls);
    lemma_stay(kd, st, ls);
    lemma_ev(kd, st);
    lemma_leads_nowhere(env, st.descs);
    reveal_with_fuel(simple, 2);
    match e {
        Term::TyLam(_, _, _) | Term::Lam(_, _, _) => {
            lemma_direct_object(kd, st, e, env, name, ls);
        },
        Term::Loc(_, _) => {
            lemma_direct_loc(kd, st, e, env, name, ls);
        },
        Term::Var(v) => {
            if let Some(x) = name {
                lemma_renamed(v, x, env, st.descs);
                lemma_leads_one(rename_v(v, x, env), env, st.descs);
            }
        },
        Term::Lit(l) => {
            lemma_one_made(kd, st, Seq::empty(), ExternV::Lit(l), Seq::empty(), env, type_of(st, e), name, env, ls);
        },
        Term::Prim(_, _, _) => {
            lemma_direct_prim(kd, st, e, env, name, ls);
        },
        Term::Ctor(_, _, _) | Term::Tuple(_) => {
            lemma_direct_data(kd, st, e, env, name, ls);
        },
        Term::Array(_, _) | Term::Record(_, _) => {
            lemma_direct_list(kd, st, e, env, name, ls);
        },
        Term::Sel(_, _, _) | Term::Proj(_, _) => {
            lemma_direct_read(kd, st, e, env, name, ls);
        },
        Term::Extend(_, _, _) => {
            lemma_direct_extend(kd, st, e, env, name, ls);
        },
        Term::Let(_, _, _, _) => {
            lemma_direct_let(kd, st, e, env, name, ls);
        },
        _ => {},
    }
}

pub proof fn lemma_direct_loc(kd: Kinds, st: St, e: Term, env: Seq<Name>, name: Option<Name>, ls: Set<Var>)
    requires
        okay(kd, st),
        fit(kd, e, ls),
        able(st, e, env, ls),
        simple(e, env),
        brought(st),
        name is Some ==> name->0 < kd.lo,
        e is Loc,
    ensures
        at_hand(kd, st, direct_loc(st, e, env, name), env, name, ls),
    decreases e, 0nat, 0nat, DtV::Fail, 0nat,
{
    lemma_parts(kd, e, ls);
    lemma_able_parts(st, e, env, ls);
    lemma_stay(kd, st, ls);
    lemma_ev(kd, st);
    lemma_leads_nowhere(env, st.descs);
    reveal_with_fuel(simple, 2);
    if let Term::Loc(loc, inner) = e {
        lemma_direct(kd, st, *inner, env, name, ls);
        let p = direct(st, *inner, env, name);
        lemma_leads_one(FrameV::Mark(loc), env, st.descs);
        if p.st.next_name < LAST {
            lemma_leads_both(seq![FrameV::Mark(loc)], p.frames, env, env, p.env, st.descs);
        }
    }
}

pub proof fn lemma_direct_object(kd: Kinds, st: St, e: Term, env: Seq<Name>, name: Option<Name>, ls: Set<Var>)
    requires
        okay(kd, st),
        fit(kd, e, ls),
        able(st, e, env, ls),
        simple(e, env),
        brought(st),
        name is Some ==> name->0 < kd.lo,
        e is TyLam || e is Lam,
    ensures
        at_hand(kd, st, direct_object(st, e, env, name), env, name, ls),
    decreases e, 0nat, 0nat, DtV::Fail, 0nat,
{
    lemma_parts(kd, e, ls);
    lemma_able_parts(st, e, env, ls);
    lemma_stay(kd, st, ls);
    lemma_ev(kd, st);
    lemma_leads_nowhere(env, st.descs);
    reveal_with_fuel(simple, 2);
    match e {
        Term::TyLam(id, vs, inner) => {
            lemma_ty_closure(kd, st, id, *inner, env, ls);
            let (st1, captures, method) = ty_closure(st, id, *inner, env);
            lemma_made_held(kd, st, st1, captures, method, env, name, ls);
        },
        Term::Lam(param, _, body) => {
            lemma_lambda(kd, st, param, *body, env, ls);
            let (st1, captures, method) = lambda(st, param, *body, env);
            lemma_made_held(kd, st, st1, captures, method, env, name, ls);
        },
        _ => {},
    }
}

pub proof fn lemma_direct_prim(kd: Kinds, st: St, e: Term, env: Seq<Name>, name: Option<Name>, ls: Set<Var>)
    requires
        okay(kd, st),
        fit(kd, e, ls),
        able(st, e, env, ls),
        simple(e, env),
        brought(st),
        name is Some ==> name->0 < kd.lo,
        e is Prim,
    ensures
        at_hand(kd, st, direct_prim(st, e, env, name), env, name, ls),
    decreases e, 0nat, 0nat, DtV::Fail, 0nat,
{
    lemma_parts(kd, e, ls);
    lemma_able_parts(st, e, env, ls);
    lemma_stay(kd, st, ls);
    lemma_ev(kd, st);
    lemma_leads_nowhere(env, st.descs);
    reveal_with_fuel(simple, 2);
    if let Term::Prim(p, args, _) = e {
        assert(decreases_to!(e => args@));
        match const_arg(p, args@) {
            Some((i, l)) => {
                let x = args@[if i == 0 { 0 } else { 1 }];
                assert(decreases_to!(args@ => x));
                lemma_item(kd, args@, ls, if i == 0 { 0 } else { 1 });
                lemma_nth(st, args@, env, ls, if i == 0 { 0 } else { 1 });
                lemma_direct(kd, st, x, env, None, ls);
                let d = direct(st, x, env, None);
                lemma_args(d.x, d.env);
                lemma_went(kd, st, d.st, ls);
                lemma_one_made(kd, d.st, d.frames, ExternV::PrimK(p, l), seq![d.x], d.env, type_of(st, e), name, env, ls);
                lemma_hand_on(kd, st, d.st, produced(d.st, d.frames, ExternV::PrimK(p, l), seq![d.x], d.env, type_of(st, e), name), env, name, ls);
            },
            None => {
                lemma_direct_all(kd, st, args@, args@.len(), env, ls);
                let d = direct_all(st, args@, args@.len(), env);
                lemma_went(kd, st, d.st, ls);
                lemma_one_made(kd, d.st, d.frames, ExternV::Prim(p), d.done, d.env, type_of(st, e), name, env, ls);
                lemma_hand_on(kd, st, d.st, produced(d.st, d.frames, ExternV::Prim(p), d.done, d.env, type_of(st, e), name), env, name, ls);
            },
        }
    }
}

pub proof fn lemma_direct_data(kd: Kinds, st: St, e: Term, env: Seq<Name>, name: Option<Name>, ls: Set<Var>)
    requires
        okay(kd, st),
        fit(kd, e, ls),
        able(st, e, env, ls),
        simple(e, env),
        brought(st),
        name is Some ==> name->0 < kd.lo,
        e is Ctor || e is Tuple,
    ensures
        at_hand(kd, st, direct_data(st, e, env, name), env, name, ls),
    decreases e, 0nat, 0nat, DtV::Fail, 0nat,
{
    lemma_parts(kd, e, ls);
    lemma_able_parts(st, e, env, ls);
    lemma_stay(kd, st, ls);
    lemma_ev(kd, st);
    lemma_leads_nowhere(env, st.descs);
    reveal_with_fuel(simple, 2);
    match e {
        Term::Ctor(c, _, args) => {
            assert(decreases_to!(e => args@));
            let at = st.tagged(c);
            assert(quiet(st, at));
            lemma_quietly(kd, st, at, ls);
            lemma_went(kd, st, at, ls);
            lemma_brought(st, at);
            lemma_all_on(kd, st, at, args@, env, ls);
            lemma_direct_all(kd, at, args@, args@.len(), env, ls);
            let d = direct_all(at, args@, args@.len(), env);
            lemma_went(kd, at, d.st, ls);
            lemma_on(kd, st, at, d.st, ls);
            lemma_one_built(kd, d.st, d.frames, c, st.tag(c), d.done, d.env, type_of(st, e), name, env, ls);
            let p = built(d.st, d.frames, c, st.tag(c), d.done, d.env, type_of(st, e), name);
            lemma_hand_on(kd, st, d.st, p, env, name, ls);
        },
        Term::Tuple(items) => {
            assert(decreases_to!(e => items@));
            let at = st.tagged(symbol::TUPLE);
            assert(quiet(st, at));
            lemma_quietly(kd, st, at, ls);
            lemma_went(kd, st, at, ls);
            lemma_brought(st, at);
            lemma_all_on(kd, st, at, items@, env, ls);
            lemma_direct_all(kd, at, items@, items@.len(), env, ls);
            let d = direct_all(at, items@, items@.len(), env);
            lemma_went(kd, at, d.st, ls);
            lemma_on(kd, st, at, d.st, ls);
            lemma_one_built(kd, d.st, d.frames, symbol::TUPLE, st.tag(symbol::TUPLE), d.done, d.env, type_of(st, e), name, env, ls);
            let p = built(d.st, d.frames, symbol::TUPLE, st.tag(symbol::TUPLE), d.done, d.env, type_of(st, e), name);
            lemma_hand_on(kd, st, d.st, p, env, name, ls);
        },
        _ => {},
    }
}

pub proof fn lemma_direct_list(kd: Kinds, st: St, e: Term, env: Seq<Name>, name: Option<Name>, ls: Set<Var>)
    requires
        okay(kd, st),
        fit(kd, e, ls),
        able(st, e, env, ls),
        simple(e, env),
        brought(st),
        name is Some ==> name->0 < kd.lo,
        e is Array || e is Record,
    ensures
        at_hand(kd, st, direct_list(st, e, env, name), env, name, ls),
    decreases e, 0nat, 0nat, DtV::Fail, 0nat,
{
    lemma_parts(kd, e, ls);
    lemma_able_parts(st, e, env, ls);
    lemma_stay(kd, st, ls);
    lemma_ev(kd, st);
    lemma_leads_nowhere(env, st.descs);
    reveal_with_fuel(simple, 2);
    match e {
        Term::Array(items, _) => {
            assert(decreases_to!(e => items@));
            lemma_direct_all(kd, st, items@, items@.len(), env, ls);
            let d = direct_all(st, items@, items@.len(), env);
            lemma_went(kd, st, d.st, ls);
            lemma_one_made(kd, d.st, d.frames, ExternV::Array, d.done, d.env, type_of(st, e), name, env, ls);
            lemma_hand_on(kd, st, d.st, produced(d.st, d.frames, ExternV::Array, d.done, d.env, type_of(st, e), name), env, name, ls);
        },
        Term::Record(labels, xs) => {
            assert(decreases_to!(e => xs@));
            lemma_direct_all(kd, st, xs@, xs@.len(), env, ls);
            let d = direct_all(st, xs@, xs@.len(), env);
            lemma_went(kd, st, d.st, ls);
            lemma_one_made(kd, d.st, d.frames, ExternV::Record(labels@), d.done, d.env, type_of(st, e), name, env, ls);
            lemma_hand_on(kd, st, d.st, produced(d.st, d.frames, ExternV::Record(labels@), d.done, d.env, type_of(st, e), name), env, name, ls);
        },
        _ => {},
    }
}

pub proof fn lemma_direct_read(kd: Kinds, st: St, e: Term, env: Seq<Name>, name: Option<Name>, ls: Set<Var>)
    requires
        okay(kd, st),
        fit(kd, e, ls),
        able(st, e, env, ls),
        simple(e, env),
        brought(st),
        name is Some ==> name->0 < kd.lo,
        e is Sel || e is Proj,
    ensures
        at_hand(kd, st, direct_read(st, e, env, name), env, name, ls),
    decreases e, 0nat, 0nat, DtV::Fail, 0nat,
{
    lemma_parts(kd, e, ls);
    lemma_able_parts(st, e, env, ls);
    lemma_stay(kd, st, ls);
    lemma_ev(kd, st);
    lemma_leads_nowhere(env, st.descs);
    reveal_with_fuel(simple, 2);
    match e {
        Term::Sel(rec, label, _) => {
            lemma_direct(kd, st, *rec, env, None, ls);
            let d = direct(st, *rec, env, None);
            lemma_args(d.x, d.env);
            lemma_went(kd, st, d.st, ls);
            lemma_one_made(kd, d.st, d.frames, ExternV::Select(label), seq![d.x], d.env, type_of(st, e), name, env, ls);
            lemma_hand_on(kd, st, d.st, produced(d.st, d.frames, ExternV::Select(label), seq![d.x], d.env, type_of(st, e), name), env, name, ls);
        },
        Term::Proj(t, i) => {
            lemma_direct(kd, st, *t, env, None, ls);
            let d = direct(st, *t, env, None);
            lemma_args(d.x, d.env);
            lemma_went(kd, st, d.st, ls);
            lemma_one_made(kd, d.st, d.frames, ExternV::Field(i), seq![d.x], d.env, type_of(st, e), name, env, ls);
            lemma_hand_on(kd, st, d.st, produced(d.st, d.frames, ExternV::Field(i), seq![d.x], d.env, type_of(st, e), name), env, name, ls);
        },
        _ => {},
    }
}

pub proof fn lemma_direct_extend(kd: Kinds, st: St, e: Term, env: Seq<Name>, name: Option<Name>, ls: Set<Var>)
    requires
        okay(kd, st),
        fit(kd, e, ls),
        able(st, e, env, ls),
        simple(e, env),
        brought(st),
        name is Some ==> name->0 < kd.lo,
        e is Extend,
    ensures
        at_hand(kd, st, direct_extend(st, e, env, name), env, name, ls),
    decreases e, 0nat, 0nat, DtV::Fail, 0nat,
{
    lemma_parts(kd, e, ls);
    lemma_able_parts(st, e, env, ls);
    lemma_stay(kd, st, ls);
    lemma_ev(kd, st);
    lemma_leads_nowhere(env, st.descs);
    reveal_with_fuel(simple, 2);
    if let Term::Extend(rec, label, val) = e {
        lemma_direct(kd, st, *rec, env, None, ls);
        let r = direct(st, *rec, env, None);
        lemma_went(kd, st, r.st, ls);
        lemma_able_on(kd, st, r.st, *val, env, ls);
        lemma_able_more(r.st, *val, env, r.env, ls);
        lemma_simple_grows(*val, env, r.env);
        lemma_direct(kd, r.st, *val, r.env, None, ls);
        let d = direct(r.st, *val, r.env, None);
        lemma_went(kd, r.st, d.st, ls);
        lemma_on(kd, st, r.st, d.st, ls);
        if d.st.next_name < LAST {
            lemma_leads_both(r.frames, d.frames, env, r.env, d.env, st.descs);
        }
        lemma_args2(r.x, d.x, d.env);
        lemma_went(kd, st, d.st, ls);
        lemma_one_made(kd, d.st, r.frames + d.frames, ExternV::Extend(label), seq![r.x, d.x], d.env, type_of(st, e), name, env, ls);
        lemma_hand_on(kd, st, d.st, produced(d.st, r.frames + d.frames, ExternV::Extend(label), seq![r.x, d.x], d.env, type_of(st, e), name), env, name, ls);
    }
}

pub proof fn lemma_direct_let(kd: Kinds, st: St, e: Term, env: Seq<Name>, name: Option<Name>, ls: Set<Var>)
    requires
        okay(kd, st),
        fit(kd, e, ls),
        able(st, e, env, ls),
        simple(e, env),
        brought(st),
        name is Some ==> name->0 < kd.lo,
        e is Let,
    ensures
        at_hand(kd, st, direct_let(st, e, env, name), env, name, ls),
    decreases e, 0nat, 0nat, DtV::Fail, 0nat,
{
    lemma_parts(kd, e, ls);
    lemma_able_parts(st, e, env, ls);
    lemma_stay(kd, st, ls);
    lemma_ev(kd, st);
    lemma_leads_nowhere(env, st.descs);
    reveal_with_fuel(simple, 2);
    if let Term::Let(x, _, rhs, body) = e {
        lemma_direct(kd, st, *rhs, env, Some(x), ls);
        let r = direct(st, *rhs, env, Some(x));
        lemma_went(kd, st, r.st, ls);
        lemma_able_on(kd, st, r.st, *body, env, ls);
        lemma_able_more(r.st, *body, env, r.env, ls);
        lemma_push(env, x);
        lemma_simple_grows(*body, env.push(x), r.env);
        lemma_direct(kd, r.st, *body, r.env, name, ls);
        let d = direct(r.st, *body, r.env, name);
        lemma_went(kd, r.st, d.st, ls);
        lemma_on(kd, st, r.st, d.st, ls);
        if d.st.next_name < LAST {
            lemma_leads_both(r.frames, d.frames, env, r.env, d.env, st.descs);
        }
    }
}

pub proof fn lemma_direct_all(kd: Kinds, st: St, es: Seq<Term>, n: nat, env: Seq<Name>, ls: Set<Var>)
    requires
        okay(kd, st),
        fit_all(kd, es, ls),
        all_able(st, es, env, ls),
        n <= es.len(),
        forall|i: int| 0 <= i < es.len() ==> simple(#[trigger] es[i], env),
        brought(st),
    ensures
        all_at_hand(kd, st, direct_all(st, es, n, env), env, ls),
    decreases es, n, 0nat, DtV::Fail, 0nat,
{
    lemma_stay(kd, st, ls);
    lemma_leads_nowhere(env, st.descs);
    if n > 0 {
        lemma_direct_all(kd, st, es, (n - 1) as nat, env, ls);
        let a = direct_all(st, es, (n - 1) as nat, env);
        lemma_went(kd, st, a.st, ls);
        let t = es[n - 1];
        assert(decreases_to!(es => es[n - 1]));
        lemma_item(kd, es, ls, n - 1);
        lemma_nth(st, es, env, ls, n - 1);
        lemma_able_on(kd, st, a.st, t, env, ls);
        lemma_able_more(a.st, t, env, a.env, ls);
        lemma_simple_grows(t, env, a.env);
        lemma_direct(kd, a.st, t, a.env, None, ls);
        let p = direct(a.st, t, a.env, None);
        lemma_went(kd, a.st, p.st, ls);
        lemma_on(kd, st, a.st, p.st, ls);
        lemma_push(a.done, p.x);
        if p.st.next_name < LAST {
            lemma_leads_both(a.frames, p.frames, env, a.env, p.env, st.descs);
        }
    }
}

pub proof fn lemma_start_all(kd: Kinds, st: St, es: Seq<Term>, n: nat, env: Seq<Name>, base: Set<Name>, ls: Set<Var>)
    requires
        okay(kd, st),
        fit_all(kd, es, ls),
        all_able(st, es, env, ls),
        n <= es.len(),
        brought(st),
    ensures
        all_started(kd, st, start_all(st, es, n, env, base), es, n, env, base, ls),
    decreases es, n, 0nat, DtV::Fail, 0nat,
{
    lemma_stay(kd, st, ls);
    if n == 0 {
        assert(es.skip(0) =~= es);
        lemma_none_started(st, es, ls);
    } else {
        lemma_start_all(kd, st, es, (n - 1) as nat, env, base, ls);
        let a = start_all(st, es, (n - 1) as nat, env, base);
        let want = base.union(a.done.to_set()).union(wants_all(a.st, es.skip(n as int), Seq::empty()));
        lemma_went(kd, st, a.st, ls);
        let t = es[n - 1];
        assert(decreases_to!(es => es[n - 1]));
        lemma_item(kd, es, ls, n - 1);
        lemma_head(a.st, es, (n - 1) as nat, a.env, ls);
        super::going::lemma_direct(kd, a.st, es[n - 1], a.env, None, ls);
        if simple(es[n - 1], a.env) {
            lemma_direct(kd, a.st, es[n - 1], a.env, None, ls);
        }
        let d = direct(a.st, es[n - 1], a.env, None);
        lemma_kept(a.env, want);
        lemma_began(kd, a.st, es[n - 1], a.env, restricted(a.env, want), None, d, ls);
        let (st1, b) = begin(a.st, es[n - 1], a.env, restricted(a.env, want), None, d);
        lemma_rest_kept(kd, a.st, es, n, want, a.env, b.env, ls);
        lemma_all_on(kd, a.st, st1, es.skip(n as int), b.env, ls);
        lemma_on(kd, st, a.st, st1, ls);
        lemma_chained(a.bs, b, env, a.env);
        lemma_one_started(kd, a.st, st1, es, a.bs, b, a.env, ls);
        lemma_done_kept(a.done, b.x, a.env, want, b.env);
        assert forall|x: Name| base.contains(x) && env.contains(x) implies #[trigger] b.env.contains(x) by {
            lemma_keeps(a.env, want, x, b.env);
        }
    }
}

pub proof fn lemma_finish_all(
    kd: Kinds,
    st: St,
    es: Seq<Term>,
    n: nat,
    bs: Seq<BoundV>,
    body: StmtV,
    env: Seq<Name>,
    at: Seq<Name>,
    ls: Set<Var>,
)
    requires
        okay(kd, st),
        fit_all(kd, es, ls),
        n <= es.len(),
        n <= bs.len(),
        brought(st),
        begun(st, es, bs, ls),
        chained(bs.take(n as int), env, at),
        st.next_name < LAST ==> drawn(body, at, st.descs),
    ensures
        ran(kd, st, finish_all(st, es, n, bs, body), env, ls),
    decreases es, n, 1nat, DtV::Fail, 0nat,
{
    lemma_stay(kd, st, ls);
    if n == 0 {
        assert(bs.take(0) =~= Seq::empty());
    } else {
        let b = bs[n - 1];
        assert(decreases_to!(es => es[n - 1]));
        lemma_item(kd, es, ls, n - 1);
        lemma_nth_started(st, es, bs, n - 1, ls);
        assert(bs.take(n as int).last() == b);
        assert(bs.take(n as int).drop_last() =~= bs.take(n - 1));
        if !b.simple {
            lemma_again(kd, st, st, es[n - 1], b, ls);
            lemma_expr(kd, st, es[n - 1], seq![b.kk] + b.outer, b.kk, ls);
        }
        lemma_closed(kd, st, st, b, body, expr(st, es[n - 1], seq![b.kk] + b.outer, b.kk), b.outer, ls);
        let r = ended(st, b, body, expr(st, es[n - 1], seq![b.kk] + b.outer, b.kk));
        lemma_went(kd, st, r.0, ls);
        lemma_started_on(kd, st, r.0, es, bs, ls);
        lemma_finish_all(kd, r.0, es, (n - 1) as nat, bs, r.1, env, b.outer, ls);
        lemma_ran_on(kd, st, r.0, finish_all(r.0, es, (n - 1) as nat, bs, r.1), env, ls);
    }
}

pub proof fn lemma_app(kd: Kinds, st: St, e: Term, env: Seq<Name>, k: Name, ls: Set<Var>)
    requires
        okay(kd, st),
        fit(kd, e, ls),
        able(st, e, env, ls),
        env.contains(k),
        brought(st),
        direct_worker(st, e) is None,
    ensures
        ran(kd, st, lower_app(st, e, env, k), env, ls),
    decreases e, 0nat, 1nat, DtV::Fail, 0nat,
{
    lemma_parts(kd, e, ls);
    lemma_able_parts(st, e, env, ls);
    lemma_stay(kd, st, ls);
    lemma_draw_error(env, st.descs);
    if let Term::App(fun, arg) = e {
        let ev = st.ev;
        let want = wants(st, *arg, Seq::empty()).union(set![k, ev]);
        super::going::lemma_direct(kd, st, *fun, env, None, ls);
        if simple(*fun, env) {
            lemma_direct(kd, st, *fun, env, None, ls);
        }
        let d = direct(st, *fun, env, None);
        lemma_kept(env, want);
        lemma_began(kd, st, *fun, env, restricted(env, want), None, d, ls);
        let (st1, f) = begin(st, *fun, env, restricted(env, want), None, d);
        lemma_able_kept(kd, st, *arg, Seq::empty(), want, env, f.env, ls);
        lemma_able_on(kd, st, st1, *arg, f.env, ls);
        lemma_keeps(env, want, k, f.env);
        lemma_keeps(env, want, ev, f.env);
        let want2 = set![k, f.x, ev];
        super::going::lemma_direct(kd, st1, *arg, f.env, None, ls);
        if simple(*arg, f.env) {
            lemma_direct(kd, st1, *arg, f.env, None, ls);
        }
        let d2 = direct(st1, *arg, f.env, None);
        lemma_kept(f.env, want2);
        lemma_began(kd, st1, *arg, f.env, restricted(f.env, want2), None, d2, ls);
        let (st2, a) = begin(st1, *arg, f.env, restricted(f.env, want2), None, d2);
        lemma_on(kd, st, st1, st2, ls);
        lemma_keeps(f.env, want2, k, a.env);
        lemma_keeps(f.env, want2, f.x, a.env);
        lemma_keeps(f.env, want2, ev, a.env);
        let call = invoke_v(seq![f.x, a.x, k, ev], f.x);
        lemma_draw_invoke(seq![f.x, a.x, k, ev], f.x, a.env, st.descs);
        if !a.simple {
            lemma_again(kd, st1, st2, *arg, a, ls);
            lemma_expr(kd, st2, *arg, seq![a.kk] + a.outer, a.kk, ls);
        }
        lemma_closed(kd, st1, st2, a, call, expr(st2, *arg, seq![a.kk] + a.outer, a.kk), f.env, ls);
        let (st3, s) = ended(st2, a, call, expr(st2, *arg, seq![a.kk] + a.outer, a.kk));
        lemma_went(kd, st1, st3, ls);
        lemma_on(kd, st, st1, st3, ls);
        if !f.simple {
            lemma_again(kd, st, st3, *fun, f, ls);
            lemma_expr(kd, st3, *fun, seq![f.kk] + f.outer, f.kk, ls);
        }
        lemma_closed(kd, st, st3, f, s, expr(st3, *fun, seq![f.kk] + f.outer, f.kk), env, ls);
    }
}

pub proof fn lemma_let(kd: Kinds, st: St, e: Term, env: Seq<Name>, k: Name, ls: Set<Var>)
    requires
        okay(kd, st),
        fit(kd, e, ls),
        able(st, e, env, ls),
        env.contains(k),
        brought(st),
    ensures
        ran(kd, st, lower_let(st, e, env, k), env, ls),
    decreases e, 0nat, 1nat, DtV::Fail, 0nat,
{
    lemma_parts(kd, e, ls);
    lemma_able_parts(st, e, env, ls);
    lemma_stay(kd, st, ls);
    lemma_draw_error(env, st.descs);
    if let Term::Let(x, _, rhs, body) = e {
        let want = wants(st, *body, seq![x]).insert(k);
        lemma_ev(kd, st);
        super::going::lemma_direct(kd, st, *rhs, env, Some(x), ls);
        if simple(*rhs, env) {
            lemma_direct(kd, st, *rhs, env, Some(x), ls);
        }
        let d = direct(st, *rhs, env, Some(x));
        lemma_kept(env, want);
        lemma_began(kd, st, *rhs, env, restricted(env, want), Some(x), d, ls);
        let (st1, b) = begin(st, *rhs, env, restricted(env, want), Some(x), d);
        lemma_able_kept(kd, st, *body, seq![x], want, env, b.env, ls);
        lemma_able_on(kd, st, st1, *body, b.env, ls);
        lemma_keeps(env, want, k, b.env);
        lemma_expr(kd, st1, *body, b.env, k, ls);
        let (st2, s) = expr(st1, *body, b.env, k);
        lemma_went(kd, st1, st2, ls);
        lemma_on(kd, st, st1, st2, ls);
        if !b.simple {
            lemma_again(kd, st, st2, *rhs, b, ls);
            lemma_expr(kd, st2, *rhs, seq![b.kk] + b.outer, b.kk, ls);
        }
        lemma_closed(kd, st, st2, b, s, expr(st2, *rhs, seq![b.kk] + b.outer, b.kk), env, ls);
    }
}

pub proof fn lemma_jump(kd: Kinds, st: St, e: Term, env: Seq<Name>, k: Name, ls: Set<Var>)
    requires
        okay(kd, st),
        fit(kd, e, ls),
        able(st, e, env, ls),
        env.contains(k),
        brought(st),
    ensures
        ran(kd, st, lower_jump(st, e, env, k), env, ls),
    decreases e, 0nat, 1nat, DtV::Fail, 0nat,
{
    lemma_parts(kd, e, ls);
    lemma_able_parts(st, e, env, ls);
    lemma_stay(kd, st, ls);
    lemma_draw_error(env, st.descs);
    if let Term::Jump(j, args, _) = e {
        if st.joins.contains_key(j) {
            let (label, fvs) = st.joins[j];
            let base = set![k, st.ev].union(fvs.to_set());
            lemma_label_there(st, e, j, env, ls);
            assert(decreases_to!(e => args@));
            lemma_start_all(kd, st, args@, args@.len(), env, base, ls);
            let a = start_all(st, args@, args@.len(), env, base);
            lemma_went(kd, st, a.st, ls);
            let sel = (fvs + a.done).push(k).push(st.ev);
            let s = jump_v(sel, Label(label));
            assert(base.contains(k) && base.contains(st.ev));
            assert forall|x: Name| #[trigger] fvs.contains(x) implies a.env.contains(x) by {
                assert(fvs.to_set().contains(x));
                assert(base.contains(x));
            }
            lemma_both(fvs, a.done);
            lemma_push(fvs + a.done, k);
            lemma_push((fvs + a.done).push(k), st.ev);
            lemma_draw_goto(sel, Label(label), a.env, st.descs);
            assert(a.bs.take(args@.len() as int) =~= a.bs);
            lemma_finish_all(kd, a.st, args@, args@.len(), a.bs, s, env, a.env, ls);
            lemma_ran_on(kd, st, a.st, finish_all(a.st, args@, args@.len(), a.bs, s), env, ls);
        }
    }
}

pub proof fn lemma_under(kd: Kinds, st: St, t: Term, env: Seq<Name>, k: Name, ls: Set<Var>)
    requires
        okay(kd, st),
        fit(kd, t, ls),
        able(st, t, env, ls),
        env.contains(k),
        brought(st),
    ensures
        ran(kd, st, lower_under(st, t, env, k), env, ls),
    decreases t, 0nat, 3nat, DtV::Fail, 0nat,
{
    lemma_parts(kd, t, ls);
    lemma_able_parts(st, t, env, ls);
    match t {
        Term::Loc(_, inner) => {
            lemma_under(kd, st, *inner, env, k, ls);
        },
        Term::TyLam(_, _, body) => {
            lemma_expr(kd, st, *body, env, k, ls);
        },
        _ => {
            lemma_expr(kd, st, t, env, k, ls);
        },
    }
}

pub proof fn lemma_resumed(kd: Kinds, st: St, t: Term, env: Seq<Name>, k: Name, ls: Set<Var>)
    requires
        okay(kd, st),
        fit(kd, t, ls),
        able(st, resumed_with(t), env, ls),
        env.contains(k),
        brought(st),
    ensures
        ran(kd, st, lower_resumed(st, t, env, k), env, ls),
    decreases t, 0nat, 3nat, DtV::Fail, 0nat,
{
    lemma_parts(kd, t, ls);
    match t {
        Term::Loc(_, inner) => {
            lemma_resumed(kd, st, *inner, env, k, ls);
        },
        Term::App(_, e) => {
            lemma_expr(kd, st, *e, env, k, ls);
        },
        _ => {
            lemma_expr(kd, st, t, env, k, ls);
        },
    }
}

pub proof fn lemma_start_args(
    kd: Kinds,
    st: St,
    t: Term,
    env: Seq<Name>,
    base: Set<Name>,
    later: Seq<Term>,
    ls: Set<Var>,
)
    requires
        okay(kd, st),
        fit(kd, t, ls),
        args_able(st, t, env, ls),
        all_able(st, later, env, ls),
        all_fit(kd, later, ls),
        brought(st),
    ensures
        args_started(kd, st, start_args(st, t, env, base, later), t, env, base, later, ls),
    decreases t, 0nat, 0nat, DtV::Fail, 0nat,
{
    lemma_parts(kd, t, ls);
    lemma_args_parts(st, t, env, ls);
    lemma_stay(kd, st, ls);
    match t {
        Term::Loc(_, inner) => {
            lemma_start_args(kd, st, *inner, env, base, later, ls);
            lemma_started_loc(start_args(st, *inner, env, base, later).st, t, start_args(st, *inner, env, base, later).bs, ls);
        },
        Term::App(f, arg) => {
            let after = seq![*arg] + later;
            lemma_later(kd, st, *arg, later, env, ls);
            lemma_start_args(kd, st, *f, env, base, after, ls);
            let a = start_args(st, *f, env, base, after);
            lemma_went(kd, st, a.st, ls);
            lemma_first(kd, a.st, *arg, later, a.env, ls);
            let want = base.union(a.done.to_set()).union(wants_all(a.st, later, Seq::empty()));
            super::going::lemma_direct(kd, a.st, *arg, a.env, None, ls);
            if simple(*arg, a.env) {
                lemma_direct(kd, a.st, *arg, a.env, None, ls);
            }
            let d = direct(a.st, *arg, a.env, None);
            lemma_kept(a.env, want);
            lemma_began(kd, a.st, *arg, a.env, restricted(a.env, want), None, d, ls);
            let (st1, b) = begin(a.st, *arg, a.env, restricted(a.env, want), None, d);
            lemma_later_kept(kd, a.st, later, want, a.env, b.env, ls);
            lemma_all_on(kd, a.st, st1, later, b.env, ls);
            lemma_on(kd, st, a.st, st1, ls);
            lemma_chained(a.bs, b, env, a.env);
            lemma_arg_started(kd, a.st, st1, t, a.bs, b, a.env, ls);
            lemma_done_kept(a.done, b.x, a.env, want, b.env);
            assert forall|x: Name| base.contains(x) && env.contains(x) implies #[trigger] b.env.contains(x) by {
                lemma_keeps(a.env, want, x, b.env);
            }
        },
        _ => {
            lemma_no_args(st, t, ls);
        },
    }
}

pub proof fn lemma_finish_args(
    kd: Kinds,
    st: St,
    t: Term,
    bs: Seq<BoundV>,
    body: StmtV,
    env: Seq<Name>,
    at: Seq<Name>,
    ls: Set<Var>,
)
    requires
        okay(kd, st),
        fit(kd, t, ls),
        brought(st),
        args_begun(st, t, bs, ls),
        chained(bs, env, at),
        st.next_name < LAST ==> drawn(body, at, st.descs),
    ensures
        ran(kd, st, finish_args(st, t, bs, body), env, ls),
    decreases t, 0nat, 0nat, DtV::Fail, 0nat,
{
    lemma_parts(kd, t, ls);
    lemma_stay(kd, st, ls);
    lemma_args_begun(st, t, bs, ls);
    match t {
        Term::Loc(_, inner) => {
            lemma_finish_args(kd, st, *inner, bs, body, env, at, ls);
        },
        Term::App(f, arg) => {
            if bs.len() > 0 {
                let b = bs.last();
                if !b.simple {
                    lemma_again(kd, st, st, *arg, b, ls);
                    lemma_expr(kd, st, *arg, seq![b.kk] + b.outer, b.kk, ls);
                }
                lemma_closed(kd, st, st, b, body, expr(st, *arg, seq![b.kk] + b.outer, b.kk), b.outer, ls);
                let r = ended(st, b, body, expr(st, *arg, seq![b.kk] + b.outer, b.kk));
                lemma_went(kd, st, r.0, ls);
                lemma_args_begun_on(kd, st, r.0, *f, bs.drop_last(), ls);
                lemma_finish_args(kd, r.0, *f, bs.drop_last(), r.1, env, b.outer, ls);
                lemma_ran_on(kd, st, r.0, finish_args(r.0, *f, bs.drop_last(), r.1), env, ls);
            }
        },
        _ => {},
    }
}

pub proof fn lemma_known(kd: Kinds, st: St, e: Term, f: Var, env: Seq<Name>, k: Name, ls: Set<Var>)
    requires
        okay(kd, st),
        fit(kd, e, ls),
        able(st, e, env, ls),
        env.contains(k),
        brought(st),
        e is App,
        direct_worker(st, e) == Some(f),
    ensures
        ran(kd, st, lower_known(st, e, f, env, k), env, ls),
    decreases e, 0nat, 1nat, DtV::Fail, 0nat,
{
    lemma_able_parts(st, e, env, ls);
    let takes = st.worker_ev.contains(f);
    let base = if takes {
        set![k, st.ev]
    } else {
        set![k]
    };
    lemma_none_later(kd, st, env, ls);
    lemma_start_args(kd, st, e, env, base, Seq::empty(), ls);
    let a = start_args(st, e, env, base, Seq::empty());
    lemma_went(kd, st, a.st, ls);
    lemma_stay(kd, a.st, ls);
    lemma_scope_descs(kd, a.st);
    lemma_leads_nowhere(a.env, st.descs);
    if let Some(tys) = described_args(st, f, head_tys(e)) {
        super::stride::lemma_with_descs(a.st, tys, tys.len(), a.env);
        lemma_with_descs(a.st, tys, tys.len(), a.env);
        lemma_quietly(kd, a.st, with_descs(a.st, tys, tys.len(), a.env).st, ls);
        lemma_brought(a.st, with_descs(a.st, tys, tys.len(), a.env).st);
    }
    let d = match described_args(st, f, head_tys(e)) {
        Some(tys) => with_descs(a.st, tys, tys.len(), a.env),
        None => SeveralV { st: a.st, frames: Seq::empty(), done: Seq::empty(), env: a.env },
    };
    lemma_went(kd, a.st, d.st, ls);
    lemma_on(kd, st, a.st, d.st, ls);
    lemma_went(kd, st, d.st, ls);
    let sel = (d.done + a.done).push(k);
    let all = if takes {
        sel.push(st.ev)
    } else {
        sel
    };
    assert(base.contains(k));
    lemma_both(d.done, a.done);
    lemma_push(d.done + a.done, k);
    lemma_push(sel, st.ev);
    assert(a.env.contains(k));
    assert(takes ==> a.env.contains(st.ev));
    assert(found(all, d.env, st.descs));
    lemma_draw_goto(all, Label(st.workers[f].0), d.env, st.descs);
    lemma_plugged(d.frames, jump_v(all, Label(st.workers[f].0)), a.env, d.env, st.descs);
    let s = plugged(d.frames, jump_v(all, Label(st.workers[f].0)));
    lemma_args_begun_on(kd, a.st, d.st, e, a.bs, ls);
    lemma_finish_args(kd, d.st, e, a.bs, s, env, a.env, ls);
    lemma_ran_on(kd, st, d.st, finish_args(d.st, e, a.bs, s), env, ls);
}

pub proof fn lemma_if(kd: Kinds, st: St, e: Term, env: Seq<Name>, k: Name, ls: Set<Var>)
    requires
        okay(kd, st),
        fit(kd, e, ls),
        able(st, e, env, ls),
        env.contains(k),
        brought(st),
    ensures
        ran(kd, st, lower_if(st, e, env, k), env, ls),
    decreases e, 0nat, 1nat, DtV::Fail, 0nat,
{
    lemma_parts(kd, e, ls);
    lemma_able_parts(st, e, env, ls);
    lemma_stay(kd, st, ls);
    lemma_draw_error(env, st.descs);
    if let Term::If(c, t, f) = e {
        lemma_branch(kd, st, e, env, k, ls);
        if let Term::Prim(p, cargs, _) = *c {
            lemma_parts(kd, *c, ls);
            lemma_able_parts(st, *c, env, ls);
            reveal_with_fuel(simple, 2);
            assert(decreases_to!(e => c));
            assert(decreases_to!(c => cargs@));
            if p.is_comparison() && simple(*c, env) {
                match const_arg(p, cargs@) {
                    Some((i, l)) => {
                        let x = cargs@[if i == 0 { 0 } else { 1 }];
                        assert(decreases_to!(cargs@ => x));
                        lemma_item(kd, cargs@, ls, if i == 0 { 0 } else { 1 });
                        lemma_nth(st, cargs@, env, ls, if i == 0 { 0 } else { 1 });
                        lemma_direct(kd, st, x, env, None, ls);
                        let d = direct(st, x, env, None);
                        lemma_args(d.x, d.env);
                        lemma_went(kd, st, d.st, ls);
                        lemma_able_on(kd, st, d.st, *t, env, ls);
                        lemma_able_more(d.st, *t, env, d.env, ls);
                        lemma_expr(kd, d.st, *t, d.env, k, ls);
                        let (st1, yes) = expr(d.st, *t, d.env, k);
                        lemma_went(kd, d.st, st1, ls);
                        lemma_on(kd, st, d.st, st1, ls);
                        lemma_able_on(kd, st, st1, *f, env, ls);
                        lemma_able_more(st1, *f, env, d.env, ls);
                        lemma_expr(kd, st1, *f, d.env, k, ls);
                        let (st2, no) = expr(st1, *f, d.env, k);
                        lemma_went(kd, st1, st2, ls);
                        lemma_on(kd, st, st1, st2, ls);
                        if st2.next_name < LAST {
                            lemma_draw_two(ExternV::BranchPrimK(p, l), seq![d.x], d.env, no, yes, st.descs);
                            lemma_plugged(d.frames, two_v(ExternV::BranchPrimK(p, l), seq![d.x], d.env, no, yes), env, d.env, st.descs);
                        }
                    },
                    None => {
                        lemma_direct_all(kd, st, cargs@, cargs@.len(), env, ls);
                        let d = direct_all(st, cargs@, cargs@.len(), env);
                        lemma_went(kd, st, d.st, ls);
                        lemma_able_on(kd, st, d.st, *t, env, ls);
                        lemma_able_more(d.st, *t, env, d.env, ls);
                        lemma_expr(kd, d.st, *t, d.env, k, ls);
                        let (st1, yes) = expr(d.st, *t, d.env, k);
                        lemma_went(kd, d.st, st1, ls);
                        lemma_on(kd, st, d.st, st1, ls);
                        lemma_able_on(kd, st, st1, *f, env, ls);
                        lemma_able_more(st1, *f, env, d.env, ls);
                        lemma_expr(kd, st1, *f, d.env, k, ls);
                        let (st2, no) = expr(st1, *f, d.env, k);
                        lemma_went(kd, st1, st2, ls);
                        lemma_on(kd, st, st1, st2, ls);
                        if st2.next_name < LAST {
                            lemma_draw_two(ExternV::BranchPrim(p), d.done, d.env, no, yes, st.descs);
                            lemma_plugged(d.frames, two_v(ExternV::BranchPrim(p), d.done, d.env, no, yes), env, d.env, st.descs);
                        }
                    },
                }
            }
        }
    }
}

pub proof fn lemma_branch(kd: Kinds, st: St, e: Term, env: Seq<Name>, k: Name, ls: Set<Var>)
    requires
        okay(kd, st),
        fit(kd, e, ls),
        able(st, e, env, ls),
        env.contains(k),
        brought(st),
    ensures
        ran(kd, st, lower_branch(st, e, env, k), env, ls),
    decreases e, 0nat, 0nat, DtV::Fail, 0nat,
{
    lemma_parts(kd, e, ls);
    lemma_able_parts(st, e, env, ls);
    lemma_stay(kd, st, ls);
    lemma_draw_error(env, st.descs);
    if let Term::If(c, t, f) = e {
        let want = wants(st, *t, Seq::empty()).union(wants(st, *f, Seq::empty())).insert(k);
        super::going::lemma_direct(kd, st, *c, env, None, ls);
        if simple(*c, env) {
            lemma_direct(kd, st, *c, env, None, ls);
        }
        let d = direct(st, *c, env, None);
        lemma_kept(env, want);
        lemma_began(kd, st, *c, env, restricted(env, want), None, d, ls);
        let (st1, b) = begin(st, *c, env, restricted(env, want), None, d);
        lemma_able_kept(kd, st, *t, Seq::empty(), want, env, b.env, ls);
        lemma_able_on(kd, st, st1, *t, b.env, ls);
        lemma_able_kept(kd, st, *f, Seq::empty(), want, env, b.env, ls);
        lemma_keeps(env, want, k, b.env);
        lemma_expr(kd, st1, *t, b.env, k, ls);
        let (st2, yes) = expr(st1, *t, b.env, k);
        lemma_went(kd, st1, st2, ls);
        lemma_on(kd, st, st1, st2, ls);
        lemma_able_on(kd, st, st2, *f, b.env, ls);
        lemma_expr(kd, st2, *f, b.env, k, ls);
        let (st3, no) = expr(st2, *f, b.env, k);
        lemma_went(kd, st2, st3, ls);
        lemma_on(kd, st, st2, st3, ls);
        lemma_args(b.x, b.env);
        if st3.next_name < LAST {
            lemma_draw_two(ExternV::Branch, seq![b.x], b.env, no, yes, st.descs);
        }
        if !b.simple {
            lemma_again(kd, st, st3, *c, b, ls);
            lemma_expr(kd, st3, *c, seq![b.kk] + b.outer, b.kk, ls);
        }
        lemma_closed(kd, st, st3, b, two_v(ExternV::Branch, seq![b.x], b.env, no, yes), expr(st3, *c, seq![b.kk] + b.outer, b.kk), env, ls);
    }
}

pub proof fn lemma_prim(kd: Kinds, st: St, e: Term, env: Seq<Name>, k: Name, ls: Set<Var>)
    requires
        okay(kd, st),
        fit(kd, e, ls),
        able(st, e, env, ls),
        env.contains(k),
        brought(st),
    ensures
        ran(kd, st, lower_prim(st, e, env, k), env, ls),
    decreases e, 0nat, 1nat, DtV::Fail, 0nat,
{
    lemma_parts(kd, e, ls);
    lemma_able_parts(st, e, env, ls);
    lemma_stay(kd, st, ls);
    lemma_draw_error(env, st.descs);
    if let Term::Prim(prim, args, ty) = e {
        assert(decreases_to!(e => args@));
        match const_arg(prim, args@) {
            Some((i, l)) => {
                let x = args@[if i == 0 { 0 } else { 1 }];
                assert(decreases_to!(args@ => x));
                lemma_item(kd, args@, ls, if i == 0 { 0 } else { 1 });
                lemma_nth(st, args@, env, ls, if i == 0 { 0 } else { 1 });
                let want = set![k];
                super::going::lemma_direct(kd, st, x, env, None, ls);
                if simple(x, env) {
                    lemma_direct(kd, st, x, env, None, ls);
                }
                let d = direct(st, x, env, None);
                lemma_kept(env, want);
                lemma_began(kd, st, x, env, restricted(env, want), None, d, ls);
                let (st1, b) = begin(st, x, env, restricted(env, want), None, d);
                lemma_keeps(env, want, k, b.env);
                lemma_args(b.x, b.env);
                lemma_answered(kd, st1, ExternV::PrimK(prim, l), seq![b.x], b.env, Some(ty), k, ls);
                let p = produced(st1, Seq::empty(), ExternV::PrimK(prim, l), seq![b.x], b.env, Some(ty), None);
                lemma_went(kd, st1, p.st, ls);
                lemma_on(kd, st, st1, p.st, ls);
                if !b.simple {
                    lemma_again(kd, st, p.st, x, b, ls);
                    lemma_expr(kd, p.st, x, seq![b.kk] + b.outer, b.kk, ls);
                }
                lemma_closed(kd, st, p.st, b, plugged(p.frames, ret_v(k, p.x)), expr(p.st, x, seq![b.kk] + b.outer, b.kk), env, ls);
            },
            None => {
                lemma_start_all(kd, st, args@, args@.len(), env, set![k], ls);
                let a = start_all(st, args@, args@.len(), env, set![k]);
                lemma_went(kd, st, a.st, ls);
                assert(set![k].contains(k));
                lemma_answered(kd, a.st, ExternV::Prim(prim), a.done, a.env, Some(ty), k, ls);
                let p = produced(a.st, Seq::empty(), ExternV::Prim(prim), a.done, a.env, Some(ty), None);
                lemma_went(kd, a.st, p.st, ls);
                lemma_on(kd, st, a.st, p.st, ls);
                let s = plugged(p.frames, ret_v(k, p.x));
                lemma_started_on(kd, a.st, p.st, args@, a.bs, ls);
                assert(a.bs.take(args@.len() as int) =~= a.bs);
                lemma_finish_all(kd, p.st, args@, args@.len(), a.bs, s, env, a.env, ls);
                let f = finish_all(p.st, args@, args@.len(), a.bs, s);
                lemma_ran_on(kd, st, p.st, f, env, ls);
            },
        }
    }
}

pub proof fn lemma_extend(kd: Kinds, st: St, e: Term, env: Seq<Name>, k: Name, ls: Set<Var>)
    requires
        okay(kd, st),
        fit(kd, e, ls),
        able(st, e, env, ls),
        env.contains(k),
        brought(st),
    ensures
        ran(kd, st, lower_extend(st, e, env, k), env, ls),
    decreases e, 0nat, 1nat, DtV::Fail, 0nat,
{
    lemma_parts(kd, e, ls);
    lemma_able_parts(st, e, env, ls);
    lemma_stay(kd, st, ls);
    lemma_draw_error(env, st.descs);
    if let Term::Extend(rec, label, val) = e {
        let want = set![k].union(wants(st, *val, Seq::empty()));
        super::going::lemma_direct(kd, st, *rec, env, None, ls);
        if simple(*rec, env) {
            lemma_direct(kd, st, *rec, env, None, ls);
        }
        let d = direct(st, *rec, env, None);
        lemma_kept(env, want);
        lemma_began(kd, st, *rec, env, restricted(env, want), None, d, ls);
        let (st1, r) = begin(st, *rec, env, restricted(env, want), None, d);
        lemma_able_kept(kd, st, *val, Seq::empty(), want, env, r.env, ls);
        lemma_able_on(kd, st, st1, *val, r.env, ls);
        lemma_keeps(env, want, k, r.env);
        let want2 = set![k, r.x];
        super::going::lemma_direct(kd, st1, *val, r.env, None, ls);
        if simple(*val, r.env) {
            lemma_direct(kd, st1, *val, r.env, None, ls);
        }
        let d2 = direct(st1, *val, r.env, None);
        lemma_kept(r.env, want2);
        lemma_began(kd, st1, *val, r.env, restricted(r.env, want2), None, d2, ls);
        let (st2, v) = begin(st1, *val, r.env, restricted(r.env, want2), None, d2);
        lemma_on(kd, st, st1, st2, ls);
        lemma_keeps(r.env, want2, k, v.env);
        lemma_keeps(r.env, want2, r.x, v.env);
        let op = ExternV::Extend(label);
        lemma_args2(r.x, v.x, v.env);
        lemma_answered(kd, st2, op, seq![r.x, v.x], v.env, type_of(st, e), k, ls);
        let p = produced(st2, Seq::empty(), op, seq![r.x, v.x], v.env, type_of(st, e), None);
        lemma_went(kd, st2, p.st, ls);
        lemma_on(kd, st1, st2, p.st, ls);
        lemma_on(kd, st, st1, p.st, ls);
        let done = plugged(p.frames, ret_v(k, p.x));
        if !v.simple {
            lemma_again(kd, st1, p.st, *val, v, ls);
            lemma_expr(kd, p.st, *val, seq![v.kk] + v.outer, v.kk, ls);
        }
        lemma_closed(kd, st1, p.st, v, done, expr(p.st, *val, seq![v.kk] + v.outer, v.kk), r.env, ls);
        let (st3, s) = ended(p.st, v, done, expr(p.st, *val, seq![v.kk] + v.outer, v.kk));
        lemma_went(kd, st1, st3, ls);
        lemma_on(kd, st, st1, st3, ls);
        if !r.simple {
            lemma_again(kd, st, st3, *rec, r, ls);
            lemma_expr(kd, st3, *rec, seq![r.kk] + r.outer, r.kk, ls);
        }
        lemma_closed(kd, st, st3, r, s, expr(st3, *rec, seq![r.kk] + r.outer, r.kk), env, ls);
    }
}

} // verus!
