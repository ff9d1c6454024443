//! Every block lowering writes names the whole environment it is entered in:
//! the induction over the terms it is given.

use super::effect::perform;
use super::follow_arms::lemma_case;
use super::follow_handle::lemma_handle;
use super::frame::{built, plugged, produced, rename_v, FrameV, SeveralV};
use super::live::{bound_by, direct_worker, params_of, restricted, wants, wants_all};
use super::scheme::{
    begin, direct, direct_all, direct_data, direct_extend, direct_let, direct_list, direct_loc, direct_object,
    direct_prim, direct_read, ended, expr, finish_all, finish_args, group_wants, instantiate, lambda, lower_app,
    lower_array, lower_binds, lower_branch, lower_ctor, lower_extend, lower_if, lower_join, lower_jump, lower_known,
    lower_lam, lower_let, lower_letrec, lower_lit, lower_loc, lower_perform, lower_prim, lower_proj, lower_record,
    lower_resumed, lower_sel, lower_tuple, lower_tyapp, lower_tylam, lower_under, lower_var, register, seconds,
    start_all, start_args, take_labels, ty_closure, with_descs, BoundV,
};
use super::shape::{abs_id, abstracts, const_arg, head_tys, over_types};
use super::state::St;
use super::tree::DtV;
use super::types::{described_args, type_of};
use super::whole::{
    chained, leads, lemma_begin, lemma_built, lemma_chained, lemma_ended, lemma_leads_both, lemma_leads_nowhere,
    lemma_leads_one, lemma_made, lemma_operation, lemma_plugged, lemma_produced, lemma_with_descs, lemma_wrote,
    sound,
};
use crate::seq::balance::{lemma_error, lemma_goto, lemma_invoke, lemma_mark, lemma_object, lemma_two, scoped};
use crate::seq::ir::{Label, Name};
use crate::seq::view::{invoke_v, jump_v, ret_v, two_v, BlockV, ExternV, StmtV};
use crate::terms::prim::{Lit, Prim};
use crate::terms::symbol;
use crate::terms::term::{peeled, Term, Var};
use crate::terms::ty::{type_of_lit, Poly};
use vstd::prelude::*;

verus! {

pub proof fn lemma_var(st: St, v: Var, env: Seq<Name>, k: Name)
    requires
        sound(st),
    ensures
        sound(lower_var(st, v, env, k).0),
        scoped(lower_var(st, v, env, k).1, env),
{
    lemma_error(env);
    lemma_invoke(seq![k, v], k, env);
    let sel = st.globals[v].1.push(k);
    lemma_goto(sel, Label(st.globals[v].0), env);
    lemma_goto(sel.push(st.ev), Label(st.globals[v].0), env);
}

pub proof fn lemma_lit(st: St, l: Lit, env: Seq<Name>, k: Name)
    requires
        sound(st),
    ensures
        sound(lower_lit(st, l, env, k).0),
        scoped(lower_lit(st, l, env, k).1, env),
{
    let ty = Some(type_of_lit(l));
    lemma_leads_nowhere(env);
    lemma_produced(st, Seq::empty(), ExternV::Lit(l), Seq::empty(), env, ty, None, env);
    let p = produced(st, Seq::empty(), ExternV::Lit(l), Seq::empty(), env, ty, None);
    lemma_invoke(seq![k, p.x], k, p.env);
    lemma_plugged(p.frames, ret_v(k, p.x), env, p.env);
}

pub proof fn lemma_instantiate(st: St, v: Var, ds: Seq<Name>, env: Seq<Name>, k: Name)
    requires
        sound(st),
    ensures
        sound(instantiate(st, v, ds, env, k).0),
        scoped(instantiate(st, v, ds, env, k).1, env),
{
    reveal(instantiate);
    lemma_error(env);
    assert((seq![v] + ds).push(k)[0] == v);
    lemma_invoke((seq![v] + ds).push(k), v, env);
    let sel = (st.globals[v].1 + ds).push(k);
    lemma_goto(sel, Label(st.globals[v].0), env);
    lemma_goto(sel.push(st.ev), Label(st.globals[v].0), env);
}

pub proof fn lemma_take_labels(st: St, n: nat)
    ensures
        take_labels(st, n).0.defs == st.defs,
    decreases n,
{
    if n > 0 {
        lemma_take_labels(st, (n - 1) as nat);
    }
}

pub proof fn lemma_register(st: St, vs: Seq<Var>, labels: Seq<u32>, fvs: Seq<Name>, n: nat)
    ensures
        register(st, vs, labels, fvs, n).defs == st.defs,
    decreases n,
{
    if n > 0 && n <= vs.len() {
        lemma_register(st, vs, labels, fvs, (n - 1) as nat);
    }
}

/// How many arguments a call has.
pub open spec fn arity(t: Term) -> nat
    decreases t,
{
    match t {
        Term::Loc(_, inner) => arity(*inner),
        Term::App(f, _) => arity(*f) + 1,
        _ => 0,
    }
}

pub proof fn lemma_expr(st: St, e: Term, env: Seq<Name>, k: Name)
    requires
        sound(st),
    ensures
        sound(expr(st, e, env, k).0),
        scoped(expr(st, e, env, k).1, env),
    decreases e, 0nat, 2nat, DtV::Fail, 0nat,
{
    lemma_error(env);
    let st = st.answering(k);
    match e {
        Term::Loc(_, _) => {
            lemma_loc(st, e, env, k);
        },
        Term::TyLam(_, _, _) => {
            lemma_tylam(st, e, env, k);
        },
        Term::TyApp(_, _) => {
            lemma_tyapp(st, e, env, k);
        },
        Term::Var(v) => {
            lemma_var(st, v, env, k);
        },
        Term::Lit(l) => {
            lemma_lit(st, l, env, k);
        },
        Term::Lam(_, _, _) => {
            lemma_lam(st, e, env, k);
        },
        Term::App(_, _) => {
            match direct_worker(st, e) {
                Some(f) => {
                    lemma_known(st, e, f, env, k);
                },
                None => {
                    lemma_app(st, e, env, k);
                },
            }
        },
        Term::Let(_, _, _, _) => {
            lemma_let(st, e, env, k);
        },
        Term::Join { .. } => {
            lemma_join(st, e, env, k);
        },
        Term::Jump(_, _, _) => {
            lemma_jump(st, e, env, k);
        },
        Term::LetRec(_, _) => {
            lemma_letrec(st, e, env, k);
        },
        Term::If(_, _, _) => {
            lemma_if(st, e, env, k);
        },
        Term::Prim(_, _, _) => {
            lemma_prim(st, e, env, k);
        },
        Term::Ctor(_, _, _) => {
            lemma_ctor(st, e, env, k);
        },
        Term::Tuple(_) => {
            lemma_tuple(st, e, env, k);
        },
        Term::Array(_, _) => {
            lemma_array(st, e, env, k);
        },
        Term::Record(_, _) => {
            lemma_record(st, e, env, k);
        },
        Term::Sel(_, _, _) => {
            lemma_sel(st, e, env, k);
        },
        Term::Proj(_, _) => {
            lemma_proj(st, e, env, k);
        },
        Term::Extend(_, _, _) => {
            lemma_extend(st, e, env, k);
        },
        Term::Case(_, _, _) => {
            lemma_case(st, e, env, k);
        },
        Term::Perform(_, _, _, _) => {
            lemma_perform(st, e, env, k);
        },
        Term::Handle { .. } => {
            lemma_handle(st, e, env, k);
        },
        Term::Error => {},
    }
}

pub proof fn lemma_loc(st: St, e: Term, env: Seq<Name>, k: Name)
    requires
        sound(st),
    ensures
        sound(lower_loc(st, e, env, k).0),
        scoped(lower_loc(st, e, env, k).1, env),
    decreases e, 0nat, 1nat, DtV::Fail, 0nat,
{
    lemma_error(env);
    if let Term::Loc(loc, inner) = e {
        lemma_expr(st, *inner, env, k);
        lemma_mark(loc, expr(st, *inner, env, k).1, env);
    }
}

pub proof fn lemma_tylam(st: St, e: Term, env: Seq<Name>, k: Name)
    requires
        sound(st),
    ensures
        sound(lower_tylam(st, e, env, k).0),
        scoped(lower_tylam(st, e, env, k).1, env),
    decreases e, 0nat, 1nat, DtV::Fail, 0nat,
{
    lemma_error(env);
    if let Term::TyLam(id, vs, inner) = e {
        if over_types(vs@) {
            lemma_ty_closure(st, id, *inner, env);
            let (st1, captures, method) = ty_closure(st, id, *inner, env);
            lemma_invoke(seq![k, st1.next_name], k, seq![st1.next_name] + env);
            lemma_object(st1.next_name, captures, method, ret_v(k, st1.next_name), env);
        } else {
            lemma_expr(st, *inner, env, k);
        }
    }
}

pub proof fn lemma_tyapp(st: St, e: Term, env: Seq<Name>, k: Name)
    requires
        sound(st),
    ensures
        sound(lower_tyapp(st, e, env, k).0),
        scoped(lower_tyapp(st, e, env, k).1, env),
    decreases e, 0nat, 1nat, DtV::Fail, 0nat,
{
    lemma_error(env);
    if let Term::TyApp(inner, tys) = e {
        lemma_expr(st, *inner, env, k);
        if let Term::Var(v) = peeled(*inner) {
            if let Some(args) = described_args(st, v, Some(tys@)) {
                lemma_with_descs(st, args, args.len(), env);
                let d = with_descs(st, args, args.len(), env);
                lemma_instantiate(d.st, v, d.done, d.env, k);
                let (st1, s) = instantiate(d.st, v, d.done, d.env, k);
                lemma_plugged(d.frames, s, env, d.env);
            }
        }
    }
}

pub proof fn lemma_lam(st: St, e: Term, env: Seq<Name>, k: Name)
    requires
        sound(st),
    ensures
        sound(lower_lam(st, e, env, k).0),
        scoped(lower_lam(st, e, env, k).1, env),
    decreases e, 0nat, 1nat, DtV::Fail, 0nat,
{
    lemma_error(env);
    if let Term::Lam(param, _, body) = e {
        lemma_lambda(st, param, *body, env);
        let (st1, captures, method) = lambda(st, param, *body, env);
        lemma_invoke(seq![k, st1.next_name], k, seq![st1.next_name] + env);
        lemma_object(st1.next_name, captures, method, ret_v(k, st1.next_name), env);
    }
}

pub proof fn lemma_ctor(st: St, e: Term, env: Seq<Name>, k: Name)
    requires
        sound(st),
    ensures
        sound(lower_ctor(st, e, env, k).0),
        scoped(lower_ctor(st, e, env, k).1, env),
    decreases e, 0nat, 1nat, DtV::Fail, 0nat,
{
    lemma_error(env);
    if let Term::Ctor(c, ty, args) = e {
        let n = args@.len();
        assert(decreases_to!(e => args@));
        lemma_start_all(st.tagged(c), args@, n, env, set![k]);
        let a = start_all(st.tagged(c), args@, n, env, set![k]);
        lemma_leads_nowhere(a.env);
        lemma_built(a.st, Seq::empty(), c, st.tag(c), a.done, a.env, Some(ty), None, a.env);
        let p = built(a.st, Seq::empty(), c, st.tag(c), a.done, a.env, Some(ty), None);
        lemma_invoke(seq![k, p.x], k, p.env);
        lemma_plugged(p.frames, ret_v(k, p.x), a.env, p.env);
        assert(a.bs.take(a.bs.len() as int) =~= a.bs);
        lemma_finish_all(p.st, args@, n, a.bs, plugged(p.frames, ret_v(k, p.x)), env, a.env);
    }
}

pub proof fn lemma_tuple(st: St, e: Term, env: Seq<Name>, k: Name)
    requires
        sound(st),
    ensures
        sound(lower_tuple(st, e, env, k).0),
        scoped(lower_tuple(st, e, env, k).1, env),
    decreases e, 0nat, 1nat, DtV::Fail, 0nat,
{
    lemma_error(env);
    if let Term::Tuple(items) = e {
        let n = items@.len();
        assert(decreases_to!(e => items@));
        lemma_start_all(st.tagged(symbol::TUPLE), items@, n, env, set![k]);
        let a = start_all(st.tagged(symbol::TUPLE), items@, n, env, set![k]);
        lemma_leads_nowhere(a.env);
        lemma_built(a.st, Seq::empty(), symbol::TUPLE, st.tag(symbol::TUPLE), a.done, a.env, type_of(st, e), None, a.env);
        let p = built(a.st, Seq::empty(), symbol::TUPLE, st.tag(symbol::TUPLE), a.done, a.env, type_of(st, e), None);
        lemma_invoke(seq![k, p.x], k, p.env);
        lemma_plugged(p.frames, ret_v(k, p.x), a.env, p.env);
        assert(a.bs.take(a.bs.len() as int) =~= a.bs);
        lemma_finish_all(p.st, items@, n, a.bs, plugged(p.frames, ret_v(k, p.x)), env, a.env);
    }
}

pub proof fn lemma_array(st: St, e: Term, env: Seq<Name>, k: Name)
    requires
        sound(st),
    ensures
        sound(lower_array(st, e, env, k).0),
        scoped(lower_array(st, e, env, k).1, env),
    decreases e, 0nat, 1nat, DtV::Fail, 0nat,
{
    lemma_error(env);
    if let Term::Array(items, _) = e {
        let n = items@.len();
        assert(decreases_to!(e => items@));
        lemma_start_all(st, items@, n, env, set![k]);
        let a = start_all(st, items@, n, env, set![k]);
        lemma_leads_nowhere(a.env);
        lemma_produced(a.st, Seq::empty(), ExternV::Array, a.done, a.env, type_of(st, e), None, a.env);
        let p = produced(a.st, Seq::empty(), ExternV::Array, a.done, a.env, type_of(st, e), None);
        lemma_invoke(seq![k, p.x], k, p.env);
        lemma_plugged(p.frames, ret_v(k, p.x), a.env, p.env);
        assert(a.bs.take(a.bs.len() as int) =~= a.bs);
        lemma_finish_all(p.st, items@, n, a.bs, plugged(p.frames, ret_v(k, p.x)), env, a.env);
    }
}

pub proof fn lemma_record(st: St, e: Term, env: Seq<Name>, k: Name)
    requires
        sound(st),
    ensures
        sound(lower_record(st, e, env, k).0),
        scoped(lower_record(st, e, env, k).1, env),
    decreases e, 0nat, 1nat, DtV::Fail, 0nat,
{
    lemma_error(env);
    if let Term::Record(labels, xs) = e {
        let n = xs@.len();
        assert(decreases_to!(e => xs@));
        lemma_start_all(st, xs@, n, env, set![k]);
        let a = start_all(st, xs@, n, env, set![k]);
        lemma_leads_nowhere(a.env);
        lemma_produced(a.st, Seq::empty(), ExternV::Record(labels@), a.done, a.env, type_of(st, e), None, a.env);
        let p = produced(a.st, Seq::empty(), ExternV::Record(labels@), a.done, a.env, type_of(st, e), None);
        lemma_invoke(seq![k, p.x], k, p.env);
        lemma_plugged(p.frames, ret_v(k, p.x), a.env, p.env);
        assert(a.bs.take(a.bs.len() as int) =~= a.bs);
        lemma_finish_all(p.st, xs@, n, a.bs, plugged(p.frames, ret_v(k, p.x)), env, a.env);
    }
}

pub proof fn lemma_sel(st: St, e: Term, env: Seq<Name>, k: Name)
    requires
        sound(st),
    ensures
        sound(lower_sel(st, e, env, k).0),
        scoped(lower_sel(st, e, env, k).1, env),
    decreases e, 0nat, 1nat, DtV::Fail, 0nat,
{
    lemma_error(env);
    if let Term::Sel(rec, label, ty) = e {
        lemma_direct(st, *rec, env, None);
        let d = direct(st, *rec, env, None);
        lemma_begin(st, *rec, env, restricted(env, set![k]), None, d);
        let (st1, b) = begin(st, *rec, env, restricted(env, set![k]), None, d);
        lemma_leads_nowhere(b.env);
        lemma_produced(st1, Seq::empty(), ExternV::Select(label), seq![b.x], b.env, Some(ty), None, b.env);
        let p = produced(st1, Seq::empty(), ExternV::Select(label), seq![b.x], b.env, Some(ty), None);
        lemma_invoke(seq![k, p.x], k, p.env);
        lemma_plugged(p.frames, ret_v(k, p.x), b.env, p.env);
        lemma_expr(p.st, *rec, seq![b.kk] + b.outer, b.kk);
        lemma_ended(
            p.st,
            b,
            plugged(p.frames, ret_v(k, p.x)),
            expr(p.st, *rec, seq![b.kk] + b.outer, b.kk),
            env,
        );
    }
}

pub proof fn lemma_proj(st: St, e: Term, env: Seq<Name>, k: Name)
    requires
        sound(st),
    ensures
        sound(lower_proj(st, e, env, k).0),
        scoped(lower_proj(st, e, env, k).1, env),
    decreases e, 0nat, 1nat, DtV::Fail, 0nat,
{
    lemma_error(env);
    if let Term::Proj(t, i) = e {
        lemma_direct(st, *t, env, None);
        let d = direct(st, *t, env, None);
        lemma_begin(st, *t, env, restricted(env, set![k]), None, d);
        let (st1, b) = begin(st, *t, env, restricted(env, set![k]), None, d);
        lemma_leads_nowhere(b.env);
        lemma_produced(st1, Seq::empty(), ExternV::Field(i), seq![b.x], b.env, type_of(st, e), None, b.env);
        let p = produced(st1, Seq::empty(), ExternV::Field(i), seq![b.x], b.env, type_of(st, e), None);
        lemma_invoke(seq![k, p.x], k, p.env);
        lemma_plugged(p.frames, ret_v(k, p.x), b.env, p.env);
        lemma_expr(p.st, *t, seq![b.kk] + b.outer, b.kk);
        lemma_ended(
            p.st,
            b,
            plugged(p.frames, ret_v(k, p.x)),
            expr(p.st, *t, seq![b.kk] + b.outer, b.kk),
            env,
        );
    }
}

pub proof fn lemma_perform(st: St, e: Term, env: Seq<Name>, k: Name)
    requires
        sound(st),
    ensures
        sound(lower_perform(st, e, env, k).0),
        scoped(lower_perform(st, e, env, k).1, env),
    decreases e, 0nat, 1nat, DtV::Fail, 0nat,
{
    lemma_error(env);
    if let Term::Perform(effect, op, arg, ty) = e {
        lemma_direct(st, *arg, env, None);
        let d = direct(st, *arg, env, None);
        let keep = restricted(env, set![k, st.ev]);
        lemma_begin(st, *arg, env, keep, None, d);
        let (st1, b) = begin(st, *arg, env, keep, None, d);
        lemma_operation(st1, effect, op, b.x, k, st.ev, type_of(st, *arg), Some(ty), b.env);
        let (st2, s) = perform(st1, effect, op, b.x, k, st.ev, type_of(st, *arg), Some(ty));
        lemma_expr(st2, *arg, seq![b.kk] + b.outer, b.kk);
        lemma_ended(st2, b, s, expr(st2, *arg, seq![b.kk] + b.outer, b.kk), env);
    }
}

pub proof fn lemma_lambda(st: St, param: Var, body: Term, env: Seq<Name>)
    requires
        sound(st),
    ensures
        sound(lambda(st, param, body, env).0),
        lambda(st, param, body, env).1.is_prefix_of(lambda(st, param, body, env).2.params),
        scoped(lambda(st, param, body, env).2.body, lambda(st, param, body, env).2.params),
    decreases body, 0nat, 3nat, DtV::Fail, 0nat,
{
    let captures = restricted(env, wants(st, body, seq![param]).remove(st.ev));
    let ik = st.next_name;
    let st1 = st.function_return();
    let iev = st1.next_name;
    let st2 = st1.fresh_ref();
    let params = captures.push(param).push(ik).push(iev);
    lemma_expr(st2.with_ev(iev), body, params, ik);
    assert(params.take(captures.len() as int) =~= captures);
}

pub proof fn lemma_ty_closure(st: St, id: u32, body: Term, env: Seq<Name>)
    requires
        sound(st),
    ensures
        sound(ty_closure(st, id, body, env).0),
        ty_closure(st, id, body, env).1.is_prefix_of(ty_closure(st, id, body, env).2.params),
        scoped(ty_closure(st, id, body, env).2.body, ty_closure(st, id, body, env).2.params),
    decreases body, 0nat, 3nat, DtV::Fail, 0nat,
{
    let captures = restricted(env, wants(st, body, Seq::empty()));
    let kk = st.next_name;
    let st1 = st.function_return();
    let names = st1.desc_names(id);
    let params = (captures + seconds(names)).push(kk);
    lemma_expr(st1.more_scope(names), body, params, kk);
    assert(params.take(captures.len() as int) =~= captures);
}

pub proof fn lemma_direct(st: St, e: Term, env: Seq<Name>, name: Option<Name>)
    requires
        sound(st),
    ensures
        sound(direct(st, e, env, name).st),
        leads(direct(st, e, env, name).frames, env, direct(st, e, env, name).env),
    decreases e, 0nat, 1nat, DtV::Fail, 0nat,
{
    match e {
        Term::TyLam(_, _, _) | Term::Lam(_, _, _) => {
            lemma_direct_object(st, e, env, name);
        },
        Term::TyApp(inner, _) => {
            lemma_direct(st, *inner, env, name);
        },
        Term::Loc(_, _) => {
            lemma_direct_loc(st, e, env, name);
        },
        Term::Var(v) => {
            lemma_leads_nowhere(env);
            if let Some(x) = name {
                lemma_leads_one(rename_v(v, x, env), env);
            }
        },
        Term::Lit(l) => {
            lemma_leads_nowhere(env);
            lemma_produced(st, Seq::empty(), ExternV::Lit(l), Seq::empty(), env, type_of(st, e), name, env);
        },
        Term::Prim(_, _, _) => {
            lemma_direct_prim(st, e, env, name);
        },
        Term::Ctor(_, _, _) | Term::Tuple(_) => {
            lemma_direct_data(st, e, env, name);
        },
        Term::Array(_, _) | Term::Record(_, _) => {
            lemma_direct_list(st, e, env, name);
        },
        Term::Sel(_, _, _) | Term::Proj(_, _) => {
            lemma_direct_read(st, e, env, name);
        },
        Term::Extend(_, _, _) => {
            lemma_direct_extend(st, e, env, name);
        },
        Term::Let(_, _, _, _) => {
            lemma_direct_let(st, e, env, name);
        },
        _ => {
            lemma_leads_nowhere(env);
        },
    }
}

pub proof fn lemma_direct_loc(st: St, e: Term, env: Seq<Name>, name: Option<Name>)
    requires
        sound(st),
    ensures
        sound(direct_loc(st, e, env, name).st),
        leads(direct_loc(st, e, env, name).frames, env, direct_loc(st, e, env, name).env),
    decreases e, 0nat, 0nat, DtV::Fail, 0nat,
{
    lemma_leads_nowhere(env);
    if let Term::Loc(loc, inner) = e {
        lemma_direct(st, *inner, env, name);
        let p = direct(st, *inner, env, name);
        lemma_leads_one(FrameV::Mark(loc), env);
        lemma_leads_both(seq![FrameV::Mark(loc)], p.frames, env, env, p.env);
    }
}

pub proof fn lemma_direct_object(st: St, e: Term, env: Seq<Name>, name: Option<Name>)
    requires
        sound(st),
    ensures
        sound(direct_object(st, e, env, name).st),
        leads(direct_object(st, e, env, name).frames, env, direct_object(st, e, env, name).env),
    decreases e, 0nat, 0nat, DtV::Fail, 0nat,
{
    lemma_leads_nowhere(env);
    match e {
        Term::TyLam(id, vs, inner) => {
            if over_types(vs@) {
                lemma_ty_closure(st, id, *inner, env);
                let (st1, captures, method) = ty_closure(st, id, *inner, env);
                lemma_made(st1, captures, method, env, name);
            } else {
                lemma_direct(st, *inner, env, name);
            }
        },
        Term::Lam(param, _, body) => {
            lemma_lambda(st, param, *body, env);
            let (st1, captures, method) = lambda(st, param, *body, env);
            lemma_made(st1, captures, method, env, name);
        },
        _ => {},
    }
}

pub proof fn lemma_direct_prim(st: St, e: Term, env: Seq<Name>, name: Option<Name>)
    requires
        sound(st),
    ensures
        sound(direct_prim(st, e, env, name).st),
        leads(direct_prim(st, e, env, name).frames, env, direct_prim(st, e, env, name).env),
    decreases e, 0nat, 0nat, DtV::Fail, 0nat,
{
    lemma_leads_nowhere(env);
    if let Term::Prim(p, args, _) = e {
        match const_arg(p, args@) {
            Some((i, l)) => {
                let x = args@[if i == 0 { 0 } else { 1 }];
                assert(decreases_to!(e => args@));
                assert(decreases_to!(args@ => x));
                lemma_direct(st, x, env, None);
                let d = direct(st, x, env, None);
                lemma_produced(d.st, d.frames, ExternV::PrimK(p, l), seq![d.x], d.env, type_of(st, e), name, env);
            },
            None => {
                assert(decreases_to!(e => args@));
                lemma_direct_all(st, args@, args@.len(), env);
                let d = direct_all(st, args@, args@.len(), env);
                lemma_produced(d.st, d.frames, ExternV::Prim(p), d.done, d.env, type_of(st, e), name, env);
            },
        }
    }
}

pub proof fn lemma_direct_data(st: St, e: Term, env: Seq<Name>, name: Option<Name>)
    requires
        sound(st),
    ensures
        sound(direct_data(st, e, env, name).st),
        leads(direct_data(st, e, env, name).frames, env, direct_data(st, e, env, name).env),
    decreases e, 0nat, 0nat, DtV::Fail, 0nat,
{
    lemma_leads_nowhere(env);
    match e {
        Term::Ctor(c, _, args) => {
            assert(decreases_to!(e => args@));
            lemma_direct_all(st.tagged(c), args@, args@.len(), env);
            let d = direct_all(st.tagged(c), args@, args@.len(), env);
            lemma_built(d.st, d.frames, c, st.tag(c), d.done, d.env, type_of(st, e), name, env);
        },
        Term::Tuple(items) => {
            assert(decreases_to!(e => items@));
            lemma_direct_all(st.tagged(symbol::TUPLE), items@, items@.len(), env);
            let d = direct_all(st.tagged(symbol::TUPLE), items@, items@.len(), env);
            let c = symbol::TUPLE;
            lemma_built(d.st, d.frames, c, st.tag(c), d.done, d.env, type_of(st, e), name, env);
        },
        _ => {},
    }
}

pub proof fn lemma_direct_list(st: St, e: Term, env: Seq<Name>, name: Option<Name>)
    requires
        sound(st),
    ensures
        sound(direct_list(st, e, env, name).st),
        leads(direct_list(st, e, env, name).frames, env, direct_list(st, e, env, name).env),
    decreases e, 0nat, 0nat, DtV::Fail, 0nat,
{
    lemma_leads_nowhere(env);
    match e {
        Term::Array(items, _) => {
            assert(decreases_to!(e => items@));
            lemma_direct_all(st, items@, items@.len(), env);
            let d = direct_all(st, items@, items@.len(), env);
            lemma_produced(d.st, d.frames, ExternV::Array, d.done, d.env, type_of(st, e), name, env);
        },
        Term::Record(labels, xs) => {
            assert(decreases_to!(e => xs@));
            lemma_direct_all(st, xs@, xs@.len(), env);
            let d = direct_all(st, xs@, xs@.len(), env);
            let op = ExternV::Record(labels@);
            lemma_produced(d.st, d.frames, op, d.done, d.env, type_of(st, e), name, env);
        },
        _ => {},
    }
}

pub proof fn lemma_direct_read(st: St, e: Term, env: Seq<Name>, name: Option<Name>)
    requires
        sound(st),
    ensures
        sound(direct_read(st, e, env, name).st),
        leads(direct_read(st, e, env, name).frames, env, direct_read(st, e, env, name).env),
    decreases e, 0nat, 0nat, DtV::Fail, 0nat,
{
    lemma_leads_nowhere(env);
    match e {
        Term::Sel(rec, label, _) => {
            lemma_direct(st, *rec, env, None);
            let d = direct(st, *rec, env, None);
            lemma_produced(d.st, d.frames, ExternV::Select(label), seq![d.x], d.env, type_of(st, e), name, env);
        },
        Term::Proj(t, i) => {
            lemma_direct(st, *t, env, None);
            let d = direct(st, *t, env, None);
            lemma_produced(d.st, d.frames, ExternV::Field(i), seq![d.x], d.env, type_of(st, e), name, env);
        },
        _ => {},
    }
}

pub proof fn lemma_direct_extend(st: St, e: Term, env: Seq<Name>, name: Option<Name>)
    requires
        sound(st),
    ensures
        sound(direct_extend(st, e, env, name).st),
        leads(direct_extend(st, e, env, name).frames, env, direct_extend(st, e, env, name).env),
    decreases e, 0nat, 0nat, DtV::Fail, 0nat,
{
    lemma_leads_nowhere(env);
    if let Term::Extend(rec, label, val) = e {
        lemma_direct(st, *rec, env, None);
        let r = direct(st, *rec, env, None);
        lemma_direct(r.st, *val, r.env, None);
        let v = direct(r.st, *val, r.env, None);
        lemma_leads_both(r.frames, v.frames, env, r.env, v.env);
        let fs = r.frames + v.frames;
        lemma_produced(v.st, fs, ExternV::Extend(label), seq![r.x, v.x], v.env, type_of(st, e), name, env);
    }
}

pub proof fn lemma_direct_let(st: St, e: Term, env: Seq<Name>, name: Option<Name>)
    requires
        sound(st),
    ensures
        sound(direct_let(st, e, env, name).st),
        leads(direct_let(st, e, env, name).frames, env, direct_let(st, e, env, name).env),
    decreases e, 0nat, 0nat, DtV::Fail, 0nat,
{
    lemma_leads_nowhere(env);
    if let Term::Let(x, _, rhs, body) = e {
        lemma_direct(st, *rhs, env, Some(x));
        let r = direct(st, *rhs, env, Some(x));
        lemma_direct(r.st, *body, r.env, name);
        let b = direct(r.st, *body, r.env, name);
        lemma_leads_both(r.frames, b.frames, env, r.env, b.env);
    }
}

pub proof fn lemma_direct_all(st: St, es: Seq<Term>, n: nat, env: Seq<Name>)
    requires
        sound(st),
    ensures
        sound(direct_all(st, es, n, env).st),
        leads(direct_all(st, es, n, env).frames, env, direct_all(st, es, n, env).env),
    decreases es, n, 0nat, DtV::Fail, 0nat,
{
    if n == 0 || n > es.len() {
        lemma_leads_nowhere(env);
    } else {
        lemma_direct_all(st, es, (n - 1) as nat, env);
        let a = direct_all(st, es, (n - 1) as nat, env);
        assert(decreases_to!(es => es[n - 1]));
        lemma_direct(a.st, es[n - 1], a.env, None);
        let p = direct(a.st, es[n - 1], a.env, None);
        lemma_leads_both(a.frames, p.frames, env, a.env, p.env);
    }
}

pub proof fn lemma_start_all(st: St, es: Seq<Term>, n: nat, env: Seq<Name>, base: Set<Name>)
    requires
        sound(st),
    ensures
        sound(start_all(st, es, n, env, base).st),
        chained(start_all(st, es, n, env, base).bs, env, start_all(st, es, n, env, base).env),
        n <= es.len() ==> start_all(st, es, n, env, base).bs.len() == n,
    decreases es, n, 0nat, DtV::Fail, 0nat,
{
    if n > 0 && n <= es.len() {
        lemma_start_all(st, es, (n - 1) as nat, env, base);
        let a = start_all(st, es, (n - 1) as nat, env, base);
        let want = base.union(a.done.to_set()).union(wants_all(a.st, es.skip(n as int), Seq::empty()));
        assert(decreases_to!(es => es[n - 1]));
        lemma_direct(a.st, es[n - 1], a.env, None);
        let d = direct(a.st, es[n - 1], a.env, None);
        lemma_begin(a.st, es[n - 1], a.env, restricted(a.env, want), None, d);
        let (st1, b) = begin(a.st, es[n - 1], a.env, restricted(a.env, want), None, d);
        lemma_chained(a.bs, b, env, a.env);
    }
}

pub proof fn lemma_finish_all(
    st: St,
    es: Seq<Term>,
    n: nat,
    bs: Seq<BoundV>,
    body: StmtV,
    env: Seq<Name>,
    at: Seq<Name>,
)
    requires
        sound(st),
        n <= es.len(),
        n <= bs.len(),
        chained(bs.take(n as int), env, at),
        scoped(body, at),
    ensures
        sound(finish_all(st, es, n, bs, body).0),
        scoped(finish_all(st, es, n, bs, body).1, env),
    decreases es, n, 1nat, DtV::Fail, 0nat,
{
    if n > 0 {
        let b = bs[n - 1];
        assert(bs.take(n as int).last() == b);
        assert(bs.take(n as int).drop_last() =~= bs.take(n - 1));
        assert(decreases_to!(es => es[n - 1]));
        lemma_expr(st, es[n - 1], seq![b.kk] + b.outer, b.kk);
        lemma_ended(st, b, body, expr(st, es[n - 1], seq![b.kk] + b.outer, b.kk), b.outer);
        let (st1, s) = ended(st, b, body, expr(st, es[n - 1], seq![b.kk] + b.outer, b.kk));
        lemma_finish_all(st1, es, (n - 1) as nat, bs, s, env, b.outer);
    }
}

pub proof fn lemma_app(st: St, e: Term, env: Seq<Name>, k: Name)
    requires
        sound(st),
    ensures
        sound(lower_app(st, e, env, k).0),
        scoped(lower_app(st, e, env, k).1, env),
    decreases e, 0nat, 1nat, DtV::Fail, 0nat,
{
    lemma_error(env);
    if let Term::App(fun, arg) = e {
        let ev = st.ev;
        let keep = restricted(env, wants(st, *arg, Seq::empty()).union(set![k, ev]));
        lemma_direct(st, *fun, env, None);
        let d = direct(st, *fun, env, None);
        lemma_begin(st, *fun, env, keep, None, d);
        let (st1, f) = begin(st, *fun, env, keep, None, d);
        let keep2 = restricted(f.env, set![k, f.x, ev]);
        lemma_direct(st1, *arg, f.env, None);
        let d2 = direct(st1, *arg, f.env, None);
        lemma_begin(st1, *arg, f.env, keep2, None, d2);
        let (st2, a) = begin(st1, *arg, f.env, keep2, None, d2);
        let call = invoke_v(seq![f.x, a.x, k, ev], f.x);
        lemma_invoke(seq![f.x, a.x, k, ev], f.x, a.env);
        lemma_expr(st2, *arg, seq![a.kk] + a.outer, a.kk);
        lemma_ended(st2, a, call, expr(st2, *arg, seq![a.kk] + a.outer, a.kk), f.env);
        let (st3, s) = ended(st2, a, call, expr(st2, *arg, seq![a.kk] + a.outer, a.kk));
        lemma_expr(st3, *fun, seq![f.kk] + f.outer, f.kk);
        lemma_ended(st3, f, s, expr(st3, *fun, seq![f.kk] + f.outer, f.kk), env);
    }
}

pub proof fn lemma_let(st: St, e: Term, env: Seq<Name>, k: Name)
    requires
        sound(st),
    ensures
        sound(lower_let(st, e, env, k).0),
        scoped(lower_let(st, e, env, k).1, env),
    decreases e, 0nat, 1nat, DtV::Fail, 0nat,
{
    lemma_error(env);
    if let Term::Let(x, _, rhs, body) = e {
        let keep = restricted(env, wants(st, *body, seq![x]).insert(k));
        lemma_direct(st, *rhs, env, Some(x));
        let d = direct(st, *rhs, env, Some(x));
        lemma_begin(st, *rhs, env, keep, Some(x), d);
        let (st1, b) = begin(st, *rhs, env, keep, Some(x), d);
        lemma_expr(st1, *body, b.env, k);
        let (st2, s) = expr(st1, *body, b.env, k);
        lemma_expr(st2, *rhs, seq![b.kk] + b.outer, b.kk);
        lemma_ended(st2, b, s, expr(st2, *rhs, seq![b.kk] + b.outer, b.kk), env);
    }
}

pub proof fn lemma_join(st: St, e: Term, env: Seq<Name>, k: Name)
    requires
        sound(st),
    ensures
        sound(lower_join(st, e, env, k).0),
        scoped(lower_join(st, e, env, k).1, env),
    decreases e, 0nat, 1nat, DtV::Fail, 0nat,
{
    lemma_error(env);
    if let Term::Join { var, params, rhs, body, .. } = e {
        let ps = params_of(params@);
        let fvs = restricted(env, wants(st, *rhs, ps).remove(st.ev));
        let label = st.next_label;
        let st1 = st.fresh_label();
        let st2 = St { joins: st1.joins.insert(var, (label, fvs)), ..st1 };
        let kk = st2.next_name;
        let st3 = st2.function_return();
        let iev = st3.next_name;
        let st4 = st3.fresh_ref();
        let block = (fvs + ps).push(kk).push(iev);
        lemma_expr(st4.with_ev(iev), *rhs, block, kk);
        let (st5, made) = expr(st4.with_ev(iev), *rhs, block, kk);
        lemma_wrote(st5.with_ev(st.ev), label, symbol::JOIN_BLOCK, BlockV { params: block, body: made });
        let st6 = st5.with_ev(st.ev).wrote(label, symbol::JOIN_BLOCK, BlockV { params: block, body: made });
        lemma_expr(st6, *body, env, k);
    }
}

pub proof fn lemma_jump(st: St, e: Term, env: Seq<Name>, k: Name)
    requires
        sound(st),
    ensures
        sound(lower_jump(st, e, env, k).0),
        scoped(lower_jump(st, e, env, k).1, env),
    decreases e, 0nat, 1nat, DtV::Fail, 0nat,
{
    lemma_error(env);
    if let Term::Jump(j, args, _) = e {
        if st.joins.contains_key(j) {
            let (label, fvs) = st.joins[j];
            let base = set![k, st.ev].union(fvs.to_set());
            assert(decreases_to!(e => args@));
            lemma_start_all(st, args@, args@.len(), env, base);
            let a = start_all(st, args@, args@.len(), env, base);
            let sel = (fvs + a.done).push(k).push(st.ev);
            lemma_goto(sel, Label(label), a.env);
            assert(a.bs.take(a.bs.len() as int) =~= a.bs);
            lemma_finish_all(a.st, args@, args@.len(), a.bs, jump_v(sel, Label(label)), env, a.env);
        }
    }
}

pub proof fn lemma_letrec(st: St, e: Term, env: Seq<Name>, k: Name)
    requires
        sound(st),
    ensures
        sound(lower_letrec(st, e, env, k).0),
        scoped(lower_letrec(st, e, env, k).1, env),
    decreases e, 0nat, 1nat, DtV::Fail, 0nat,
{
    lemma_error(env);
    if let Term::LetRec(binds, body) = e {
        let fvs = restricted(env, group_wants(st, binds@));
        lemma_take_labels(st, binds@.len());
        let (st1, labels) = take_labels(st, binds@.len());
        lemma_register(st1, bound_by(binds@), labels, fvs, binds@.len());
        let st2 = register(st1, bound_by(binds@), labels, fvs, binds@.len());
        assert(decreases_to!(e => binds@));
        lemma_binds(st2, binds@, labels, fvs, binds@.len());
        let st3 = lower_binds(st2, binds@, labels, fvs, binds@.len());
        lemma_expr(st3, *body, env, k);
    }
}

pub proof fn lemma_binds(st: St, binds: Seq<(Var, Poly, Term)>, labels: Seq<u32>, fvs: Seq<Name>, n: nat)
    requires
        sound(st),
    ensures
        sound(lower_binds(st, binds, labels, fvs, n)),
    decreases binds, n, 0nat, DtV::Fail, 0nat,
{
    if n > 0 && n <= binds.len() {
        lemma_binds(st, binds, labels, fvs, (n - 1) as nat);
        let st0 = lower_binds(st, binds, labels, fvs, (n - 1) as nat);
        let kk = st0.next_name;
        let st1 = st0.function_return();
        let iev = st1.next_name;
        let st2 = st1.fresh_ref();
        let t = binds[n - 1].2;
        let descs = if abstracts(t) {
            st2.desc_names(abs_id(t))
        } else {
            Seq::empty()
        };
        let params = (fvs + seconds(descs)).push(kk).push(iev);
        assert(decreases_to!(binds => binds[n - 1]));
        let at = st2.more_scope(descs).with_ev(iev);
        lemma_under(at, t, params, kk);
        lemma_expr(at, t, params, kk);
        let (st3, body) = if abstracts(t) {
            lower_under(at, t, params, kk)
        } else {
            expr(at, t, params, kk)
        };
        lemma_wrote(
            st3.with_ev(st0.ev).cut_scope(st0.tscope.len()),
            labels[n - 1],
            symbol::LETREC_BLOCK,
            BlockV { params, body },
        );
    }
}

pub proof fn lemma_under(st: St, t: Term, env: Seq<Name>, k: Name)
    requires
        sound(st),
    ensures
        sound(lower_under(st, t, env, k).0),
        scoped(lower_under(st, t, env, k).1, env),
    decreases t, 0nat, 3nat, DtV::Fail, 0nat,
{
    lemma_error(env);
    match t {
        Term::Loc(_, inner) => {
            lemma_under(st, *inner, env, k);
        },
        Term::TyLam(_, _, body) => {
            lemma_expr(st, *body, env, k);
        },
        _ => {
            lemma_expr(st, t, env, k);
        },
    }
}

pub proof fn lemma_resumed(st: St, t: Term, env: Seq<Name>, k: Name)
    requires
        sound(st),
    ensures
        sound(lower_resumed(st, t, env, k).0),
        scoped(lower_resumed(st, t, env, k).1, env),
    decreases t, 0nat, 3nat, DtV::Fail, 0nat,
{
    lemma_error(env);
    match t {
        Term::Loc(_, inner) => {
            lemma_resumed(st, *inner, env, k);
        },
        Term::App(_, e) => {
            lemma_expr(st, *e, env, k);
        },
        _ => {
            lemma_expr(st, t, env, k);
        },
    }
}

pub proof fn lemma_start_args(st: St, t: Term, env: Seq<Name>, base: Set<Name>, later: Seq<Term>)
    requires
        sound(st),
    ensures
        sound(start_args(st, t, env, base, later).st),
        chained(start_args(st, t, env, base, later).bs, env, start_args(st, t, env, base, later).env),
        start_args(st, t, env, base, later).bs.len() == arity(t),
    decreases t, 0nat, 0nat, DtV::Fail, 0nat,
{
    match t {
        Term::Loc(_, inner) => {
            lemma_start_args(st, *inner, env, base, later);
        },
        Term::App(f, arg) => {
            lemma_start_args(st, *f, env, base, seq![*arg] + later);
            let a = start_args(st, *f, env, base, seq![*arg] + later);
            let want = base.union(a.done.to_set()).union(wants_all(a.st, later, Seq::empty()));
            lemma_direct(a.st, *arg, a.env, None);
            let d = direct(a.st, *arg, a.env, None);
            lemma_begin(a.st, *arg, a.env, restricted(a.env, want), None, d);
            let (st1, b) = begin(a.st, *arg, a.env, restricted(a.env, want), None, d);
            lemma_chained(a.bs, b, env, a.env);
        },
        _ => {},
    }
}

pub proof fn lemma_finish_args(st: St, t: Term, bs: Seq<BoundV>, body: StmtV, env: Seq<Name>, at: Seq<Name>)
    requires
        sound(st),
        bs.len() == arity(t),
        chained(bs, env, at),
        scoped(body, at),
    ensures
        sound(finish_args(st, t, bs, body).0),
        scoped(finish_args(st, t, bs, body).1, env),
    decreases t, 0nat, 0nat, DtV::Fail, 0nat,
{
    match t {
        Term::Loc(_, inner) => {
            lemma_finish_args(st, *inner, bs, body, env, at);
        },
        Term::App(f, arg) => {
            let b = bs.last();
            lemma_expr(st, *arg, seq![b.kk] + b.outer, b.kk);
            lemma_ended(st, b, body, expr(st, *arg, seq![b.kk] + b.outer, b.kk), b.outer);
            let (st1, s) = ended(st, b, body, expr(st, *arg, seq![b.kk] + b.outer, b.kk));
            lemma_finish_args(st1, *f, bs.drop_last(), s, env, b.outer);
        },
        _ => {},
    }
}

pub proof fn lemma_known(st: St, e: Term, f: Var, env: Seq<Name>, k: Name)
    requires
        sound(st),
    ensures
        sound(lower_known(st, e, f, env, k).0),
        scoped(lower_known(st, e, f, env, k).1, env),
    decreases e, 0nat, 1nat, DtV::Fail, 0nat,
{
    lemma_error(env);
    let takes = st.worker_ev.contains(f);
    let base = if takes {
        set![k, st.ev]
    } else {
        set![k]
    };
    lemma_start_args(st, e, env, base, Seq::empty());
    let a = start_args(st, e, env, base, Seq::empty());
    lemma_leads_nowhere(a.env);
    if let Some(tys) = described_args(st, f, head_tys(e)) {
        lemma_with_descs(a.st, tys, tys.len(), a.env);
    }
    let d = match described_args(st, f, head_tys(e)) {
        Some(tys) => with_descs(a.st, tys, tys.len(), a.env),
        None => SeveralV { st: a.st, frames: Seq::empty(), done: Seq::empty(), env: a.env },
    };
    let sel = (d.done + a.done).push(k);
    let all = if takes {
        sel.push(st.ev)
    } else {
        sel
    };
    let label = Label(st.workers[f].0);
    lemma_goto(all, label, d.env);
    lemma_plugged(d.frames, jump_v(all, label), a.env, d.env);
    lemma_finish_args(d.st, e, a.bs, plugged(d.frames, jump_v(all, label)), env, a.env);
}

pub proof fn lemma_if(st: St, e: Term, env: Seq<Name>, k: Name)
    requires
        sound(st),
    ensures
        sound(lower_if(st, e, env, k).0),
        scoped(lower_if(st, e, env, k).1, env),
    decreases e, 0nat, 1nat, DtV::Fail, 0nat,
{
    lemma_error(env);
    if let Term::If(c, t, f) = e {
        lemma_branch(st, e, env, k);
        if let Term::Prim(p, cargs, _) = *c {
            assert(decreases_to!(e => c));
            assert(decreases_to!(c => cargs@));
            match const_arg(p, cargs@) {
                Some((i, l)) => {
                    let x = cargs@[if i == 0 { 0 } else { 1 }];
                    assert(decreases_to!(cargs@ => x));
                    lemma_direct(st, x, env, None);
                    let d = direct(st, x, env, None);
                    lemma_expr(d.st, *t, d.env, k);
                    let (st1, yes) = expr(d.st, *t, d.env, k);
                    lemma_expr(st1, *f, d.env, k);
                    let (st2, no) = expr(st1, *f, d.env, k);
                    let op = ExternV::BranchPrimK(p, l);
                    lemma_two(op, seq![d.x], d.env, no, yes);
                    lemma_plugged(d.frames, two_v(op, seq![d.x], d.env, no, yes), env, d.env);
                },
                None => {
                    lemma_direct_all(st, cargs@, cargs@.len(), env);
                    let d = direct_all(st, cargs@, cargs@.len(), env);
                    lemma_expr(d.st, *t, d.env, k);
                    let (st1, yes) = expr(d.st, *t, d.env, k);
                    lemma_expr(st1, *f, d.env, k);
                    let (st2, no) = expr(st1, *f, d.env, k);
                    let op = ExternV::BranchPrim(p);
                    lemma_two(op, d.done, d.env, no, yes);
                    lemma_plugged(d.frames, two_v(op, d.done, d.env, no, yes), env, d.env);
                },
            }
        }
    }
}

pub proof fn lemma_branch(st: St, e: Term, env: Seq<Name>, k: Name)
    requires
        sound(st),
    ensures
        sound(lower_branch(st, e, env, k).0),
        scoped(lower_branch(st, e, env, k).1, env),
    decreases e, 0nat, 0nat, DtV::Fail, 0nat,
{
    lemma_error(env);
    if let Term::If(c, t, f) = e {
        let want = wants(st, *t, Seq::empty()).union(wants(st, *f, Seq::empty())).insert(k);
        lemma_direct(st, *c, env, None);
        let d = direct(st, *c, env, None);
        lemma_begin(st, *c, env, restricted(env, want), None, d);
        let (st1, b) = begin(st, *c, env, restricted(env, want), None, d);
        lemma_expr(st1, *t, b.env, k);
        let (st2, yes) = expr(st1, *t, b.env, k);
        lemma_expr(st2, *f, b.env, k);
        let (st3, no) = expr(st2, *f, b.env, k);
        let s = two_v(ExternV::Branch, seq![b.x], b.env, no, yes);
        lemma_two(ExternV::Branch, seq![b.x], b.env, no, yes);
        lemma_expr(st3, *c, seq![b.kk] + b.outer, b.kk);
        lemma_ended(st3, b, s, expr(st3, *c, seq![b.kk] + b.outer, b.kk), env);
    }
}

pub proof fn lemma_prim(st: St, e: Term, env: Seq<Name>, k: Name)
    requires
        sound(st),
    ensures
        sound(lower_prim(st, e, env, k).0),
        scoped(lower_prim(st, e, env, k).1, env),
    decreases e, 0nat, 1nat, DtV::Fail, 0nat,
{
    lemma_error(env);
    if let Term::Prim(prim, args, ty) = e {
        assert(decreases_to!(e => args@));
        match const_arg(prim, args@) {
            Some((i, l)) => {
                let x = args@[if i == 0 { 0 } else { 1 }];
                assert(decreases_to!(args@ => x));
                lemma_direct(st, x, env, None);
                let d = direct(st, x, env, None);
                lemma_begin(st, x, env, restricted(env, set![k]), None, d);
                let (st1, b) = begin(st, x, env, restricted(env, set![k]), None, d);
                lemma_leads_nowhere(b.env);
                lemma_produced(st1, Seq::empty(), ExternV::PrimK(prim, l), seq![b.x], b.env, Some(ty), None, b.env);
                let p = produced(st1, Seq::empty(), ExternV::PrimK(prim, l), seq![b.x], b.env, Some(ty), None);
                lemma_invoke(seq![k, p.x], k, p.env);
                lemma_plugged(p.frames, ret_v(k, p.x), b.env, p.env);
                lemma_expr(p.st, x, seq![b.kk] + b.outer, b.kk);
                lemma_ended(
                    p.st,
                    b,
                    plugged(p.frames, ret_v(k, p.x)),
                    expr(p.st, x, seq![b.kk] + b.outer, b.kk),
                    env,
                );
            },
            None => {
                lemma_start_all(st, args@, args@.len(), env, set![k]);
                let a = start_all(st, args@, args@.len(), env, set![k]);
                lemma_leads_nowhere(a.env);
                lemma_produced(a.st, Seq::empty(), ExternV::Prim(prim), a.done, a.env, Some(ty), None, a.env);
                let p = produced(a.st, Seq::empty(), ExternV::Prim(prim), a.done, a.env, Some(ty), None);
                lemma_invoke(seq![k, p.x], k, p.env);
                lemma_plugged(p.frames, ret_v(k, p.x), a.env, p.env);
                let s = plugged(p.frames, ret_v(k, p.x));
                assert(a.bs.take(a.bs.len() as int) =~= a.bs);
                lemma_finish_all(p.st, args@, args@.len(), a.bs, s, env, a.env);
            },
        }
    }
}

pub proof fn lemma_extend(st: St, e: Term, env: Seq<Name>, k: Name)
    requires
        sound(st),
    ensures
        sound(lower_extend(st, e, env, k).0),
        scoped(lower_extend(st, e, env, k).1, env),
    decreases e, 0nat, 1nat, DtV::Fail, 0nat,
{
    lemma_error(env);
    if let Term::Extend(rec, label, val) = e {
        let want = set![k].union(wants(st, *val, Seq::empty()));
        lemma_direct(st, *rec, env, None);
        let d = direct(st, *rec, env, None);
        lemma_begin(st, *rec, env, restricted(env, want), None, d);
        let (st1, r) = begin(st, *rec, env, restricted(env, want), None, d);
        let keep = restricted(r.env, set![k, r.x]);
        lemma_direct(st1, *val, r.env, None);
        let d2 = direct(st1, *val, r.env, None);
        lemma_begin(st1, *val, r.env, keep, None, d2);
        let (st2, v) = begin(st1, *val, r.env, keep, None, d2);
        let op = ExternV::Extend(label);
        lemma_leads_nowhere(v.env);
        lemma_produced(st2, Seq::empty(), op, seq![r.x, v.x], v.env, type_of(st, e), None, v.env);
        let p = produced(st2, Seq::empty(), op, seq![r.x, v.x], v.env, type_of(st, e), None);
        lemma_invoke(seq![k, p.x], k, p.env);
        lemma_plugged(p.frames, ret_v(k, p.x), v.env, p.env);
        let done = plugged(p.frames, ret_v(k, p.x));
        lemma_expr(p.st, *val, seq![v.kk] + v.outer, v.kk);
        lemma_ended(p.st, v, done, expr(p.st, *val, seq![v.kk] + v.outer, v.kk), r.env);
        let (st3, s) = ended(p.st, v, done, expr(p.st, *val, seq![v.kk] + v.outer, v.kk));
        lemma_expr(st3, *rec, seq![r.kk] + r.outer, r.kk);
        lemma_ended(st3, r, s, expr(st3, *rec, seq![r.kk] + r.outer, r.kk), env);
    }
}

} // verus!
