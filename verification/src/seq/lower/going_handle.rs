//! How far lowering takes its state: handlers and `letrec`s.

use super::going::{lemma_expr, lemma_resumed, lemma_under};
use super::going_parts::{
    grouped, lemma_assemble, lemma_group_done, lemma_grouped, lemma_no_group, lemma_one_more, lemma_take_labels,
};
use super::live::{bound_by, restricted, wants};
use super::reach::Kinds;
use super::scheme::{
    assemble, expr, group_wants, install, lower_binds, lower_handle, lower_letrec, lower_resumed, lower_under,
    register, resumed_with, seconds, tail_resumptive, take_labels, StepV,
};
use super::shape::{abs_id, abstracts};
use super::state::St;
use super::stride::{lemma_fresh_as, lemma_quiet_on, lemma_typed, quiet};
use super::tree::DtV;
use super::types::type_of;
use super::went::{
    fit, fit_rhs, fit_clauses, lemma_back_ev, lemma_back_scope, lemma_binds_rhs, lemma_bind, lemma_clause,
    lemma_desc_names, lemma_ev, lemma_group_below, lemma_more_scope, lemma_on, lemma_on_quietly, lemma_other_ev,
    lemma_parts, lemma_quietly, lemma_registered, lemma_rhs, lemma_stay, lemma_went, okay, went,
};
use crate::seq::ir::{Name, Rep};
use crate::seq::view::{one_v, ret_v, BlockV, ExternV};
use crate::terms::desc;
use crate::terms::prim::Prim;
use crate::terms::symbol;
use crate::terms::term::{HClause, Term, Var};
use crate::terms::ty::Poly;
use vstd::prelude::*;

verus! {

pub proof fn lemma_letrec(kd: Kinds, st: St, e: Term, env: Seq<Name>, k: Name, ls: Set<Var>)
    requires
        okay(kd, st),
        fit(kd, e, ls),
    ensures
        went(kd, st, lower_letrec(st, e, env, k).0, ls),
    decreases e, 0nat, 1nat, DtV::Fail, 0nat,
{
    lemma_parts(kd, e, ls);
    lemma_stay(kd, st, ls);
    if let Term::LetRec(binds, body) = e {
        let fvs = restricted(env, group_wants(st, binds@));
        lemma_group_below(kd, st, binds@, ls, env);
        lemma_take_labels(kd, st, binds@.len(), ls);
        let (st1, labels) = take_labels(st, binds@.len());
        lemma_went(kd, st, st1, ls);
        let vs = bound_by(binds@);
        assert forall|i: int| 0 <= i < vs.len() implies kd.g.contains(#[trigger] vs[i]) && ls.contains(vs[i]) by {
            lemma_bind(kd, binds@, ls, i);
        }
        lemma_registered(kd, st1, vs, labels, fvs, vs.len(), ls);
        let st2 = register(st1, vs, labels, fvs, binds@.len());
        lemma_went(kd, st1, st2, ls);
        assert(decreases_to!(e => binds@));
        lemma_binds_rhs(kd, binds@, ls);
        lemma_group(kd, st2, binds@, labels, fvs, binds@.len(), ls);
        let st3 = lower_binds(st2, binds@, labels, fvs, binds@.len());
        lemma_group_done(kd, st, st1, st2, st3, labels, binds@.len(), ls);
        lemma_went(kd, st, st3, ls);
        lemma_expr(kd, st3, *body, env, k, ls);
        lemma_on(kd, st, st3, expr(st3, *body, env, k).0, ls);
    }
}

pub proof fn lemma_group(
    kd: Kinds,
    st: St,
    binds: Seq<(Var, Poly, Term)>,
    labels: Seq<u32>,
    fvs: Seq<Name>,
    n: nat,
    ls: Set<Var>,
)
    requires
        okay(kd, st),
        fit_rhs(kd, binds, ls),
        n <= binds.len(),
        labels.len() == binds.len(),
    ensures
        grouped(kd, st, lower_binds(st, binds, labels, fvs, n), labels, n, ls),
    decreases binds, n, 0nat, DtV::Fail, 0nat,
{
    if n == 0 {
        lemma_no_group(kd, st, labels, ls);
    } else {
        lemma_group(kd, st, binds, labels, fvs, (n - 1) as nat, ls);
        let st0 = lower_binds(st, binds, labels, fvs, (n - 1) as nat);
        lemma_grouped(kd, st, st0, labels, (n - 1) as nat, ls);
        let kk = st0.next_name;
        let st1 = st0.function_return();
        assert(quiet(st0, st1));
        let iev = st1.next_name;
        let st2 = st1.fresh_ref();
        lemma_fresh_as(st1, Rep::Ref);
        lemma_quiet_on(st0, st1, st2);
        lemma_quietly(kd, st0, st2, ls);
        lemma_went(kd, st0, st2, ls);
        lemma_ev(kd, st0);
        let t = binds[n - 1].2;
        lemma_rhs(kd, binds, ls, n - 1);
        let descs = if abstracts(t) {
            st2.desc_names(abs_id(t))
        } else {
            Seq::empty()
        };
        lemma_desc_names(kd, st2, abs_id(t));
        lemma_more_scope(kd, st2, descs);
        let scoped = st2.more_scope(descs);
        lemma_other_ev(kd, scoped, iev);
        let at = scoped.with_ev(iev);
        let params = (fvs + seconds(descs)).push(kk).push(iev);
        assert(decreases_to!(binds => binds[n - 1]));
        lemma_under(kd, at, t, params, kk, ls);
        lemma_expr(kd, at, t, params, kk, ls);
        let (st3, body) = if abstracts(t) {
            lower_under(at, t, params, kk)
        } else {
            expr(at, t, params, kk)
        };
        lemma_back_ev(kd, scoped, iev, st3, ls);
        lemma_back_scope(kd, st2, descs, st3.with_ev(st0.ev), ls);
        let back = st3.with_ev(st0.ev).cut_scope(st0.tscope.len());
        lemma_on(kd, st0, st2, back, ls);
        lemma_one_more(kd, st, st0, back, labels, n, symbol::LETREC_BLOCK, BlockV { params, body }, ls);
    }
}

pub proof fn lemma_install(kd: Kinds, st: St, clauses: Seq<HClause>, n: nat, env: Seq<Name>, target: Name, ls: Set<Var>)
    requires
        okay(kd, st),
        fit_clauses(kd, clauses, ls),
    ensures
        went(kd, st, install(st, clauses, n, env, target).st, ls),
        install(st, clauses, n, env, target).ev >= kd.lo,
    decreases clauses, n, 0nat, DtV::Fail, 0nat,
{
    lemma_stay(kd, st, ls);
    lemma_ev(kd, st);
    if n > 0 && n <= clauses.len() {
        lemma_install(kd, st, clauses, (n - 1) as nat, env, target, ls);
        let h = install(st, clauses, (n - 1) as nat, env, target);
        lemma_went(kd, st, h.st, ls);
        let c = clauses[n - 1];
        assert(decreases_to!(clauses => c));
        assert(decreases_to!(c => c.body));
        lemma_clause(kd, clauses, ls, n - 1);
        let tail = tail_resumptive(c);
        let kh = h.st.next_name;
        let captures = if tail {
            restricted(h.cur, wants(h.st, resumed_with(c.body), seq![c.param]))
        } else {
            restricted(h.cur, wants(h.st, c.body, seq![c.param, c.resume]))
        };
        let params = if tail {
            captures.push(c.param).push(kh)
        } else {
            captures.push(c.param).push(c.resume).push(kh)
        };
        let a0 = h.st.fresh_ref().answering(kh);
        let b0 = h.st.function_return();
        assert(quiet(h.st, a0));
        assert(quiet(h.st, b0));
        lemma_quietly(kd, h.st, a0, ls);
        lemma_went(kd, h.st, a0, ls);
        lemma_quietly(kd, h.st, b0, ls);
        lemma_went(kd, h.st, b0, ls);
        lemma_resumed(kd, a0, c.body, params, kh, ls);
        lemma_expr(kd, b0, c.body, params, kh, ls);
        let (st1, body) = if tail {
            lower_resumed(a0, c.body, params, kh)
        } else {
            expr(b0, c.body, params, kh)
        };
        if tail {
            lemma_on(kd, h.st, a0, st1, ls);
        } else {
            lemma_on(kd, h.st, b0, st1, ls);
        }
        lemma_on(kd, st, h.st, st1, ls);
        lemma_went(kd, st, st1, ls);
        let st2 = st1.fresh_ref();
        lemma_fresh_as(st1, Rep::Ref);
        let st3 = st2.fresh_as(Rep::Str);
        lemma_fresh_as(st2, Rep::Str);
        let st4 = st3.interned(st3.key(c.effect, c.op));
        assert(quiet(st3, st4));
        let st5 = st4.fresh_ref();
        lemma_fresh_as(st4, Rep::Ref);
        lemma_quiet_on(st1, st2, st3);
        lemma_quiet_on(st1, st3, st4);
        lemma_quiet_on(st1, st4, st5);
        lemma_on_quietly(kd, st, st1, st5, ls);
        lemma_ev(kd, st1);
        assert(install(st, clauses, n, env, target).ev == st4.next_name);
        assert(st4.next_name >= st1.next_name);
    }
}

pub proof fn lemma_handle(kd: Kinds, st: St, e: Term, env: Seq<Name>, k: Name, ls: Set<Var>)
    requires
        okay(kd, st),
        fit(kd, e, ls),
    ensures
        went(kd, st, lower_handle(st, e, env, k).0, ls),
    decreases e, 0nat, 1nat, DtV::Fail, 0nat,
{
    lemma_parts(kd, e, ls);
    lemma_stay(kd, st, ls);
    if let Term::Handle { body, clauses, ret, .. } = e {
        let outer = st.ev;
        let target = st.next_name;
        let at_target = seq![target] + env;
        let st0 = st.fresh_ref();
        lemma_fresh_as(st, Rep::Ref);
        lemma_quietly(kd, st, st0, ls);
        lemma_went(kd, st, st0, ls);
        assert(decreases_to!(e => clauses@));
        lemma_install(kd, st0, clauses@, clauses@.len(), at_target, target, ls);
        let i = install(st0, clauses@, clauses@.len(), at_target, target);
        lemma_on(kd, st, st0, i.st, ls);
        let h = i.st.next_name;
        let st1 = i.st.fresh_ref();
        lemma_fresh_as(i.st, Rep::Ref);
        lemma_typed(st1, type_of(st1, *body));
        let (st2, x, want) = match ret {
            Some(r) => (st1, r.0, wants(st1, *r.2, seq![r.0]).insert(target)),
            None => (st1.fresh_typed(type_of(st1, *body)), st1.next_name, set![target]),
        };
        lemma_quiet_on(i.st, st1, st1.fresh_typed(type_of(st1, *body)));
        assert(quiet(i.st, st2));
        let caps = restricted(i.cur, want);
        let params = caps.push(x);
        let kk = st2.next_name;
        let st3 = st2.fresh_ref();
        lemma_fresh_as(st2, Rep::Ref);
        lemma_quiet_on(i.st, st2, st3);
        lemma_on_quietly(kd, st, i.st, st3, ls);
        lemma_went(kd, st, st3, ls);
        lemma_stay(kd, st3, ls);
        let at_kk = seq![kk] + params;
        if let Some(r) = ret {
            lemma_expr(kd, st3, *r.2, at_kk, kk, ls);
        }
        let (st4, inner) = match ret {
            Some(r) => expr(st3, *r.2, at_kk, kk),
            None => (st3, ret_v(kk, x)),
        };
        lemma_on(kd, st, st3, st4, ls);
        lemma_went(kd, st, st4, ls);
        lemma_other_ev(kd, st4, i.ev);
        lemma_expr(kd, st4.with_ev(i.ev), *body, seq![h] + i.cur, h, ls);
        let (st5, stmt) = expr(st4.with_ev(i.ev), *body, seq![h] + i.cur, h);
        lemma_back_ev(kd, st4, i.ev, st5, ls);
        let back = st5.with_ev(outer);
        lemma_on(kd, st, st4, back, ls);
        let get = one_v(ExternV::Prim(Prim::GetRef), seq![target], at_kk, inner);
        let steps = i.steps.push(StepV::Object(h, caps, BlockV { params, body: get }));
        lemma_assemble(back, steps, steps.len(), stmt);
        let st6 = assemble(back, steps, steps.len(), stmt).0;
        lemma_fresh_as(st6, Rep::Bits(desc::UNIT));
        lemma_quiet_on(back, st6, st6.fresh_as(Rep::Bits(desc::UNIT)));
        lemma_on_quietly(kd, st, back, st6.fresh_as(Rep::Bits(desc::UNIT)), ls);
    }
}

} // verus!
