//! Every name lowering uses is in the environment where it uses it: handlers, join points and `letrec`s.

use super::bring::{lemma_expr, lemma_resumed, lemma_under};
use super::bring_labels::{
    lemma_assembled, lemma_clause_plain, lemma_clause_steps, lemma_group_stocked, lemma_join_body, lemma_join_rhs,
    lemma_labels_kept, lemma_letrec_body, lemma_no_steps, lemma_nth_rhs, lemma_register, lemma_resumed_parts,
    lemma_rhs_clear, lemma_step_on, rhs_labels, rhs_stocked, stepped,
};
use super::bring_parts::ran;
use super::frame::made;
use super::going_parts::{lemma_grouped, lemma_take_labels};
use super::have::{brought, lemma_args, lemma_brought, lemma_through, lemma_wrote};
use super::live::{bound_by, params_of, restricted, wants};
use super::reach::Kinds;
use super::scheme::{
    assemble, expr, group_wants, install, lower_binds, lower_handle, lower_join, lower_letrec, lower_resumed,
    lower_under, register, resumed_with, seconds, tail_resumptive, take_labels, StepV,
};
use super::shape::{abs_id, abstracts};
use super::state::St;
use super::stride::{lemma_fresh_as, lemma_quiet_on, lemma_typed, quiet, same_at, LAST};
use super::supply::{
    able, clauses_stocked, lemma_able_as, lemma_able_kept, lemma_able_on, lemma_able_parts, lemma_clauses_more,
    lemma_clauses_on, lemma_keeps, lemma_kept, lemma_nth_clause, lemma_own, lemma_stocked, lemma_stocked_as,
    lemma_stocked_kept, lemma_stocked_more, lemma_stocked_on, own, plains,
};
use super::tree::DtV;
use super::types::type_of;
use super::went::{
    fit, fit_clauses, fit_rhs, lemma_back_ev, lemma_below, lemma_bind, lemma_clause, lemma_desc_names, lemma_ev,
    lemma_group_below, lemma_join_known, lemma_label, lemma_more_scope, lemma_on, lemma_other_ev, lemma_parts,
    lemma_quietly, lemma_registered, lemma_rhs, lemma_stay, lemma_went, lemma_written, okay, went,
};
use crate::seq::cover::{lemma_both, lemma_front, lemma_push, within};
use crate::seq::draw::{lemma_draw_error, lemma_draw_one, lemma_draw_ret, lemma_draw_sub};
use crate::seq::ir::{Name, Rep};
use crate::seq::view::{one_v, ret_v, sub_v, BlockV, ExternV};
use crate::terms::desc;
use crate::terms::prim::Prim;
use crate::terms::symbol;
use crate::terms::term::{HClause, Term, Var};
use crate::terms::ty::Poly;
use vstd::prelude::*;

verus! {

pub proof fn lemma_join(kd: Kinds, st: St, e: Term, env: Seq<Name>, k: Name, ls: Set<Var>)
    requires
        okay(kd, st),
        fit(kd, e, ls),
        able(st, e, env, ls),
        env.contains(k),
        brought(st),
    ensures
        ran(kd, st, lower_join(st, e, env, k), env, ls),
    decreases e, 0nat, 1nat, DtV::Fail, 0nat,
{
    lemma_parts(kd, e, ls);
    lemma_able_parts(st, e, env, ls);
    lemma_stay(kd, st, ls);
    lemma_draw_error(env, st.descs);
    super::going::lemma_join(kd, st, e, env, k, ls);
    if let Term::Join { var, params, rhs, body, .. } = e {
        let ps = params_of(params@);
        let want = wants(st, *rhs, ps).remove(st.ev);
        let fvs = restricted(env, want);
        lemma_kept(env, want);
        assert(plains(kd, ps)) by {
            assert forall|v: Var| #[trigger] ps.contains(v) implies kd.plain(v) by {
                let i = choose|i: int| 0 <= i < ps.len() && ps[i] == v;
                assert(kd.plain(params@[i].0));
            }
        }
        lemma_parts(kd, *rhs, ls);
        lemma_below(kd, st, *rhs, ps, env);
        let label = st.next_label;
        let st1 = st.fresh_label();
        lemma_label(kd, st, ls);
        lemma_went(kd, st, st1, ls);
        lemma_join_known(kd, st1, var, label, fvs, ls);
        let st2 = St { joins: st1.joins.insert(var, (label, fvs)), ..st1 };
        lemma_went(kd, st1, st2, ls);
        let kk = st2.next_name;
        let st3 = st2.function_return();
        assert(quiet(st2, st3));
        let iev = st3.next_name;
        let st4 = st3.fresh_ref();
        lemma_fresh_as(st3, Rep::Ref);
        lemma_quiet_on(st2, st3, st4);
        lemma_quietly(kd, st2, st4, ls);
        lemma_went(kd, st2, st4, ls);
        lemma_ev(kd, st2);
        lemma_other_ev(kd, st4, iev);
        let at = st4.with_ev(iev);
        lemma_brought(st, at);
        let block = (fvs + ps).push(kk).push(iev);
        lemma_both(fvs, ps);
        lemma_push(fvs + ps, kk);
        lemma_push((fvs + ps).push(kk), iev);
        lemma_stocked_kept(kd, st, *rhs, ps, want, env, block, ls);
        lemma_join_rhs(st, at, *rhs, var, (label, fvs), block, ls);
        lemma_stocked(at, *rhs, block, ls);
        lemma_expr(kd, at, *rhs, block, kk, ls);
        let (st5, made) = expr(at, *rhs, block, kk);
        lemma_went(kd, at, st5, ls);
        lemma_back_ev(kd, st4, iev, st5, ls);
        let back = st5.with_ev(st.ev);
        lemma_brought(st5, back);
        lemma_on(kd, st1, st2, st4, ls);
        lemma_on(kd, st1, st4, back, ls);
        let method = BlockV { params: block, body: made };
        let st6 = back.wrote(label, symbol::JOIN_BLOCK, method);
        lemma_written(kd, st, back, symbol::JOIN_BLOCK, method, ls);
        lemma_went(kd, st, st6, ls);
        lemma_wrote(back, label, symbol::JOIN_BLOCK, method);
        lemma_own(kd, *rhs);
        lemma_own(kd, *body);
        super::going::lemma_expr(kd, at, *rhs, block, kk, own(*rhs));
        lemma_went(kd, at, st5, own(*rhs));
        assert forall|v: Var| !own(*rhs).contains(v) implies #[trigger] same_at(at, st6, v) by {
            assert(same_at(at, st5, v));
        }
        lemma_join_body(kd, st, at, st6, e, label, fvs, env, ls);
        lemma_expr(kd, st6, *body, env, k, own(*body));
        lemma_went(kd, st6, expr(st6, *body, env, k).0, own(*body));
    }
}

pub proof fn lemma_letrec(kd: Kinds, st: St, e: Term, env: Seq<Name>, k: Name, ls: Set<Var>)
    requires
        okay(kd, st),
        fit(kd, e, ls),
        able(st, e, env, ls),
        env.contains(k),
        brought(st),
    ensures
        ran(kd, st, lower_letrec(st, e, env, k), env, ls),
    decreases e, 0nat, 1nat, DtV::Fail, 0nat,
{
    lemma_parts(kd, e, ls);
    lemma_able_parts(st, e, env, ls);
    lemma_stay(kd, st, ls);
    lemma_draw_error(env, st.descs);
    super::going_handle::lemma_letrec(kd, st, e, env, k, ls);
    if let Term::LetRec(binds, body) = e {
        let want = group_wants(st, binds@);
        let fvs = restricted(env, want);
        lemma_kept(env, want);
        lemma_group_below(kd, st, binds@, ls, env);
        lemma_take_labels(kd, st, binds@.len(), ls);
        let (st1, labels) = take_labels(st, binds@.len());
        lemma_went(kd, st, st1, ls);
        let vs = bound_by(binds@);
        assert forall|i: int| 0 <= i < vs.len() implies kd.g.contains(#[trigger] vs[i]) && ls.contains(vs[i]) by {
            lemma_bind(kd, binds@, ls, i);
        }
        lemma_registered(kd, st1, vs, labels, fvs, vs.len(), ls);
        let st2 = register(st1, vs, labels, fvs, binds@.len());
        lemma_went(kd, st1, st2, ls);
        lemma_brought(st, st2);
        let own_rhs = rhs_labels(binds@);
        lemma_labels_kept(st, binds@.len());
        lemma_register(st1, vs, labels, fvs, vs.len());
        lemma_rhs_clear(kd, e, own_rhs);
        lemma_group_stocked(kd, st, st2, e, fvs, env, ls);
        assert(decreases_to!(e => binds@));
        lemma_group(kd, st2, binds@, labels, fvs, binds@.len(), own_rhs);
        let st3 = lower_binds(st2, binds@, labels, fvs, binds@.len());
        super::going_handle::lemma_group(kd, st2, binds@, labels, fvs, binds@.len(), own_rhs);
        lemma_grouped(kd, st2, st3, labels, binds@.len(), own_rhs);
        lemma_own(kd, *body);
        lemma_letrec_body(kd, st, st2, st3, e, fvs, env, ls);
        lemma_expr(kd, st3, *body, env, k, own(*body));
        lemma_went(kd, st3, expr(st3, *body, env, k).0, own(*body));
    }
}

pub proof fn lemma_group(
    kd: Kinds,
    st: St,
    binds: Seq<(Var, Poly, Term)>,
    labels: Seq<u32>,
    fvs: Seq<Name>,
    n: nat,
    ls: Set<Var>,
)
    requires
        okay(kd, st),
        fit_rhs(kd, binds, ls),
        rhs_stocked(st, binds, fvs, ls),
        n <= binds.len(),
        labels.len() == binds.len(),
        brought(st),
    ensures
        brought(lower_binds(st, binds, labels, fvs, n)),
    decreases binds, n, 0nat, DtV::Fail, 0nat,
{
    if n > 0 {
        lemma_group(kd, st, binds, labels, fvs, (n - 1) as nat, ls);
        super::going_handle::lemma_group(kd, st, binds, labels, fvs, (n - 1) as nat, ls);
        let st0 = lower_binds(st, binds, labels, fvs, (n - 1) as nat);
        lemma_grouped(kd, st, st0, labels, (n - 1) as nat, ls);
        let kk = st0.next_name;
        let st1 = st0.function_return();
        assert(quiet(st0, st1));
        let iev = st1.next_name;
        let st2 = st1.fresh_ref();
        lemma_fresh_as(st1, Rep::Ref);
        lemma_quiet_on(st0, st1, st2);
        lemma_quietly(kd, st0, st2, ls);
        lemma_went(kd, st0, st2, ls);
        lemma_ev(kd, st0);
        let t = binds[n - 1].2;
        lemma_rhs(kd, binds, ls, n - 1);
        let descs = if abstracts(t) {
            st2.desc_names(abs_id(t))
        } else {
            Seq::empty()
        };
        lemma_desc_names(kd, st2, abs_id(t));
        lemma_more_scope(kd, st2, descs);
        let scoped = st2.more_scope(descs);
        lemma_other_ev(kd, scoped, iev);
        let at = scoped.with_ev(iev);
        let params = (fvs + seconds(descs)).push(kk).push(iev);
        lemma_both(fvs, seconds(descs));
        lemma_push(fvs + seconds(descs), kk);
        lemma_push((fvs + seconds(descs)).push(kk), iev);
        lemma_nth_rhs(st, st0, binds, fvs, n - 1, ls);
        lemma_stocked_more(st0, t, fvs, params, ls);
        lemma_stocked_as(st0, at, t, params, ls);
        lemma_stocked(at, t, params, ls);
        lemma_brought(st0, at);
        assert(decreases_to!(binds => binds[n - 1]));
        lemma_under(kd, at, t, params, kk, ls);
        lemma_expr(kd, at, t, params, kk, ls);
        let (st3, body) = if abstracts(t) {
            lower_under(at, t, params, kk)
        } else {
            expr(at, t, params, kk)
        };
        lemma_went(kd, at, st3, ls);
        let back = st3.with_ev(st0.ev).cut_scope(st0.tscope.len());
        lemma_brought(st3, back);
        lemma_wrote(back, labels[n - 1], symbol::LETREC_BLOCK, BlockV { params, body });
    }
}

pub proof fn lemma_install(
    kd: Kinds,
    st: St,
    clauses: Seq<HClause>,
    n: nat,
    env: Seq<Name>,
    target: Name,
    ls: Set<Var>,
)
    requires
        okay(kd, st),
        fit_clauses(kd, clauses, ls),
        clauses_stocked(st, clauses, env, ls),
        n <= clauses.len(),
        env.contains(st.ev),
        env.contains(target),
        brought(st),
    ensures
        went(kd, st, install(st, clauses, n, env, target).st, ls),
        brought(install(st, clauses, n, env, target).st),
        within(env, install(st, clauses, n, env, target).cur),
        install(st, clauses, n, env, target).cur.contains(install(st, clauses, n, env, target).ev),
        install(st, clauses, n, env, target).st.next_name < LAST ==> stepped(install(st, clauses, n, env, target).steps, env, install(st, clauses, n, env, target).cur, st.descs),
    decreases clauses, n, 0nat, DtV::Fail, 0nat,
{
    lemma_stay(kd, st, ls);
    lemma_no_steps(env, st.descs);
    if n > 0 {
        lemma_install(kd, st, clauses, (n - 1) as nat, env, target, ls);
        let h = install(st, clauses, (n - 1) as nat, env, target);
        super::going_handle::lemma_install(kd, st, clauses, n, env, target, ls);
        lemma_went(kd, st, h.st, ls);
        let c = clauses[n - 1];
        assert(decreases_to!(clauses => c));
        assert(decreases_to!(c => c.body));
        lemma_clause(kd, clauses, ls, n - 1);
        lemma_clause_plain(kd, clauses, ls, n - 1);
        lemma_nth_clause(st, clauses, env, ls, n - 1);
        lemma_stocked_on(kd, st, h.st, c.body, env, ls);
        lemma_stocked_more(h.st, c.body, env, h.cur, ls);
        let tail = tail_resumptive(c);
        let kh = h.st.next_name;
        let want = if tail {
            wants(h.st, resumed_with(c.body), seq![c.param])
        } else {
            wants(h.st, c.body, seq![c.param, c.resume])
        };
        let captures = restricted(h.cur, want);
        lemma_kept(h.cur, want);
        let params = if tail {
            captures.push(c.param).push(kh)
        } else {
            captures.push(c.param).push(c.resume).push(kh)
        };
        lemma_push(captures, c.param);
        lemma_push(captures.push(c.param), kh);
        lemma_push(captures.push(c.param), c.resume);
        lemma_push(captures.push(c.param).push(c.resume), kh);
        let a0 = h.st.fresh_ref().answering(kh);
        let b0 = h.st.function_return();
        assert(quiet(h.st, a0));
        assert(quiet(h.st, b0));
        lemma_quietly(kd, h.st, a0, ls);
        lemma_went(kd, h.st, a0, ls);
        lemma_quietly(kd, h.st, b0, ls);
        lemma_went(kd, h.st, b0, ls);
        if tail {
            lemma_resumed_parts(kd, h.st, c.body, h.cur, ls);
            lemma_stocked(h.st, resumed_with(c.body), h.cur, ls);
            lemma_able_kept(kd, h.st, resumed_with(c.body), seq![c.param], want, h.cur, params, ls);
            lemma_able_on(kd, h.st, a0, resumed_with(c.body), params, ls);
            lemma_brought(h.st, a0);
            lemma_resumed(kd, a0, c.body, params, kh, ls);
        } else {
            lemma_stocked(h.st, c.body, h.cur, ls);
            lemma_able_kept(kd, h.st, c.body, seq![c.param, c.resume], want, h.cur, params, ls);
            lemma_able_on(kd, h.st, b0, c.body, params, ls);
            lemma_brought(h.st, b0);
            lemma_expr(kd, b0, c.body, params, kh, ls);
        }
        let (st1, body) = if tail {
            lower_resumed(a0, c.body, params, kh)
        } else {
            expr(b0, c.body, params, kh)
        };
        if tail {
            lemma_went(kd, a0, st1, ls);
        } else {
            lemma_went(kd, b0, st1, ls);
        }
        let obj = st1.next_name;
        let st2 = st1.fresh_ref();
        let key = st2.next_name;
        let st3 = st2.fresh_as(Rep::Str);
        let sym = st3.symbol(st3.key(c.effect, c.op));
        let st4 = st3.interned(st3.key(c.effect, c.op));
        let entry = st4.next_name;
        let st5 = st4.fresh_ref();
        lemma_brought(st1, st5);
        lemma_clause_steps(h.steps, env, h.cur, obj, captures, BlockV { params, body }, key, sym, entry, if tail {
            symbol::EV_TAIL
        } else {
            symbol::EV
        }, target, h.ev, st.descs, st5.next_name < LAST);
    }
}

pub proof fn lemma_handle(kd: Kinds, st: St, e: Term, env: Seq<Name>, k: Name, ls: Set<Var>)
    requires
        okay(kd, st),
        fit(kd, e, ls),
        able(st, e, env, ls),
        env.contains(k),
        brought(st),
    ensures
        ran(kd, st, lower_handle(st, e, env, k), env, ls),
    decreases e, 0nat, 1nat, DtV::Fail, 0nat,
{
    lemma_parts(kd, e, ls);
    lemma_able_parts(st, e, env, ls);
    lemma_stay(kd, st, ls);
    lemma_draw_error(env, st.descs);
    super::going_handle::lemma_handle(kd, st, e, env, k, ls);
    if let Term::Handle { body, clauses, ret, .. } = e {
        let outer = st.ev;
        let target = st.next_name;
        let at_target = seq![target] + env;
        lemma_front(target, env);
        let st0 = st.fresh_ref();
        lemma_fresh_as(st, Rep::Ref);
        lemma_quietly(kd, st, st0, ls);
        lemma_went(kd, st, st0, ls);
        lemma_brought(st, st0);
        assert(decreases_to!(e => clauses@));
        lemma_clauses_on(kd, st, st0, clauses@, env, ls);
        lemma_clauses_more(st0, clauses@, env, at_target, ls);
        lemma_install(kd, st0, clauses@, clauses@.len(), at_target, target, ls);
        super::going_handle::lemma_install(kd, st0, clauses@, clauses@.len(), at_target, target, ls);
        let i = install(st0, clauses@, clauses@.len(), at_target, target);
        lemma_went(kd, st0, i.st, ls);
        lemma_on(kd, st, st0, i.st, ls);
        let h = i.st.next_name;
        let st1 = i.st.fresh_ref();
        lemma_fresh_as(i.st, Rep::Ref);
        lemma_typed(st1, type_of(st1, *body));
        let (st2, x, want) = match ret {
            Some(r) => (st1, r.0, wants(st1, *r.2, seq![r.0]).insert(target)),
            None => (st1.fresh_typed(type_of(st1, *body)), st1.next_name, set![target]),
        };
        lemma_quiet_on(i.st, st1, st1.fresh_typed(type_of(st1, *body)));
        assert(quiet(i.st, st2));
        let caps = restricted(i.cur, want);
        lemma_kept(i.cur, want);
        let params = caps.push(x);
        lemma_push(caps, x);
        let kk = st2.next_name;
        let st3 = st2.fresh_ref();
        lemma_fresh_as(st2, Rep::Ref);
        lemma_quiet_on(i.st, st2, st3);
        lemma_quietly(kd, i.st, st1, ls);
        lemma_went(kd, i.st, st1, ls);
        lemma_quietly(kd, i.st, st3, ls);
        lemma_went(kd, i.st, st3, ls);
        lemma_on(kd, st, i.st, st3, ls);
        lemma_on(kd, st, i.st, st1, ls);
        lemma_brought(i.st, st3);
        lemma_stay(kd, st3, ls);
        let at_kk = seq![kk] + params;
        lemma_front(kk, params);
        lemma_through(env, at_target, i.cur);
        assert(at_target.contains(target));
        lemma_keeps(i.cur, want, target, params);
        if let Some(r) = ret {
            lemma_stocked_on(kd, st, st1, *r.2, env, ls);
            lemma_stocked_more(st1, *r.2, env, i.cur, ls);
            lemma_stocked(st1, *r.2, i.cur, ls);
            lemma_able_kept(kd, st1, *r.2, seq![r.0], want, i.cur, at_kk, ls);
            lemma_able_as(st1, st3, *r.2, at_kk, ls);
            lemma_expr(kd, st3, *r.2, at_kk, kk, ls);
        }
        let (st4, inner) = match ret {
            Some(r) => expr(st3, *r.2, at_kk, kk),
            None => (st3, ret_v(kk, x)),
        };
        lemma_draw_ret(kk, x, at_kk, st.descs);
        lemma_went(kd, st3, st4, ls);
        lemma_on(kd, st, st3, st4, ls);
        lemma_went(kd, st, st4, ls);
        lemma_other_ev(kd, st4, i.ev);
        let at_h = seq![h] + i.cur;
        lemma_front(h, i.cur);
        let at = st4.with_ev(i.ev);
        lemma_stocked_on(kd, st, st4, *body, env, ls);
        lemma_through(env, i.cur, at_h);
        lemma_stocked_more(st4, *body, env, at_h, ls);
        lemma_stocked_as(st4, at, *body, at_h, ls);
        lemma_stocked(at, *body, at_h, ls);
        lemma_brought(st4, at);
        lemma_expr(kd, at, *body, at_h, h, ls);
        let (st5, stmt) = expr(at, *body, at_h, h);
        lemma_went(kd, at, st5, ls);
        let back = st5.with_ev(outer);
        let get = one_v(ExternV::Prim(Prim::GetRef), seq![target], at_kk, inner);
        let method = BlockV { params, body: get };
        let steps = i.steps.push(StepV::Object(h, caps, method));
        super::going_parts::lemma_assemble(back, steps, steps.len(), stmt);
        let (st6, whole) = assemble(back, steps, steps.len(), stmt);
        let last = st6.fresh_as(Rep::Bits(desc::UNIT));
        lemma_fresh_as(st6, Rep::Bits(desc::UNIT));
        lemma_quiet_on(back, st6, last);
        lemma_brought(st5, last);
        let u = st6.next_name;
        if last.next_name < LAST {
            lemma_args(target, params);
            lemma_draw_one(ExternV::Prim(Prim::GetRef), seq![target], at_kk, inner, params, st.descs);
            lemma_step_on(i.steps, StepV::Object(h, caps, method), at_target, i.cur, st.descs);
            assert(steps.take(steps.len() as int) =~= steps);
            lemma_assembled(back, steps, steps.len(), stmt, at_target, at_h, st.descs);
            let dropped = sub_v(at_target, at_target, whole);
            lemma_front(u, at_target);
            lemma_draw_sub(at_target, at_target, whole, seq![u] + at_target, st.descs);
            lemma_args(target, at_target);
            let enter = one_v(ExternV::Prim(Prim::Enter), seq![target], seq![u] + at_target, dropped);
            lemma_draw_one(ExternV::Prim(Prim::Enter), seq![target], seq![u] + at_target, dropped, at_target, st.descs);
            lemma_args(k, env);
            lemma_draw_one(ExternV::Prim(Prim::NewRef), seq![k], at_target, enter, env, st.descs);
        }
    }
}

} // verus!
