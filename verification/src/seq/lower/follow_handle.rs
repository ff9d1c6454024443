//! Every block lowering writes names the whole environment it is entered in:
//! handlers.

use super::follow::{lemma_expr, lemma_resumed};
use super::live::{restricted, wants};
use super::scheme::{
    assemble, expr, install, lower_handle, lower_resumed, resumed_with, tail_resumptive, StepV,
};
use super::state::St;
use super::tree::DtV;
use super::types::type_of;
use super::whole::{lemma_front, lemma_typed, sound};
use crate::seq::balance::{
    lemma_built_in, lemma_error, lemma_invoke, lemma_object, lemma_one, lemma_sub, scoped,
};
use crate::seq::ir::{Name, Rep};
use crate::seq::view::{let_v, new_v, one_v, ret_v, sub_v, BlockV, ExternV, StmtV};
use crate::terms::prim::{Lit, Prim};
use crate::terms::symbol::{self, Sym};
use crate::terms::term::{HClause, Term};
use vstd::prelude::*;

verus! {

/// Steps of installing a handler that lead from `a` to `b`.
pub open spec fn stepped(steps: Seq<StepV>, a: Seq<Name>, b: Seq<Name>) -> bool
    decreases steps.len(),
{
    if steps.len() == 0 {
        a == b
    } else {
        let before = b.skip(1);
        b.len() > 0 && stepped(steps.drop_last(), a, before) && step_fits(steps.last(), before, b[0])
    }
}

/// A step taken in `env` that binds `x` in front of it.
pub open spec fn step_fits(s: StepV, env: Seq<Name>, x: Name) -> bool {
    match s {
        StepV::Object(n, captures, method) => n == x && captures.is_prefix_of(method.params) && scoped(
            method.body,
            method.params,
        ),
        StepV::Key(n, _, before) => n == x && before == env,
        StepV::Entry(n, _, _) => n == x,
    }
}

pub open spec fn step_name(s: StepV) -> Name {
    match s {
        StepV::Object(n, _, _) => n,
        StepV::Key(n, _, _) => n,
        StepV::Entry(n, _, _) => n,
    }
}

pub proof fn lemma_stepped(steps: Seq<StepV>, s: StepV, a: Seq<Name>, b: Seq<Name>)
    requires
        stepped(steps, a, b),
        step_fits(s, b, step_name(s)),
    ensures
        stepped(steps.push(s), a, seq![step_name(s)] + b),
{
    lemma_front(step_name(s), b);
    assert(steps.push(s).drop_last() =~= steps);
}

pub proof fn lemma_assemble(st: St, steps: Seq<StepV>, n: nat, stmt: StmtV, a: Seq<Name>, b: Seq<Name>)
    requires
        sound(st),
        n <= steps.len(),
        stepped(steps.take(n as int), a, b),
        scoped(stmt, b),
    ensures
        sound(assemble(st, steps, n, stmt).0),
        scoped(assemble(st, steps, n, stmt).1, a),
    decreases n,
{
    if n > 0 {
        let now = steps.take(n as int);
        let before = b.skip(1);
        assert(now.drop_last() =~= steps.take(n - 1));
        assert(now.last() == steps[n - 1]);
        assert(seq![b[0]] + before =~= b);
        match steps[n - 1] {
            StepV::Object(x, captures, method) => {
                lemma_object(x, captures, method, stmt, before);
                lemma_assemble(st, steps, (n - 1) as nat, new_v(x, captures, method, stmt), a, before);
            },
            StepV::Key(x, sym, env) => {
                let op = ExternV::Lit(Lit::Sym(sym));
                lemma_one(op, Seq::empty(), seq![x] + env, stmt, before);
                lemma_assemble(st, steps, (n - 1) as nat, one_v(op, Seq::empty(), seq![x] + env, stmt), a, before);
            },
            StepV::Entry(x, ctor, fields) => {
                let s = let_v(x, st.tag(ctor), ctor, fields, stmt);
                lemma_built_in(x, st.tag(ctor), ctor, fields, stmt, before);
                lemma_assemble(st.tagged(ctor), steps, (n - 1) as nat, s, a, before);
            },
        }
    }
}

pub proof fn lemma_install(st: St, clauses: Seq<HClause>, n: nat, env: Seq<Name>, target: Name)
    requires
        sound(st),
    ensures
        sound(install(st, clauses, n, env, target).st),
        stepped(install(st, clauses, n, env, target).steps, env, install(st, clauses, n, env, target).cur),
    decreases clauses, n, 0nat, DtV::Fail, 0nat,
{
    if n > 0 && n <= clauses.len() {
        lemma_install(st, clauses, (n - 1) as nat, env, target);
        let h = install(st, clauses, (n - 1) as nat, env, target);
        let c = clauses[n - 1];
        assert(decreases_to!(clauses => c));
        assert(decreases_to!(c => c.body));
        let tail = tail_resumptive(c);
        let kh = h.st.next_name;
        let captures = if tail {
            restricted(h.cur, wants(h.st, resumed_with(c.body), seq![c.param]))
        } else {
            restricted(h.cur, wants(h.st, c.body, seq![c.param, c.resume]))
        };
        let params = if tail {
            captures.push(c.param).push(kh)
        } else {
            captures.push(c.param).push(c.resume).push(kh)
        };
        assert(params.take(captures.len() as int) =~= captures);
        lemma_resumed(h.st.fresh_ref().answering(kh), c.body, params, kh);
        lemma_expr(h.st.function_return(), c.body, params, kh);
        let (st1, body) = if tail {
            lower_resumed(h.st.fresh_ref().answering(kh), c.body, params, kh)
        } else {
            expr(h.st.function_return(), c.body, params, kh)
        };
        let r = install(st, clauses, n, env, target);
        let obj = st1.next_name;
        let st2 = st1.fresh_ref();
        let key = st2.next_name;
        let st3 = st2.fresh_as(Rep::Str);
        let sym = st3.symbol(st3.key(c.effect, c.op));
        let st4 = st3.interned(st3.key(c.effect, c.op));
        let at_obj = seq![obj] + h.cur;
        let at_key = seq![key] + at_obj;
        let one = StepV::Object(obj, captures, BlockV { params, body });
        let two = StepV::Key(key, sym, at_obj);
        let ctor = if tail {
            symbol::EV_TAIL
        } else {
            symbol::EV
        };
        let three = StepV::Entry(st4.next_name, ctor, seq![key, obj, target, h.ev]);
        lemma_stepped(h.steps, one, env, h.cur);
        lemma_stepped(h.steps.push(one), two, env, at_obj);
        lemma_stepped(h.steps.push(one).push(two), three, env, at_key);
        assert(r.steps == h.steps.push(one).push(two).push(three));
        assert(r.cur == seq![st4.next_name] + at_key);
    }
}

pub proof fn lemma_handle(st: St, e: Term, env: Seq<Name>, k: Name)
    requires
        sound(st),
    ensures
        sound(lower_handle(st, e, env, k).0),
        scoped(lower_handle(st, e, env, k).1, env),
    decreases e, 0nat, 1nat, DtV::Fail, 0nat,
{
    lemma_error(env);
    if let Term::Handle { body, clauses, ret, .. } = e {
        let outer = st.ev;
        let target = st.next_name;
        let at_target = seq![target] + env;
        assert(decreases_to!(e => clauses@));
        lemma_install(st.fresh_ref(), clauses@, clauses@.len(), at_target, target);
        let i = install(st.fresh_ref(), clauses@, clauses@.len(), at_target, target);
        let h = i.st.next_name;
        let st1 = i.st.fresh_ref();
        lemma_typed(st1, type_of(st1, *body));
        let (st2, x, want) = match ret {
            Some(r) => (st1, r.0, wants(st1, *r.2, seq![r.0]).insert(target)),
            None => (st1.fresh_typed(type_of(st1, *body)), st1.next_name, set![target]),
        };
        let caps = restricted(i.cur, want);
        let params = caps.push(x);
        assert(params.take(caps.len() as int) =~= caps);
        let kk = st2.next_name;
        let st3 = st2.fresh_ref();
        let at_kk = seq![kk] + params;
        match ret {
            Some(r) => {
                lemma_expr(st3, *r.2, at_kk, kk);
            },
            None => {
                lemma_invoke(seq![kk, x], kk, at_kk);
            },
        }
        let (st4, inner) = match ret {
            Some(r) => expr(st3, *r.2, at_kk, kk),
            None => (st3, ret_v(kk, x)),
        };
        let get = one_v(ExternV::Prim(Prim::GetRef), seq![target], at_kk, inner);
        lemma_front(kk, params);
        lemma_one(ExternV::Prim(Prim::GetRef), seq![target], at_kk, inner, params);
        let method = BlockV { params, body: get };
        lemma_expr(st4.with_ev(i.ev), *body, seq![h] + i.cur, h);
        let (st5, stmt) = expr(st4.with_ev(i.ev), *body, seq![h] + i.cur, h);
        let last = StepV::Object(h, caps, method);
        lemma_stepped(i.steps, last, at_target, i.cur);
        let steps = i.steps.push(last);
        assert(steps.take(steps.len() as int) =~= steps);
        lemma_assemble(st5.with_ev(outer), steps, steps.len(), stmt, at_target, seq![h] + i.cur);
        let (st6, whole) = assemble(st5.with_ev(outer), steps, steps.len(), stmt);
        let u = st6.next_name;
        let dropped = sub_v(at_target, at_target, whole);
        lemma_sub(at_target, at_target, whole, seq![u] + at_target);
        lemma_front(u, at_target);
        lemma_front(target, env);
        let enter = one_v(ExternV::Prim(Prim::Enter), seq![target], seq![u] + at_target, dropped);
        lemma_one(ExternV::Prim(Prim::Enter), seq![target], seq![u] + at_target, dropped, at_target);
        lemma_one(ExternV::Prim(Prim::NewRef), seq![k], at_target, enter, env);
    }
}

} // verus!
