//! Lowering keeps meaning: what is written, run on the machine, answers with the value the
//! term comes to.

use super::frame::{built, filled, plugged, produced, FrameV};
use super::live::{restricted, wants, wants_all};
use super::mean::{all_mean, binds, flat, means, mentions, neat, neat_all, prim_value, pure, World};
use super::mean_direct::{
    known, lemma_const, lemma_direct, lemma_direct_all, lemma_in_env, lemma_kept_on, lemma_ready,
    lemma_ready_body, lemma_ready_item, lemma_ready_list, lemma_ready_now, lemma_taken, ready, ready_all, spare,
    taken, unused,
};
use super::mean_place::{
    binds_any, grown, grown_any, kept, lemma_any, lemma_built_at, lemma_flat, lemma_front, lemma_place, lemma_place_all,
    lemma_produced_at, lemma_uses, whence, whence_any,
};
use super::mean_quiet::{
    lemma_begun, lemma_begun_env, lemma_ended, lemma_expr as lemma_quiet, lemma_finish_all, lemma_lowered,
    lemma_start_all, lemma_start_all_env,
};
use super::mean_run::{
    answering, answers, at, keeps, lemma_has, lemma_picked, lemma_plugged_none, lemma_plugged_push, lemma_reach_now,
    lemma_reach_then, lemma_run_answered, lemma_run_let, lemma_run_mark, lemma_run_new, lemma_run_one,
    lemma_run_ret, lemma_run_two, lemma_values, op_value, reach, unchecked,
};
use super::scheme::{
    answered, begin, direct, direct_all, ended, expr, finish_all, lower_branch, lower_if, lower_let, simple,
    start_all, started, waiting, BoundV,
};
use super::shape::const_arg;
use super::state::St;
use super::stride::{lemma_quiet_on, lemma_still, lemma_typed, quiet, LAST};
use super::types::type_of;
use super::went::lemma_restricted;
use crate::seq::ir::{Name, Tag};
use crate::seq::machine::laws::{a_comparison_answers_whether_it_holds, all_hold, compares};
use crate::seq::machine::state::{holds, S};
use crate::seq::machine::value::ValueV;
use crate::seq::view::{ret_v, two_v, BlockV, ExternV, StmtV};
use crate::terms::prim::{Lit, Prim};
use crate::terms::symbol::{self, Sym};
use crate::terms::term::{Term, Var};
use crate::terms::ty::{type_of_lit, Ty};
use vstd::prelude::*;

verus! {

/// What comes to answer goes on coming to it.
pub proof fn lemma_answers_then(w: World, s: S, t: S, kv: ValueV, v: ValueV)
    requires
        reach(w, s, t),
        answers(w, t, kv, v),
    ensures
        answers(w, s, kv, v),
{
    let u = choose|u: S| #[trigger] reach(w, t, u) && answering(w, u, kv, v);
    lemma_reach_then(w, s, t, u);
}

/// A started term, run: its value is bound, and what was to be kept is.
#[verifier::spinoff_prover]
pub proof fn lemma_bound(
    w: World,
    st: St,
    e: Term,
    env: Seq<Name>,
    keep: Seq<Name>,
    name: Option<Name>,
    st2: St,
    body: StmtV,
    rho: Map<Var, ValueV>,
    v: ValueV,
    s: S,
) -> (t: S)
    requires
        pure(e),
        ready(w, st, e, env, rho, s),
        unused(st, e, env, name),
        kept(keep, env),
        means(w, e, rho) == Some(v),
        quiet(begin(st, e, env, keep, name, direct(st, e, env, name)).0, st2),
        ({
            let b = begin(st, e, env, keep, name, direct(st, e, env, name)).1;
            let r = ended(st2, b, body, expr(st2, e, seq![b.kk] + b.outer, b.kk));
            r.0.next_name < LAST && at(w, s, r.1, env)
        }),
    ensures
        reach(w, s, t),
        at(w, t, body, begin(st, e, env, keep, name, direct(st, e, env, name)).1.env),
        holds(t, begin(st, e, env, keep, name, direct(st, e, env, name)).1.x) == Some(v),
        keeps(s, t, keep),
    decreases e, 3nat,
{
    let (st1, b) = lemma_begun(st, e, env, keep, name);
    let inner = expr(st2, e, seq![b.kk] + b.outer, b.kk);
    lemma_quiet(st2, e, seq![b.kk] + b.outer, b.kk);
    lemma_ended(st2, st2, b, body, inner);
    lemma_quiet_on(st, st1, st2);
    reveal(begin);
    reveal(started);
    reveal(waiting);
    reveal(ended);
    reveal(answered);
    if simple(e, env) {
        lemma_flat(e, env);
        let t = lemma_direct(w, st, e, env, name, rho, v, s, body);
        assert forall|n: Name| #[trigger] keep.contains(n) implies holds(t, n) == holds(s, n) by {
            assert(env.contains(n));
        }
        t
    } else {
        let st0 = st.fresh_ref().framed(st.next_name);
        lemma_typed(st0, type_of(st0, e));
        let vs = lemma_values(s, keep);
        let method = BlockV { params: b.env, body };
        let (s1, methods) = lemma_run_new(w, s, b.kk, keep, method, env, inner.1, vs);
        let obj = ValueV::Obj(vs, methods);
        lemma_front(b.kk, env);
        let env1 = seq![b.kk] + env;
        lemma_in_env(w, st, e, env, rho, s);
        assert forall|y: Var| #[trigger] binds(e, y) implies binds(e, y) && !env1.contains(y) by {
            assert(spare(st, env, y));
        }
        lemma_ready(w, st, e, env, rho, s, e, st2, env1, s1);
        lowering_keeps_meaning(w, st2, e, env1, b.kk, rho, v, obj, s1);
        let t0 = choose|u: S| #[trigger] reach(w, s1, u) && answering(w, u, obj, v);
        let t = lemma_run_answered(w, t0, vs, methods, v);
        lemma_reach_then(w, s, s1, t0);
        lemma_reach_then(w, s, t0, t);
        lemma_picked(s, t, keep, vs, b.x, v);
        t
    }
}

/// Some started terms, run left to right: their values are bound, and what is still to be
/// looked at is held.
#[verifier::spinoff_prover]
pub proof fn lemma_all(
    w: World,
    st: St,
    es: Seq<Term>,
    n: nat,
    env: Seq<Name>,
    base: Set<Name>,
    bs: Seq<BoundV>,
    st2: St,
    body: StmtV,
    rho: Map<Var, ValueV>,
    vs: Seq<ValueV>,
    s: S,
) -> (t: S)
    requires
        n <= es.len(),
        forall|i: int| 0 <= i < es.len() ==> pure(#[trigger] es[i]),
        ready_all(w, st, es, env, rho, s),
        all_mean(w, es, n, rho) == Some(vs),
        bs.len() >= n,
        start_all(st, es, n, env, base).bs == bs.take(n as int),
        quiet(start_all(st, es, n, env, base).st, st2),
        finish_all(st2, es, n, bs, body).0.next_name < LAST,
        at(w, s, finish_all(st2, es, n, bs, body).1, env),
    ensures
        reach(w, s, t),
        at(w, t, body, start_all(st, es, n, env, base).env),
        all_hold(t, start_all(st, es, n, env, base).done, vs),
        forall|m: Name| env.contains(m) && #[trigger] base.contains(m) ==> holds(t, m) == holds(s, m),
        forall|i: int, m: Name|
            n <= i < es.len() && #[trigger] mentions(es[i], m) ==> holds(t, m) == holds(s, m),
    decreases es, n,
{
    if n == 0 {
        lemma_reach_now(w, s);
        s
    } else {
        let k = (n - 1) as nat;
        let a = start_all(st, es, k, env, base);
        let x = es[n - 1];
        assert(decreases_to!(es => x));
        let want = base.union(a.done.to_set()).union(wants_all(a.st, es.skip(n as int), Seq::empty()));
        let keep = restricted(a.env, want);
        let (st1, b) = lemma_begun(a.st, x, a.env, keep, None);
        lemma_start_all(st, es, k, env, base);
        assert(bs.take(n as int) == a.bs.push(b));
        assert(bs[n - 1] == bs.take(n as int)[n - 1]);
        assert(bs[n - 1] == b);
        assert(bs.take(k as int) =~= bs.take(n as int).drop_last());
        assert(a.bs.push(b).drop_last() =~= a.bs);
        let inner = expr(st2, x, seq![b.kk] + b.outer, b.kk);
        let (st3, rest) = ended(st2, b, body, inner);
        lemma_quiet(st2, x, seq![b.kk] + b.outer, b.kk);
        lemma_quiet_on(a.st, st1, st2);
        lemma_ended(a.st, st2, b, body, inner);
        lemma_finish_all(st3, es, k, bs, rest);
        let us = all_mean(w, es, k, rho)->0;
        let u = means(w, x, rho)->0;
        let t0 = lemma_all(w, st, es, k, env, base, bs, st3, rest, rho, us, s);
        lemma_start_all_env(st, es, k, env, base);
        lemma_ready_item(w, st, es, env, rho, s, k, a.st, a.env, t0);
        assert forall|m: Name| #[trigger] keep.contains(m) implies a.env.contains(m) by {
            lemma_restricted(a.env, want, m);
        }
        let t = lemma_bound(w, a.st, x, a.env, keep, None, st2, body, rho, u, t0);
        lemma_reach_then(w, s, t0, t);
        let done = a.done.push(b.x);
        assert forall|i: int| 0 <= i < done.len() implies holds(t, #[trigger] done[i]) == Some(vs[i]) by {
            if i < a.done.len() {
                assert(done[i] == a.done[i]);
                assert(holds(t0, a.done[i]) == Some(us[i]));
                lemma_has(t0, a.done[i]);
                assert(a.done.to_set().contains(a.done[i]));
                lemma_restricted(a.env, want, a.done[i]);
                assert(keep.contains(a.done[i]));
            }
        }
        assert forall|m: Name| env.contains(m) && #[trigger] base.contains(m) implies holds(t, m) == holds(s, m) by {
            assert(holds(t0, m) == holds(s, m));
            lemma_has(s, m);
            lemma_has(t0, m);
            lemma_restricted(a.env, want, m);
            assert(keep.contains(m));
        }
        assert forall|i: int, m: Name| n <= i < es.len() && #[trigger] mentions(es[i], m) implies holds(t, m) == holds(
            s,
            m,
        ) by {
            assert(holds(t0, m) == holds(s, m));
            assert(known(st, rho, s, m));
            lemma_has(t0, m);
            lemma_uses(a.st, es[i], Seq::empty(), m);
            let later = es.skip(n as int);
            assert(later[i - n] == es[i]);
            assert(wants(a.st, later[i - n], Seq::empty()).contains(m));
            assert(wants_all(a.st, later, Seq::empty()).contains(m));
            lemma_restricted(a.env, want, m);
            assert(keep.contains(m));
        }
        t
    }
}

/// An operation, and its value answered.
proof fn lemma_answer_op(
    w: World,
    s: S,
    op: ExternV,
    args: Seq<Name>,
    env: Seq<Name>,
    x: Name,
    k: Name,
    vs: Seq<ValueV>,
    v: ValueV,
    kv: ValueV,
)
    requires
        unchecked(w),
        at(
            w,
            s,
            plugged(Seq::empty().push(FrameV::Bind { op, args, params: seq![x] + env }), ret_v(k, x)),
            env,
        ),
        all_hold(s, args, vs),
        op_value(w, op, vs) == Some(v),
        !env.contains(x),
        holds(s, k) == Some(kv),
    ensures
        answers(w, s, kv, v),
{
    let f = FrameV::Bind { op, args, params: seq![x] + env };
    lemma_plugged_push(Seq::empty(), f, ret_v(k, x));
    lemma_plugged_none(filled(f, ret_v(k, x)));
    lemma_has(s, k);
    let t = lemma_run_one(w, s, op, args, x, env, ret_v(k, x), vs, v);
    lemma_run_ret(w, t, k, x, seq![x] + env, kv, v);
    lemma_answers_then(w, s, t, kv, v);
}

/// Data, and it answered.
proof fn lemma_answer_data(
    w: World,
    s: S,
    c: Sym,
    tag: Tag,
    fields: Seq<Name>,
    env: Seq<Name>,
    x: Name,
    k: Name,
    vs: Seq<ValueV>,
    kv: ValueV,
)
    requires
        unchecked(w),
        at(
            w,
            s,
            plugged(Seq::empty().push(FrameV::Build { name: x, tag, ctor: c, fields }), ret_v(k, x)),
            env,
        ),
        all_hold(s, fields, vs),
        !env.contains(x),
        holds(s, k) == Some(kv),
    ensures
        answers(w, s, kv, ValueV::Data(c, tag, vs)),
{
    let f = FrameV::Build { name: x, tag, ctor: c, fields };
    lemma_plugged_push(Seq::empty(), f, ret_v(k, x));
    lemma_plugged_none(filled(f, ret_v(k, x)));
    lemma_has(s, k);
    let t = lemma_run_let(w, s, x, tag, c, fields, env, ret_v(k, x), vs);
    lemma_run_ret(w, t, k, x, seq![x] + env, kv, ValueV::Data(c, tag, vs));
    lemma_answers_then(w, s, t, kv, ValueV::Data(c, tag, vs));
}

/// What some terms left in the environment is taken.
proof fn lemma_taken_all(w: World, st: St, es: Seq<Term>, env: Seq<Name>, rho: Map<Var, ValueV>, s: S, n: nat, st2: St, env2: Seq<Name>)
    requires
        ready_all(w, st, es, env, rho, s),
        quiet(st, st2),
        grown_any(es, n, env, st, env2, st2),
    ensures
        taken(st2, env2),
{
    assert forall|m: Name| #[trigger] env2.contains(m) implies m < st2.next_name by {
        assert(whence_any(es, n, env, st, st2, m));
        if binds_any(es, n, m) {
            let i = choose|i: int| 0 <= i < n && i < es.len() && binds(#[trigger] es[i], m);
            assert(spare(st, env, m));
        }
    }
}

/// An operation on one term.
#[verifier::spinoff_prover]
proof fn lemma_unary(
    w: World,
    st: St,
    e: Term,
    env: Seq<Name>,
    k: Name,
    op: ExternV,
    ty: Option<Ty>,
    rho: Map<Var, ValueV>,
    u: ValueV,
    v: ValueV,
    kv: ValueV,
    s: S,
)
    requires
        pure(e),
        ready(w, st, e, env, rho, s),
        means(w, e, rho) == Some(u),
        op_value(w, op, seq![u]) == Some(v),
        env.contains(k),
        holds(s, k) == Some(kv),
        ({
            let (st1, b) = begin(st, e, env, restricted(env, set![k]), None, direct(st, e, env, None));
            let p = produced(st1, Seq::empty(), op, seq![b.x], b.env, ty, None);
            let r = ended(p.st, b, plugged(p.frames, ret_v(k, p.x)), expr(p.st, e, seq![b.kk] + b.outer, b.kk));
            r.0.next_name < LAST && at(w, s, r.1, env)
        }),
    ensures
        answers(w, s, kv, v),
    decreases e, 4nat,
{
    let keep = restricted(env, set![k]);
    lemma_restricted(env, set![k], k);
    assert forall|m: Name| #[trigger] keep.contains(m) implies env.contains(m) by {
        lemma_restricted(env, set![k], m);
    }
    let (st1, b) = lemma_begun(st, e, env, keep, None);
    let p = lemma_produced_at(st1, Seq::empty(), op, seq![b.x], b.env, ty, None);
    let body = plugged(p.frames, ret_v(k, p.x));
    lemma_quiet(p.st, e, seq![b.kk] + b.outer, b.kk);
    lemma_ended(st1, p.st, b, body, expr(p.st, e, seq![b.kk] + b.outer, b.kk));
    lemma_begun_env(st, e, env, keep, None);
    lemma_taken(w, st, e, env, rho, s, None, st1, b.env);
    let t = lemma_bound(w, st, e, env, keep, None, p.st, body, rho, u, s);
    assert(keep.contains(k));
    assert(all_hold(t, seq![b.x], seq![u]));
    lemma_answer_op(w, t, op, seq![b.x], b.env, p.x, k, seq![u], v, kv);
    lemma_answers_then(w, s, t, kv, v);
}

/// An operation on some terms.
#[verifier::spinoff_prover]
proof fn lemma_list_op(
    w: World,
    st: St,
    es: Seq<Term>,
    env: Seq<Name>,
    k: Name,
    op: ExternV,
    ty: Option<Ty>,
    rho: Map<Var, ValueV>,
    vs: Seq<ValueV>,
    v: ValueV,
    kv: ValueV,
    s: S,
)
    requires
        forall|i: int| 0 <= i < es.len() ==> pure(#[trigger] es[i]),
        ready_all(w, st, es, env, rho, s),
        all_mean(w, es, es.len(), rho) == Some(vs),
        op_value(w, op, vs) == Some(v),
        env.contains(k),
        holds(s, k) == Some(kv),
        ({
            let a = start_all(st, es, es.len(), env, set![k]);
            let p = produced(a.st, Seq::empty(), op, a.done, a.env, ty, None);
            let r = finish_all(p.st, es, es.len(), a.bs, plugged(p.frames, ret_v(k, p.x)));
            r.0.next_name < LAST && at(w, s, r.1, env)
        }),
    ensures
        answers(w, s, kv, v),
    decreases es, es.len() + 1,
{
    let n = es.len();
    let a = start_all(st, es, n, env, set![k]);
    let p = lemma_produced_at(a.st, Seq::empty(), op, a.done, a.env, ty, None);
    let body = plugged(p.frames, ret_v(k, p.x));
    lemma_start_all(st, es, n, env, set![k]);
    lemma_finish_all(p.st, es, n, a.bs, body);
    lemma_start_all_env(st, es, n, env, set![k]);
    lemma_taken_all(w, st, es, env, rho, s, n, a.st, a.env);
    assert(a.bs.take(n as int) =~= a.bs);
    let t = lemma_all(w, st, es, n, env, set![k], a.bs, p.st, body, rho, vs, s);
    assert(set![k].contains(k));
    lemma_answer_op(w, t, op, a.done, a.env, p.x, k, vs, v, kv);
    lemma_answers_then(w, s, t, kv, v);
}

/// Data made of some terms.
#[verifier::spinoff_prover]
proof fn lemma_list_data(
    w: World,
    st: St,
    es: Seq<Term>,
    env: Seq<Name>,
    k: Name,
    c: Sym,
    tag: Tag,
    ty: Option<Ty>,
    rho: Map<Var, ValueV>,
    vs: Seq<ValueV>,
    kv: ValueV,
    s: S,
)
    requires
        forall|i: int| 0 <= i < es.len() ==> pure(#[trigger] es[i]),
        ready_all(w, st, es, env, rho, s),
        all_mean(w, es, es.len(), rho) == Some(vs),
        env.contains(k),
        holds(s, k) == Some(kv),
        ({
            let a = start_all(st, es, es.len(), env, set![k]);
            let p = built(a.st, Seq::empty(), c, tag, a.done, a.env, ty, None);
            let r = finish_all(p.st, es, es.len(), a.bs, plugged(p.frames, ret_v(k, p.x)));
            r.0.next_name < LAST && at(w, s, r.1, env)
        }),
    ensures
        answers(w, s, kv, ValueV::Data(c, tag, vs)),
    decreases es, es.len() + 1,
{
    let n = es.len();
    let a = start_all(st, es, n, env, set![k]);
    let p = lemma_built_at(a.st, Seq::empty(), c, tag, a.done, a.env, ty, None);
    let body = plugged(p.frames, ret_v(k, p.x));
    lemma_start_all(st, es, n, env, set![k]);
    lemma_finish_all(p.st, es, n, a.bs, body);
    lemma_start_all_env(st, es, n, env, set![k]);
    lemma_taken_all(w, st, es, env, rho, s, n, a.st, a.env);
    assert(a.bs.take(n as int) =~= a.bs);
    let t = lemma_all(w, st, es, n, env, set![k], a.bs, p.st, body, rho, vs, s);
    assert(set![k].contains(k));
    lemma_answer_data(w, t, c, tag, a.done, a.env, p.x, k, vs, kv);
    lemma_answers_then(w, s, t, kv, ValueV::Data(c, tag, vs));
}

/// `let`: the body, with the variable bound.
#[verifier::spinoff_prover]
proof fn lemma_let(
    w: World,
    st: St,
    e: Term,
    env: Seq<Name>,
    k: Name,
    rho: Map<Var, ValueV>,
    v: ValueV,
    kv: ValueV,
    s: S,
)
    requires
        pure(e),
        e is Let,
        ready(w, st, e, env, rho, s),
        means(w, e, rho) == Some(v),
        env.contains(k),
        holds(s, k) == Some(kv),
        lower_let(st, e, env, k).0.next_name < LAST,
        at(w, s, lower_let(st, e, env, k).1, env),
    ensures
        answers(w, s, kv, v),
    decreases e, 1nat,
{
    if let Term::Let(x, _, rhs, inner) = e {
        let want = wants(st, *inner, seq![x]).insert(k);
        let keep = restricted(env, want);
        assert forall|m: Name| #[trigger] keep.contains(m) implies env.contains(m) by {
            lemma_restricted(env, want, m);
        }
        let (st1, b) = lemma_begun(st, *rhs, env, keep, Some(x));
        let (st2, body) = expr(st1, *inner, b.env, k);
        lemma_quiet(st1, *inner, b.env, k);
        lemma_quiet(st2, *rhs, seq![b.kk] + b.outer, b.kk);
        lemma_ended(st1, st2, b, body, expr(st2, *rhs, seq![b.kk] + b.outer, b.kk));
        lemma_begun_env(st, *rhs, env, keep, Some(x));
        lemma_ready_now(w, st, e, env, rho, s, *rhs);
        lemma_in_env(w, st, e, env, rho, s);
        assert(binds(e, x));
        assert(spare(st, env, x));
        lemma_taken(w, st, *rhs, env, rho, s, Some(x), st1, b.env);
        let u = means(w, *rhs, rho)->0;
        let t = lemma_bound(w, st, *rhs, env, keep, Some(x), st2, body, rho, u, s);
        assert forall|y: Var| #[trigger] mentions(*inner, y) && y != x implies holds(t, y) == holds(s, y) by {
            assert(mentions(e, y));
            assert(known(st, rho, s, y));
            lemma_uses(st, *inner, seq![x], y);
            lemma_restricted(env, want, y);
            assert(keep.contains(y));
        }
        lemma_ready_body(w, st, e, env, rho, s, u, st1, b.env, t);
        lemma_restricted(env, want, k);
        assert(keep.contains(k));
        lowering_keeps_meaning(w, st1, *inner, b.env, k, rho.insert(x, u), v, kv, t);
        lemma_answers_then(w, s, t, kv, v);
    }
}

/// Where the parts of an `if` are lowered, if its condition is computed in place.
pub open spec fn inside(st: St, e: Term, env: Seq<Name>) -> (St, Seq<Name>) {
    match e {
        Term::If(c, _, _) => match *c {
            Term::Prim(p, xs, _) => if p.is_comparison() {
                match const_arg(p, xs@) {
                    Some((i, _)) => {
                        let d = direct(st, xs@[if i == 0 { 0 } else { 1 }], env, None);
                        (d.st, d.env)
                    },
                    None => {
                        let d = direct_all(st, xs@, xs@.len(), env);
                        (d.st, d.env)
                    },
                }
            } else {
                let d = direct(st, *c, env, None);
                (d.st, d.env)
            },
            _ => {
                let d = direct(st, *c, env, None);
                (d.st, d.env)
            },
        },
        _ => (st, env),
    }
}

/// The statement of the part of an `if` that a condition says.
pub open spec fn part(e: Term, b: bool, st: St, env: Seq<Name>, k: Name) -> StmtV {
    match e {
        Term::If(_, t, f) => if b {
            expr(st, *t, env, k).1
        } else {
            expr(expr(st, *t, env, k).0, *f, env, k).1
        },
        _ => arbitrary(),
    }
}

/// An `if` whose condition is computed in place goes to what its first part was lowered to
/// where the condition comes to true, and to what its second part was lowered to where it
/// comes to false, whatever these parts are; and everything in scope is as it was.
#[verifier::spinoff_prover]
#[verifier::rlimit(40)]
pub proof fn an_if_goes_to_the_part_its_condition_says(
    w: World,
    st: St,
    e: Term,
    env: Seq<Name>,
    k: Name,
    rho: Map<Var, ValueV>,
    b: bool,
    s: S,
) -> (t: S)
    requires
        e is If,
        pure(*e->If_0),
        simple(*e->If_0, env),
        ready(w, st, *e->If_0, env, rho, s),
        means(w, *e->If_0, rho) == Some(ValueV::Bool(b)),
        inside(st, e, env).0.next_name < LAST,
        at(w, s, lower_if(st, e, env, k).1, env),
    ensures
        reach(w, s, t),
        at(w, t, part(e, b, inside(st, e, env).0, inside(st, e, env).1, k), inside(st, e, env).1),
        keeps(s, t, env),
        quiet(st, inside(st, e, env).0),
        kept(env, inside(st, e, env).1),
        grown(*e->If_0, None, env, st, inside(st, e, env).1, inside(st, e, env).0),
{
    let c = *e->If_0;
    let at1 = inside(st, e, env).0;
    let env1 = inside(st, e, env).1;
    let yes = part(e, true, at1, env1, k);
    let no = part(e, false, at1, env1, k);
    lemma_flat(c, env);
    let v = ValueV::Bool(b);
    match c {
        Term::Prim(p, xs, _) if p.is_comparison() => {
            match const_arg(p, xs@) {
                Some((i, l)) => {
                    let j = if i == 0 {
                        0int
                    } else {
                        1int
                    };
                    let x = xs@[j];
                    assert(flat(x));
                    let u = lemma_const(w, c, p, xs@, i, l, rho, v);
                    assert(neat_all(w, xs@));
                    assert(neat(w, xs@[j]));
                    lemma_ready_now(w, st, c, env, rho, s, x);
                    let d = lemma_place(st, x, env, None);
                    assert forall|n: Name| #[trigger] d.env.contains(n) implies whence(c, None, env, st, d.st, n) by {
                        assert(whence(x, None, env, st, d.st, n));
                    }
                    let test = two_v(ExternV::BranchPrimK(p, l), seq![d.x], d.env, no, yes);
                    let t0 = lemma_direct(w, st, x, env, None, rho, u, s, test);
                    assert(all_hold(t0, seq![d.x], seq![u]));
                    let t = lemma_run_two(w, t0, ExternV::BranchPrimK(p, l), seq![d.x], d.env, no, yes, seq![u], b);
                    lemma_reach_then(w, s, t0, t);
                    lemma_kept_on(s, t0, t, env, d.env);
                    t
                },
                None => {
                    let vs = all_mean(w, xs@, xs@.len(), rho)->0;
                    lemma_still(st);
                    lemma_ready_list(w, st, c, env, rho, s, xs@, st);
                    lemma_place_all(st, xs@, xs@.len(), env);
                    let d = direct_all(st, xs@, xs@.len(), env);
                    lemma_any(c, xs@, env, st, d.env, d.st);
                    let test = two_v(ExternV::BranchPrim(p), d.done, d.env, no, yes);
                    let t0 = lemma_direct_all(w, st, xs@, xs@.len(), env, rho, vs, s, test);
                    let t = lemma_run_two(w, t0, ExternV::BranchPrim(p), d.done, d.env, no, yes, vs, b);
                    lemma_reach_then(w, s, t0, t);
                    lemma_kept_on(s, t0, t, env, d.env);
                    t
                },
            }
        },
        _ => {
            assert(lower_if(st, e, env, k) == lower_branch(st, e, env, k));
            reveal(begin);
            reveal(started);
            reveal(ended);
            let d = lemma_place(st, c, env, None);
            let test = two_v(ExternV::Branch, seq![d.x], d.env, no, yes);
            let t0 = lemma_direct(w, st, c, env, None, rho, v, s, test);
            assert(all_hold(t0, seq![d.x], seq![v]));
            let t = lemma_run_two(w, t0, ExternV::Branch, seq![d.x], d.env, no, yes, seq![v], b);
            lemma_reach_then(w, s, t0, t);
            lemma_kept_on(s, t0, t, env, d.env);
            t
        },
    }
}

/// The part of an `if` that its condition says answers what the `if` comes to.
#[verifier::spinoff_prover]
proof fn lemma_part(
    w: World,
    st: St,
    e: Term,
    env: Seq<Name>,
    k: Name,
    rho: Map<Var, ValueV>,
    v: ValueV,
    kv: ValueV,
    s: S,
    b: bool,
    st1: St,
    env1: Seq<Name>,
    t: S,
)
    requires
        pure(e),
        e is If,
        ready(w, st, e, env, rho, s),
        means(w, *e->If_0, rho) == Some(ValueV::Bool(b)),
        means(w, e, rho) == Some(v),
        quiet(st, st1),
        grown(*e->If_0, None, env, st, env1, st1),
        at(w, t, part(e, b, st1, env1, k), env1),
        expr(expr(st1, *e->If_1, env1, k).0, *e->If_2, env1, k).0.next_name < LAST,
        env1.contains(k),
        holds(t, k) == Some(kv),
        forall|y: Var| #[trigger] mentions(*e->If_1, y) ==> holds(t, y) == holds(s, y),
        forall|y: Var| #[trigger] mentions(*e->If_2, y) ==> holds(t, y) == holds(s, y),
    ensures
        answers(w, t, kv, v),
    decreases e, 0nat,
{
    if let Term::If(c, yes, no) = e {
        let st2 = expr(st1, *yes, env1, k).0;
        lemma_quiet(st1, *yes, env1, k);
        lemma_quiet(st2, *no, env1, k);
        lemma_quiet_on(st, st1, st2);
        assert forall|n: Name| #[trigger] env1.contains(n) implies n < st1.next_name by {
            assert(whence(*c, None, env, st, st1, n));
            if binds(*c, n) {
                assert(binds(e, n));
                assert(spare(st, env, n));
            }
        }
        if b {
            assert forall|y: Var| #[trigger] binds(*yes, y) implies binds(e, y) && !env1.contains(y) by {
                assert(binds(e, y));
                assert(spare(st, env, y));
                if env1.contains(y) {
                    assert(whence(*c, None, env, st, st1, y));
                    assert(binds(*c, y));
                }
            }
            lemma_ready(w, st, e, env, rho, s, *yes, st1, env1, t);
            lowering_keeps_meaning(w, st1, *yes, env1, k, rho, v, kv, t);
        } else {
            assert forall|y: Var| #[trigger] binds(*no, y) implies binds(e, y) && !env1.contains(y) by {
                assert(binds(e, y));
                assert(spare(st, env, y));
                if env1.contains(y) {
                    assert(whence(*c, None, env, st, st1, y));
                    assert(binds(*c, y));
                }
            }
            lemma_ready(w, st, e, env, rho, s, *no, st2, env1, t);
            lowering_keeps_meaning(w, st2, *no, env1, k, rho, v, kv, t);
        }
    }
}

/// `if`: the part its condition says.
#[verifier::spinoff_prover]
#[verifier::rlimit(40)]
proof fn lemma_if(
    w: World,
    st: St,
    e: Term,
    env: Seq<Name>,
    k: Name,
    rho: Map<Var, ValueV>,
    v: ValueV,
    kv: ValueV,
    s: S,
)
    requires
        pure(e),
        e is If,
        ready(w, st, e, env, rho, s),
        means(w, e, rho) == Some(v),
        env.contains(k),
        holds(s, k) == Some(kv),
        lower_if(st, e, env, k).0.next_name < LAST,
        at(w, s, lower_if(st, e, env, k).1, env),
    ensures
        answers(w, s, kv, v),
    decreases e, 1nat,
{
    if let Term::If(c, yes, no) = e {
        let bv = means(w, *c, rho)->0;
        let b = bv->Bool_0;
        lemma_ready_now(w, st, e, env, rho, s, *c);
        lemma_in_env(w, st, e, env, rho, s);
        if simple(*c, env) {
            let (st1, env1) = inside(st, e, env);
            lemma_inside(st, e, env, k);
            let t = an_if_goes_to_the_part_its_condition_says(w, st, e, env, k, rho, b, s);
            assert forall|y: Var| #[trigger] mentions(*yes, y) implies holds(t, y) == holds(s, y) by {
                assert(mentions(e, y));
                assert(env.contains(y));
            }
            assert forall|y: Var| #[trigger] mentions(*no, y) implies holds(t, y) == holds(s, y) by {
                assert(mentions(e, y));
                assert(env.contains(y));
            }
            lemma_part(w, st, e, env, k, rho, v, kv, s, b, st1, env1, t);
            lemma_answers_then(w, s, t, kv, v);
        } else {
            assert(lower_if(st, e, env, k) == lower_branch(st, e, env, k));
            let want = wants(st, *yes, Seq::empty()).union(wants(st, *no, Seq::empty())).insert(k);
            let keep = restricted(env, want);
            assert forall|m: Name| #[trigger] keep.contains(m) implies env.contains(m) by {
                lemma_restricted(env, want, m);
            }
            let (st1, x) = lemma_begun(st, *c, env, keep, None);
            let ys = expr(st1, *yes, x.env, k);
            let ns = expr(ys.0, *no, x.env, k);
            lemma_quiet(st1, *yes, x.env, k);
            lemma_quiet(ys.0, *no, x.env, k);
            lemma_quiet_on(st1, ys.0, ns.0);
            let test = two_v(ExternV::Branch, seq![x.x], x.env, ns.1, ys.1);
            lemma_quiet(ns.0, *c, seq![x.kk] + x.outer, x.kk);
            lemma_ended(st1, ns.0, x, test, expr(ns.0, *c, seq![x.kk] + x.outer, x.kk));
            lemma_begun_env(st, *c, env, keep, None);
            let t0 = lemma_bound(w, st, *c, env, keep, None, ns.0, test, rho, bv, s);
            assert(all_hold(t0, seq![x.x], seq![bv]));
            let t = lemma_run_two(w, t0, ExternV::Branch, seq![x.x], x.env, ns.1, ys.1, seq![bv], b);
            lemma_reach_then(w, s, t0, t);
            assert forall|y: Name| #[trigger] keep.contains(y) implies holds(t, y) == holds(s, y) by {
                assert(x.env.contains(y));
            }
            assert forall|y: Var| #[trigger] mentions(*yes, y) implies holds(t, y) == holds(s, y) by {
                assert(mentions(e, y));
                assert(known(st, rho, s, y));
                lemma_uses(st, *yes, Seq::empty(), y);
                lemma_restricted(env, want, y);
                assert(keep.contains(y));
            }
            assert forall|y: Var| #[trigger] mentions(*no, y) implies holds(t, y) == holds(s, y) by {
                assert(mentions(e, y));
                assert(known(st, rho, s, y));
                lemma_uses(st, *no, Seq::empty(), y);
                lemma_restricted(env, want, y);
                assert(keep.contains(y));
            }
            lemma_restricted(env, want, k);
            assert(keep.contains(k));
            lemma_part(w, st, e, env, k, rho, v, kv, s, b, st1, x.env, t);
            lemma_answers_then(w, s, t, kv, v);
        }
    }
}

/// The parts of an `if` whose condition is computed in place are lowered behind it.
proof fn lemma_inside(st: St, e: Term, env: Seq<Name>, k: Name)
    requires
        pure(e),
        e is If,
        simple(*e->If_0, env),
    ensures
        ({
            let (st1, env1) = inside(st, e, env);
            lower_if(st, e, env, k).0 == expr(expr(st1, *e->If_1, env1, k).0, *e->If_2, env1, k).0
        }),
        ({
            let (st1, env1) = inside(st, e, env);
            quiet(st1, lower_if(st, e, env, k).0)
        }),
{
    if let Term::If(c, yes, no) = e {
        let (st1, env1) = inside(st, e, env);
        lemma_quiet(st1, *yes, env1, k);
        let st2 = expr(st1, *yes, env1, k).0;
        lemma_quiet(st2, *no, env1, k);
        lemma_quiet_on(st1, st2, expr(st2, *no, env1, k).0);
        let plain = lower_branch(st, e, env, k);
        reveal(begin);
        reveal(started);
        reveal(ended);
    }
}

/// Lowering keeps meaning: a statement that a term which calls nothing was lowered to, run
/// where the term's variables are held, comes to answer its continuation with the value the
/// term comes to.
#[verifier::spinoff_prover]
#[verifier::rlimit(40)]
pub proof fn lowering_keeps_meaning(
    w: World,
    st: St,
    e: Term,
    env: Seq<Name>,
    k: Name,
    rho: Map<Var, ValueV>,
    v: ValueV,
    kv: ValueV,
    s: S,
)
    requires
        pure(e),
        ready(w, st, e, env, rho, s),
        means(w, e, rho) == Some(v),
        env.contains(k),
        holds(s, k) == Some(kv),
        expr(st, e, env, k).0.next_name < LAST,
        at(w, s, expr(st, e, env, k).1, env),
    ensures
        answers(w, s, kv, v),
    decreases e, 2nat,
{
    lemma_lowered(st, e, env, k);
    let st0 = st.answering(k);
    assert(ready(w, st0, e, env, rho, s)) by {
        assert forall|y: Var| #[trigger] binds(e, y) implies spare(st0, env, y) by {
            assert(spare(st, env, y));
        }
        assert forall|y: Var| #[trigger] mentions(e, y) implies known(st0, rho, s, y) by {
            assert(known(st, rho, s, y));
        }
    }
    match e {
        Term::Loc(loc, inner) => {
            let body = expr(st0, *inner, env, k).1;
            let s1 = lemma_run_mark(w, s, loc, body, env);
            lemma_in_env(w, st, e, env, rho, s);
            lemma_still(st0);
            assert forall|y: Var| #[trigger] binds(*inner, y) implies binds(e, y) && !env.contains(y) by {
                assert(binds(e, y));
                assert(spare(st0, env, y));
            }
            lemma_ready(w, st0, e, env, rho, s, *inner, st0, env, s1);
            lowering_keeps_meaning(w, st0, *inner, env, k, rho, v, kv, s1);
            lemma_answers_then(w, s, s1, kv, v);
        },
        Term::Var(x) => {
            assert(mentions(e, x));
            assert(known(st, rho, s, x));
            lemma_has(s, x);
            lemma_run_ret(w, s, k, x, env, kv, v);
        },
        Term::Lit(l) => {
            let p = lemma_produced_at(st0, Seq::empty(), ExternV::Lit(l), Seq::empty(), env, Some(type_of_lit(l)), None);
            lemma_answer_op(w, s, ExternV::Lit(l), Seq::empty(), env, p.x, k, Seq::empty(), v, kv);
        },
        Term::Let(_, _, _, _) => lemma_let(w, st0, e, env, k, rho, v, kv, s),
        Term::If(_, _, _) => lemma_if(w, st0, e, env, k, rho, v, kv, s),
        Term::Prim(f, xs, ty) => {
            assert(decreases_to!(e => xs@));
            match const_arg(f, xs@) {
                Some((i, l)) => {
                    let j = if i == 0 {
                        0int
                    } else {
                        1int
                    };
                    let x = xs@[j];
                    assert(decreases_to!(xs@ => x));
                    assert(pure(x));
                    let u = lemma_const(w, e, f, xs@, i, l, rho, v);
                    assert(neat_all(w, xs@));
                    assert(neat(w, xs@[j]));
                    lemma_ready_now(w, st0, e, env, rho, s, x);
                    lemma_unary(w, st0, x, env, k, ExternV::PrimK(f, l), Some(ty), rho, u, v, kv, s);
                },
                None => {
                    let vs = all_mean(w, xs@, xs@.len(), rho)->0;
                    lemma_still(st0);
                    lemma_ready_list(w, st0, e, env, rho, s, xs@, st0);
                    lemma_list_op(w, st0, xs@, env, k, ExternV::Prim(f), Some(ty), rho, vs, v, kv, s);
                },
            }
        },
        Term::Ctor(c, ty, xs) => {
            assert(decreases_to!(e => xs@));
            let vs = all_mean(w, xs@, xs@.len(), rho)->0;
            assert(w.tags.contains_key(c));
            assert(st0.tags.contains_key(c) && st0.tagged(c) == st0);
            lemma_still(st0);
            lemma_ready_list(w, st0, e, env, rho, s, xs@, st0);
            lemma_list_data(w, st0, xs@, env, k, c, st0.tag(c), Some(ty), rho, vs, kv, s);
        },
        Term::Tuple(xs) => {
            assert(decreases_to!(e => xs@));
            let vs = all_mean(w, xs@, xs@.len(), rho)->0;
            let c = symbol::TUPLE;
            assert(w.tags.contains_key(c));
            assert(st0.tags.contains_key(c) && st0.tagged(c) == st0);
            lemma_still(st0);
            lemma_ready_list(w, st0, e, env, rho, s, xs@, st0);
            lemma_list_data(w, st0, xs@, env, k, c, st0.tag(c), type_of(st0, e), rho, vs, kv, s);
        },
        Term::Array(xs, _) => {
            assert(decreases_to!(e => xs@));
            let vs = all_mean(w, xs@, xs@.len(), rho)->0;
            lemma_still(st0);
            lemma_ready_list(w, st0, e, env, rho, s, xs@, st0);
            lemma_list_op(w, st0, xs@, env, k, ExternV::Array, type_of(st0, e), rho, vs, v, kv, s);
        },
        Term::Proj(t, i) => {
            let u = means(w, *t, rho)->0;
            lemma_ready_now(w, st0, e, env, rho, s, *t);
            lemma_unary(w, st0, *t, env, k, ExternV::Field(i), type_of(st0, e), rho, u, v, kv, s);
        },
        _ => {},
    }
}

/// What a comparison of an integer with a literal comes to.
proof fn lemma_compared(w: World, e: Term, rho: Map<Var, ValueV>, x: i64, n: i64)
    requires
        e matches Term::Prim(f, xs, _) && xs@.len() == 2 && xs@[1] == Term::Lit(Lit::Int(n)) && means(w, xs@[0], rho)
            == Some(ValueV::Int(x)) && compares(f, x as int, n as int) is Some,
    ensures
        e matches Term::Prim(f, _, _) && means(w, e, rho) == Some(ValueV::Bool(compares(f, x as int, n as int)->0)),
{
    if let Term::Prim(f, xs, _) = e {
        reveal_with_fuel(all_mean, 3);
        let vs = all_mean(w, xs@, 2, rho)->0;
        assert(means(w, xs@[1], rho) == Some(ValueV::Int(n)));
        assert(vs =~= seq![ValueV::Int(x), ValueV::Int(n)]);
        reveal(prim_value);
        a_comparison_answers_whether_it_holds(f, x, n, w.cx());
    }
}

/// An `if` that compares an integer with a literal answers what its first part comes to
/// exactly where the comparison holds of the integer, and what its second part comes to
/// where it does not.
pub proof fn a_comparison_with_a_literal_chooses_its_part(
    w: World,
    st: St,
    f: Prim,
    operand: Term,
    n: i64,
    e: Term,
    env: Seq<Name>,
    k: Name,
    rho: Map<Var, ValueV>,
    x: i64,
    yes: ValueV,
    no: ValueV,
    kv: ValueV,
    s: S,
)
    requires
        e matches Term::If(c, _, _) && (*c matches Term::Prim(g, xs, _) && g == f && xs@ == seq![
            operand,
            Term::Lit(Lit::Int(n)),
        ]),
        compares(f, x as int, n as int) is Some,
        pure(e),
        ready(w, st, e, env, rho, s),
        means(w, operand, rho) == Some(ValueV::Int(x)),
        means(w, *e->If_1, rho) == Some(yes),
        means(w, *e->If_2, rho) == Some(no),
        env.contains(k),
        holds(s, k) == Some(kv),
        expr(st, e, env, k).0.next_name < LAST,
        at(w, s, expr(st, e, env, k).1, env),
    ensures
        compares(f, x as int, n as int)->0 ==> answers(w, s, kv, yes),
        !(compares(f, x as int, n as int)->0) ==> answers(w, s, kv, no),
{
    let c = *e->If_0;
    let xs = c->Prim_1;
    assert(xs@[0] == operand && xs@[1] == Term::Lit(Lit::Int(n)));
    lemma_compared(w, c, rho, x, n);
    if compares(f, x as int, n as int)->0 {
        lowering_keeps_meaning(w, st, e, env, k, rho, yes, kv, s);
    } else {
        lowering_keeps_meaning(w, st, e, env, k, rho, no, kv, s);
    }
}

} // verus!
