//! Lowering a term that calls nothing takes names, and leaves everything else it knows as
//! it was.

use super::frame::{plugged, PreV};
use super::live::{restricted, wants, wants_all};
use super::mean::{binds, flat, pure};
use super::mean_place::{
    binds_any, grown, grown_any, kept, lemma_ahead, lemma_ahead_all, lemma_behind, lemma_built_at, lemma_flat,
    lemma_place, lemma_produced_at, whence, whence_any,
};
use super::scheme::{
    begin, direct, direct_all, ended, expr, finish_all, lower_array, lower_branch, lower_ctor, lower_if, lower_let,
    lower_lit, lower_loc, lower_prim, lower_proj, lower_tuple, lower_var, simple, start_all, started, waiting, AllV,
    BoundV,
};
use super::shape::const_arg;
use super::state::St;
use super::stride::{lemma_begin, lemma_quiet_on, lemma_still, lemma_typed, quiet, LAST};
use super::types::type_of;
use super::went::lemma_restricted;
use crate::seq::ir::Name;
use crate::seq::view::{ret_v, two_v, ExternV, StmtV};
use crate::terms::symbol;
use crate::terms::term::Term;
use crate::terms::ty::type_of_lit;
use vstd::prelude::*;

verus! {

/// A term lowered, by what it is.
pub open spec fn lowered(st: St, e: Term, env: Seq<Name>, k: Name) -> (St, StmtV) {
    let st = st.answering(k);
    match e {
        Term::Loc(_, _) => lower_loc(st, e, env, k),
        Term::Var(v) => lower_var(st, v, env, k),
        Term::Lit(l) => lower_lit(st, l, env, k),
        Term::Let(_, _, _, _) => lower_let(st, e, env, k),
        Term::If(_, _, _) => lower_if(st, e, env, k),
        Term::Prim(_, _, _) => lower_prim(st, e, env, k),
        Term::Ctor(_, _, _) => lower_ctor(st, e, env, k),
        Term::Tuple(_) => lower_tuple(st, e, env, k),
        Term::Array(_, _) => lower_array(st, e, env, k),
        Term::Proj(_, _) => lower_proj(st, e, env, k),
        _ => arbitrary(),
    }
}

pub proof fn lemma_lowered(st: St, e: Term, env: Seq<Name>, k: Name)
    requires
        pure(e),
    ensures
        expr(st, e, env, k) == lowered(st, e, env, k),
        quiet(st, st.answering(k)),
{
}

/// A term started takes names.
pub proof fn lemma_begun(st: St, e: Term, env: Seq<Name>, keep: Seq<Name>, name: Option<Name>) -> (r: (St, BoundV))
    requires
        pure(e),
    ensures
        r == begin(st, e, env, keep, name, direct(st, e, env, name)),
        quiet(st, r.0),
        r.1.outer == env,
        r.1.keep == keep,
{
    let p = direct(st, e, env, name);
    let r = begin(st, e, env, keep, name, p);
    lemma_begin(st, e, env, keep, name, p);
    reveal(begin);
    reveal(started);
    reveal(waiting);
    if simple(e, env) {
        lemma_flat(e, env);
        lemma_ahead(st, e, env, name);
    }
    r
}

/// What a started term leaves in the environment.
pub proof fn lemma_begun_env(st: St, e: Term, env: Seq<Name>, keep: Seq<Name>, name: Option<Name>) -> (r: (St, BoundV))
    requires
        pure(e),
        kept(keep, env),
        begin(st, e, env, keep, name, direct(st, e, env, name)).0.next_name < LAST,
    ensures
        r == begin(st, e, env, keep, name, direct(st, e, env, name)),
        quiet(st, r.0),
        r.1.outer == env,
        r.1.keep == keep,
        kept(keep, r.1.env),
        grown(e, name, env, st, r.1.env, r.0),
        name is Some ==> Some(r.1.x) == name,
{
    let r = lemma_begun(st, e, env, keep, name);
    reveal(begin);
    reveal(started);
    reveal(waiting);
    if simple(e, env) {
        lemma_flat(e, env);
        lemma_place(st, e, env, name);
        assert forall|n: Name| #[trigger] keep.contains(n) implies r.1.env.contains(n) by {
            assert(env.contains(n));
        }
    } else {
        let st1 = st.fresh_ref().framed(st.next_name);
        lemma_typed(st1, type_of(st1, e));
        lemma_behind(keep, r.1.x);
        assert forall|n: Name| #[trigger] r.1.env.contains(n) implies whence(e, name, env, st, r.0, n) by {
            if n != r.1.x {
                assert(keep.contains(n));
            }
        }
    }
    r
}

pub proof fn lemma_ended(a: St, st: St, b: BoundV, body: StmtV, r: (St, StmtV))
    requires
        quiet(a, st),
        quiet(st, r.0),
    ensures
        quiet(a, ended(st, b, body, r).0),
        quiet(st, ended(st, b, body, r).0),
{
    reveal(ended);
    lemma_still(st);
    lemma_quiet_on(a, st, r.0);
}

pub proof fn lemma_start_all(st: St, es: Seq<Term>, n: nat, env: Seq<Name>, base: Set<Name>)
    requires
        n <= es.len(),
        forall|i: int| 0 <= i < es.len() ==> pure(#[trigger] es[i]),
    ensures
        quiet(st, start_all(st, es, n, env, base).st),
        start_all(st, es, n, env, base).bs.len() == n,
        start_all(st, es, n, env, base).done.len() == n,
    decreases n,
{
    lemma_still(st);
    if n > 0 {
        lemma_start_all(st, es, (n - 1) as nat, env, base);
        let a = start_all(st, es, (n - 1) as nat, env, base);
        let want = base.union(a.done.to_set()).union(wants_all(a.st, es.skip(n as int), Seq::empty()));
        let r = lemma_begun(a.st, es[n - 1], a.env, restricted(a.env, want), None);
        lemma_quiet_on(st, a.st, r.0);
    }
}

/// What some started terms leave in the environment.
pub proof fn lemma_start_all_env(st: St, es: Seq<Term>, n: nat, env: Seq<Name>, base: Set<Name>)
    requires
        n <= es.len(),
        forall|i: int| 0 <= i < es.len() ==> pure(#[trigger] es[i]),
        start_all(st, es, n, env, base).st.next_name < LAST,
    ensures
        grown_any(es, n, env, st, start_all(st, es, n, env, base).env, start_all(st, es, n, env, base).st),
    decreases n,
{
    if n > 0 {
        let a = start_all(st, es, (n - 1) as nat, env, base);
        let x = es[n - 1];
        let want = base.union(a.done.to_set()).union(wants_all(a.st, es.skip(n as int), Seq::empty()));
        let keep = restricted(a.env, want);
        assert forall|m: Name| #[trigger] keep.contains(m) implies a.env.contains(m) by {
            lemma_restricted(a.env, want, m);
        }
        let r = lemma_begun_env(a.st, x, a.env, keep, None);
        lemma_start_all(st, es, (n - 1) as nat, env, base);
        lemma_start_all_env(st, es, (n - 1) as nat, env, base);
        assert forall|m: Name| #[trigger] r.1.env.contains(m) implies whence_any(es, n, env, st, r.0, m) by {
            assert(whence(x, None, a.env, a.st, r.0, m));
            if a.env.contains(m) {
                assert(whence_any(es, (n - 1) as nat, env, st, a.st, m));
                if binds_any(es, (n - 1) as nat, m) {
                    let i = choose|i: int| 0 <= i < n - 1 && i < es.len() && binds(#[trigger] es[i], m);
                    assert(binds(es[i], m));
                }
            }
        }
    }
}

pub proof fn lemma_finish_all(st: St, es: Seq<Term>, n: nat, bs: Seq<BoundV>, body: StmtV)
    requires
        n <= es.len(),
        forall|i: int| 0 <= i < es.len() ==> pure(#[trigger] es[i]),
    ensures
        quiet(st, finish_all(st, es, n, bs, body).0),
    decreases es, n,
{
    lemma_still(st);
    if n > 0 {
        let b = bs[n - 1];
        let x = es[n - 1];
        assert(decreases_to!(es => x));
        let r = expr(st, x, seq![b.kk] + b.outer, b.kk);
        lemma_expr(st, x, seq![b.kk] + b.outer, b.kk);
        lemma_ended(st, st, b, body, r);
        let (st1, s) = ended(st, b, body, r);
        lemma_finish_all(st1, es, (n - 1) as nat, bs, s);
        lemma_quiet_on(st, st1, finish_all(st1, es, (n - 1) as nat, bs, s).0);
    }
}

/// A started term finished takes names.
proof fn lemma_around(st: St, e: Term, env: Seq<Name>, keep: Seq<Name>, name: Option<Name>, st2: St, body: StmtV)
    requires
        pure(e),
        quiet(begin(st, e, env, keep, name, direct(st, e, env, name)).0, st2),
    ensures
        ({
            let b = begin(st, e, env, keep, name, direct(st, e, env, name)).1;
            quiet(st, ended(st2, b, body, expr(st2, e, seq![b.kk] + b.outer, b.kk)).0)
        }),
    decreases e, 2nat,
{
    let (st1, b) = lemma_begun(st, e, env, keep, name);
    lemma_quiet_on(st, st1, st2);
    lemma_expr(st2, e, seq![b.kk] + b.outer, b.kk);
    lemma_ended(st, st2, b, body, expr(st2, e, seq![b.kk] + b.outer, b.kk));
}

/// Lowering a term that calls nothing takes names and nothing else.
#[verifier::spinoff_prover]
pub proof fn lemma_expr(st: St, e: Term, env: Seq<Name>, k: Name)
    requires
        pure(e),
    ensures
        quiet(st, expr(st, e, env, k).0),
    decreases e, 1nat,
{
    lemma_lowered(st, e, env, k);
    let st0 = st;
    let st = st0.answering(k);
    lemma_still(st);
    match e {
        Term::Loc(_, inner) => {
            lemma_expr(st, *inner, env, k);
        },
        Term::Var(_) => {},
        Term::Lit(l) => {
            lemma_produced_at(st, Seq::empty(), ExternV::Lit(l), Seq::empty(), env, Some(type_of_lit(l)), None);
        },
        Term::Let(x, _, rhs, body) => {
            let keep = restricted(env, wants(st, *body, seq![x]).insert(k));
            let (st1, b) = lemma_begun(st, *rhs, env, keep, Some(x));
            lemma_expr(st1, *body, b.env, k);
            let (st2, s) = expr(st1, *body, b.env, k);
            lemma_around(st, *rhs, env, keep, Some(x), st2, s);
        },
        Term::If(c, t, f) => {
            lemma_if(st, e, env, k);
        },
        Term::Prim(f, xs, ty) => {
            assert(decreases_to!(e => xs@));
            match const_arg(f, xs@) {
                Some((i, l)) => {
                    let x = xs@[if i == 0 { 0 } else { 1 }];
                    assert(decreases_to!(xs@ => x));
                    assert(pure(x));
                    let keep = restricted(env, set![k]);
                    let (st1, b) = lemma_begun(st, x, env, keep, None);
                    let p = lemma_produced_at(st1, Seq::empty(), ExternV::PrimK(f, l), seq![b.x], b.env, Some(ty), None);
                    lemma_around(st, x, env, keep, None, p.st, plugged(p.frames, ret_v(k, p.x)));
                },
                None => {
                    let a = start_all(st, xs@, xs@.len(), env, set![k]);
                    lemma_start_all(st, xs@, xs@.len(), env, set![k]);
                    let p = lemma_produced_at(a.st, Seq::empty(), ExternV::Prim(f), a.done, a.env, Some(ty), None);
                    lemma_rest(st, a, p, xs@, k);
                },
            }
        },
        Term::Ctor(c, ty, xs) => {
            assert(decreases_to!(e => xs@));
            let at = st.tagged(c);
            assert(quiet(st, at));
            let a = start_all(at, xs@, xs@.len(), env, set![k]);
            lemma_start_all(at, xs@, xs@.len(), env, set![k]);
            let p = lemma_built_at(a.st, Seq::empty(), c, st.tag(c), a.done, a.env, Some(ty), None);
            lemma_quiet_on(st, at, a.st);
            lemma_rest(st, a, p, xs@, k);
        },
        Term::Tuple(xs) => {
            assert(decreases_to!(e => xs@));
            let at = st.tagged(symbol::TUPLE);
            assert(quiet(st, at));
            let a = start_all(at, xs@, xs@.len(), env, set![k]);
            lemma_start_all(at, xs@, xs@.len(), env, set![k]);
            let p = lemma_built_at(
                a.st,
                Seq::empty(),
                symbol::TUPLE,
                st.tag(symbol::TUPLE),
                a.done,
                a.env,
                type_of(st, e),
                None,
            );
            lemma_quiet_on(st, at, a.st);
            lemma_rest(st, a, p, xs@, k);
        },
        Term::Array(xs, _) => {
            assert(decreases_to!(e => xs@));
            let a = start_all(st, xs@, xs@.len(), env, set![k]);
            lemma_start_all(st, xs@, xs@.len(), env, set![k]);
            let p = lemma_produced_at(a.st, Seq::empty(), ExternV::Array, a.done, a.env, type_of(st, e), None);
            lemma_rest(st, a, p, xs@, k);
        },
        Term::Proj(t, i) => {
            let keep = restricted(env, set![k]);
            let (st1, b) = lemma_begun(st, *t, env, keep, None);
            let p = lemma_produced_at(st1, Seq::empty(), ExternV::Field(i), seq![b.x], b.env, type_of(st, e), None);
            lemma_around(st, *t, env, keep, None, p.st, plugged(p.frames, ret_v(k, p.x)));
        },
        _ => {},
    }
    lemma_quiet_on(st0, st, expr(st0, e, env, k).0);
}

proof fn lemma_rest(st: St, a: AllV, p: PreV, xs: Seq<Term>, k: Name)
    requires
        quiet(st, a.st),
        quiet(a.st, p.st),
        forall|i: int| 0 <= i < xs.len() ==> pure(#[trigger] xs[i]),
    ensures
        quiet(st, finish_all(p.st, xs, xs.len(), a.bs, plugged(p.frames, ret_v(k, p.x))).0),
    decreases xs, xs.len() + 1,
{
    let body = plugged(p.frames, ret_v(k, p.x));
    lemma_finish_all(p.st, xs, xs.len(), a.bs, body);
    lemma_quiet_on(st, a.st, p.st);
    lemma_quiet_on(st, p.st, finish_all(p.st, xs, xs.len(), a.bs, body).0);
}

proof fn lemma_if(st: St, e: Term, env: Seq<Name>, k: Name)
    requires
        pure(e),
        e is If,
    ensures
        quiet(st, lower_if(st, e, env, k).0),
    decreases e, 0nat,
{
    if let Term::If(c, t, f) = e {
        let want = wants(st, *t, Seq::empty()).union(wants(st, *f, Seq::empty())).insert(k);
        let keep = restricted(env, want);
        let (st1, b) = lemma_begun(st, *c, env, keep, None);
        lemma_expr(st1, *t, b.env, k);
        let m = expr(st1, *t, b.env, k).0;
        lemma_expr(m, *f, b.env, k);
        lemma_quiet_on(st1, m, expr(m, *f, b.env, k).0);
        let (st2, yes) = expr(st1, *t, b.env, k);
        let (st3, no) = expr(st2, *f, b.env, k);
        lemma_around(st, *c, env, keep, None, st3, two_v(ExternV::Branch, seq![b.x], b.env, no, yes));
        assert(quiet(st, lower_branch(st, e, env, k).0));
        if let Term::Prim(p, xs, _) = *c {
            if simple(*c, env) {
                lemma_flat(*c, env);
                match const_arg(p, xs@) {
                    Some((i, l)) => {
                        let x = xs@[if i == 0 { 0 } else { 1 }];
                        assert(flat(x));
                        lemma_ahead(st, x, env, None);
                        let d = direct(st, x, env, None);
                        lemma_expr(d.st, *t, d.env, k);
                        let m = expr(d.st, *t, d.env, k).0;
                        lemma_expr(m, *f, d.env, k);
                        lemma_quiet_on(d.st, m, expr(m, *f, d.env, k).0);
                        lemma_quiet_on(st, d.st, expr(expr(d.st, *t, d.env, k).0, *f, d.env, k).0);
                    },
                    None => {
                        lemma_ahead_all(st, xs@, xs@.len(), env);
                        let d = direct_all(st, xs@, xs@.len(), env);
                        lemma_expr(d.st, *t, d.env, k);
                        let m = expr(d.st, *t, d.env, k).0;
                        lemma_expr(m, *f, d.env, k);
                        lemma_quiet_on(d.st, m, expr(m, *f, d.env, k).0);
                        lemma_quiet_on(st, d.st, expr(expr(d.st, *t, d.env, k).0, *f, d.env, k).0);
                    },
                }
            }
        }
    }
}

} // verus!
