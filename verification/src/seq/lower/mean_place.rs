//! Where lowering a term that calls nothing puts things: the names it takes, and the
//! environment it leaves.

use super::frame::{bound_name, built, produced, FrameV, PreV};
use super::live::uses;
use super::mean::{binds, flat, mentions, pure};
use super::scheme::{
    direct, direct_all, direct_data, direct_let, direct_list, direct_loc, direct_prim, direct_read, simple,
};
use super::shape::const_arg;
use super::state::{bump, St};
use super::stride::{lemma_built, lemma_produced, lemma_quiet_on, lemma_still, lemma_typed, quiet, LAST};
use super::types::type_of;
use crate::seq::ir::{Name, Tag};
use crate::seq::view::ExternV;
use crate::terms::symbol::{self, Sym};
use crate::terms::term::{Term, Var};
use crate::terms::ty::Ty;
use vstd::prelude::*;

verus! {

pub proof fn lemma_front(x: Name, env: Seq<Name>)
    ensures
        forall|n: Name| #[trigger] (seq![x] + env).contains(n) <==> n == x || env.contains(n),
{
    let all = seq![x] + env;
    assert forall|n: Name| n == x || env.contains(n) implies #[trigger] all.contains(n) by {
        if n == x {
            assert(all[0] == n);
        } else {
            let i = choose|i: int| 0 <= i < env.len() && env[i] == n;
            assert(all[i + 1] == n);
        }
    }
}

pub proof fn lemma_behind(env: Seq<Name>, x: Name)
    ensures
        forall|n: Name| #[trigger] env.push(x).contains(n) <==> n == x || env.contains(n),
{
    let all = env.push(x);
    assert forall|n: Name| n == x || env.contains(n) implies #[trigger] all.contains(n) by {
        if n == x {
            assert(all[env.len() as int] == n);
        } else {
            let i = choose|i: int| 0 <= i < env.len() && env[i] == n;
            assert(all[i] == n);
        }
    }
}

/// Every name of `a` is in `b`.
pub open spec fn kept(a: Seq<Name>, b: Seq<Name>) -> bool {
    forall|n: Name| #[trigger] a.contains(n) ==> b.contains(n)
}

/// A name in the environment that computing `e` leaves: one that was there, one that `e`
/// binds, the one it was to have, or a new one.
pub open spec fn whence(e: Term, name: Option<Name>, env: Seq<Name>, a: St, b: St, n: Name) -> bool {
    env.contains(n) || binds(e, n) || name == Some(n) || a.next_name <= n < b.next_name
}

pub open spec fn grown(e: Term, name: Option<Name>, env: Seq<Name>, a: St, to: Seq<Name>, b: St) -> bool {
    forall|n: Name| #[trigger] to.contains(n) ==> whence(e, name, env, a, b, n)
}

/// One of the first `k` of some terms binds the variable.
pub open spec fn binds_any(es: Seq<Term>, k: nat, n: Name) -> bool {
    exists|i: int| 0 <= i < k && i < es.len() && binds(#[trigger] es[i], n)
}

pub open spec fn whence_any(es: Seq<Term>, k: nat, env: Seq<Name>, a: St, b: St, n: Name) -> bool {
    env.contains(n) || binds_any(es, k, n) || a.next_name <= n < b.next_name
}

pub open spec fn grown_any(es: Seq<Term>, k: nat, env: Seq<Name>, a: St, to: Seq<Name>, b: St) -> bool {
    forall|n: Name| #[trigger] to.contains(n) ==> whence_any(es, k, env, a, b, n)
}

pub proof fn lemma_produced_at(
    st: St,
    frames: Seq<FrameV>,
    op: ExternV,
    args: Seq<Name>,
    env: Seq<Name>,
    ty: Option<Ty>,
    name: Option<Name>,
) -> (p: PreV)
    ensures
        p == produced(st, frames, op, args, env, ty, name),
        quiet(st, p.st),
        p.x == bound_name(st, name),
        p.env == seq![p.x] + env,
        p.frames == frames.push(FrameV::Bind { op, args, params: seq![p.x] + env }),
        name is Some ==> p.st == st,
        name is None ==> p.st.next_name == bump(st.next_name),
{
    reveal(produced);
    lemma_produced(st, frames, op, args, env, ty, name);
    lemma_typed(st, ty);
    produced(st, frames, op, args, env, ty, name)
}

pub proof fn lemma_built_at(
    st: St,
    frames: Seq<FrameV>,
    ctor: Sym,
    tag: Tag,
    fields: Seq<Name>,
    env: Seq<Name>,
    ty: Option<Ty>,
    name: Option<Name>,
) -> (p: PreV)
    ensures
        p == built(st, frames, ctor, tag, fields, env, ty, name),
        quiet(st, p.st),
        p.x == bound_name(st, name),
        p.env == seq![p.x] + env,
        p.frames == frames.push(FrameV::Build { name: p.x, tag, ctor, fields }),
        name is Some ==> p.st == st,
        name is None ==> p.st.next_name == bump(st.next_name),
{
    reveal(built);
    lemma_built(st, frames, ctor, tag, fields, env, ty, name);
    lemma_typed(st, ty);
    built(st, frames, ctor, tag, fields, env, ty, name)
}

/// What comes of a value bound in front of what computing its parts left.
proof fn lemma_bound_last(e: Term, name: Option<Name>, env: Seq<Name>, a: St, mid: Seq<Name>, m: St, p: PreV)
    requires
        kept(env, mid),
        forall|n: Name| #[trigger] mid.contains(n) ==> env.contains(n) || binds(e, n) || a.next_name <= n < m.next_name,
        quiet(a, m),
        quiet(m, p.st),
        p.x == bound_name(m, name),
        p.env == seq![p.x] + mid,
        name is None ==> p.st.next_name == bump(m.next_name),
        p.st.next_name < LAST,
    ensures
        quiet(a, p.st),
        kept(env, p.env),
        grown(e, name, env, a, p.env, p.st),
        name is Some ==> Some(p.x) == name,
{
    lemma_front(p.x, mid);
    lemma_quiet_on(a, m, p.st);
    assert forall|n: Name| #[trigger] p.env.contains(n) implies whence(e, name, env, a, p.st, n) by {
        if n != p.x {
            assert(mid.contains(n));
        }
    }
    assert forall|n: Name| #[trigger] env.contains(n) implies p.env.contains(n) by {
        assert(mid.contains(n));
    }
}

/// A term lowered where it stands, by what it is.
pub open spec fn in_place(st: St, e: Term, env: Seq<Name>, name: Option<Name>) -> PreV {
    match e {
        Term::Loc(_, _) => direct_loc(st, e, env, name),
        Term::Prim(_, _, _) => direct_prim(st, e, env, name),
        Term::Ctor(_, _, _) | Term::Tuple(_) => direct_data(st, e, env, name),
        Term::Array(_, _) => direct_list(st, e, env, name),
        Term::Proj(_, _) => direct_read(st, e, env, name),
        Term::Let(_, _, _, _) => direct_let(st, e, env, name),
        _ => direct(st, e, env, name),
    }
}

pub proof fn lemma_in_place(st: St, e: Term, env: Seq<Name>, name: Option<Name>)
    ensures
        direct(st, e, env, name) == in_place(st, e, env, name),
{
}

/// What computing a term in place takes and leaves.
#[verifier::spinoff_prover]
pub proof fn lemma_place(st: St, e: Term, env: Seq<Name>, name: Option<Name>) -> (p: PreV)
    requires
        flat(e),
        direct(st, e, env, name).st.next_name < LAST,
    ensures
        p == direct(st, e, env, name),
        quiet(st, p.st),
        kept(env, p.env),
        grown(e, name, env, st, p.env, p.st),
        name is Some ==> Some(p.x) == name,
    decreases e, 1nat,
{
    let p = direct(st, e, env, name);
    lemma_in_place(st, e, env, name);
    lemma_still(st);
    match e {
        Term::Loc(_, inner) => {
            let q = lemma_place(st, *inner, env, name);
            assert forall|n: Name| #[trigger] p.env.contains(n) implies whence(e, name, env, st, p.st, n) by {
                assert(whence(*inner, name, env, st, q.st, n));
            }
        },
        Term::Var(v) => {
            if let Some(x) = name {
                lemma_behind(env, x);
            }
        },
        Term::Lit(l) => {
            let q = lemma_produced_at(st, Seq::empty(), ExternV::Lit(l), Seq::empty(), env, type_of(st, e), name);
            lemma_bound_last(e, name, env, st, env, st, q);
        },
        Term::Prim(f, xs, _) => {
            lemma_place_prim(st, e, env, name);
        },
        Term::Ctor(c, _, xs) => {
            assert(decreases_to!(e => xs@));
            let at = st.tagged(c);
            assert(quiet(st, at));
            lemma_place_data(st, at, e, c, st.tag(c), xs@, env, name);
        },
        Term::Tuple(xs) => {
            assert(decreases_to!(e => xs@));
            let at = st.tagged(symbol::TUPLE);
            assert(quiet(st, at));
            lemma_place_data(st, at, e, symbol::TUPLE, st.tag(symbol::TUPLE), xs@, env, name);
        },
        Term::Array(xs, _) => {
            assert(decreases_to!(e => xs@));
            let d = direct_all(st, xs@, xs@.len(), env);
            let q = lemma_produced_at(d.st, d.frames, ExternV::Array, d.done, d.env, type_of(st, e), name);
            lemma_place_all(st, xs@, xs@.len(), env);
            lemma_any(e, xs@, env, st, d.env, d.st);
            lemma_bound_last(e, name, env, st, d.env, d.st, q);
        },
        Term::Proj(b, i) => {
            let d = direct(st, *b, env, None);
            let q = lemma_produced_at(d.st, d.frames, ExternV::Field(i), seq![d.x], d.env, type_of(st, e), name);
            lemma_place(st, *b, env, None);
            assert forall|n: Name| #[trigger] d.env.contains(n) implies env.contains(n) || binds(e, n) || st.next_name <= n
                < d.st.next_name by {
                assert(whence(*b, None, env, st, d.st, n));
            }
            lemma_bound_last(e, name, env, st, d.env, d.st, q);
        },
        Term::Let(x, _, rhs, body) => {
            let r = direct(st, *rhs, env, Some(x));
            lemma_ahead(r.st, *body, r.env, name);
            lemma_place(st, *rhs, env, Some(x));
            lemma_place(r.st, *body, r.env, name);
            lemma_quiet_on(st, r.st, p.st);
            assert forall|n: Name| #[trigger] p.env.contains(n) implies whence(e, name, env, st, p.st, n) by {
                assert(whence(*body, name, r.env, r.st, p.st, n));
                if r.env.contains(n) {
                    assert(whence(*rhs, Some(x), env, st, r.st, n));
                }
            }
            assert forall|n: Name| #[trigger] env.contains(n) implies p.env.contains(n) by {
                assert(r.env.contains(n));
            }
        },
        _ => {},
    }
    p
}

/// The terms of a list bind what the term they are in binds.
pub proof fn lemma_any(e: Term, xs: Seq<Term>, env: Seq<Name>, a: St, to: Seq<Name>, b: St)
    requires
        grown_any(xs, xs.len(), env, a, to, b),
        match e {
            Term::Prim(_, ys, _) => ys@ == xs,
            Term::Tuple(ys) => ys@ == xs,
            Term::Ctor(_, _, ys) => ys@ == xs,
            Term::Array(ys, _) => ys@ == xs,
            _ => false,
        },
    ensures
        forall|n: Name| #[trigger] to.contains(n) ==> env.contains(n) || binds(e, n) || a.next_name <= n < b.next_name,
{
    assert forall|n: Name| #[trigger] to.contains(n) implies env.contains(n) || binds(e, n) || a.next_name <= n
        < b.next_name by {
        assert(whence_any(xs, xs.len(), env, a, b, n));
        if binds_any(xs, xs.len(), n) {
            let i = choose|i: int| 0 <= i < xs.len() && binds(#[trigger] xs[i], n);
            assert(binds(e, n));
        }
    }
}

proof fn lemma_place_data(
    st: St,
    at: St,
    e: Term,
    c: Sym,
    tag: Tag,
    xs: Seq<Term>,
    env: Seq<Name>,
    name: Option<Name>,
)
    requires
        quiet(st, at),
        st.next_name == at.next_name,
        forall|i: int| 0 <= i < xs.len() ==> flat(#[trigger] xs[i]),
        match e {
            Term::Tuple(ys) => ys@ == xs,
            Term::Ctor(_, _, ys) => ys@ == xs,
            _ => false,
        },
        ({
            let d = direct_all(at, xs, xs.len(), env);
            built(d.st, d.frames, c, tag, d.done, d.env, type_of(st, e), name).st.next_name < LAST
        }),
    ensures
        ({
            let d = direct_all(at, xs, xs.len(), env);
            let p = built(d.st, d.frames, c, tag, d.done, d.env, type_of(st, e), name);
            &&& quiet(st, p.st)
            &&& kept(env, p.env)
            &&& grown(e, name, env, st, p.env, p.st)
            &&& name is Some ==> Some(p.x) == name
        }),
    decreases xs, xs.len() + 1,
{
    let d = direct_all(at, xs, xs.len(), env);
    let q = lemma_built_at(d.st, d.frames, c, tag, d.done, d.env, type_of(st, e), name);
    lemma_place_all(at, xs, xs.len(), env);
    lemma_any(e, xs, env, at, d.env, d.st);
    lemma_quiet_on(st, at, d.st);
    lemma_bound_last(e, name, env, st, d.env, d.st, q);
}

proof fn lemma_place_prim(st: St, e: Term, env: Seq<Name>, name: Option<Name>)
    requires
        flat(e),
        e is Prim,
        direct(st, e, env, name).st.next_name < LAST,
    ensures
        ({
            let p = direct(st, e, env, name);
            &&& quiet(st, p.st)
            &&& kept(env, p.env)
            &&& grown(e, name, env, st, p.env, p.st)
            &&& name is Some ==> Some(p.x) == name
        }),
    decreases e, 0nat,
{
    lemma_in_place(st, e, env, name);
    if let Term::Prim(f, xs, _) = e {
        assert(decreases_to!(e => xs@));
        match const_arg(f, xs@) {
            Some((i, l)) => {
                let at = if i == 0 {
                    0int
                } else {
                    1int
                };
                let x = xs@[at];
                assert(decreases_to!(xs@ => x));
                assert(flat(x));
                let d = direct(st, x, env, None);
                let q = lemma_produced_at(d.st, d.frames, ExternV::PrimK(f, l), seq![d.x], d.env, type_of(st, e), name);
                lemma_place(st, x, env, None);
                assert forall|n: Name| #[trigger] d.env.contains(n) implies env.contains(n) || binds(e, n)
                    || st.next_name <= n < d.st.next_name by {
                    assert(whence(x, None, env, st, d.st, n));
                }
                lemma_bound_last(e, name, env, st, d.env, d.st, q);
            },
            None => {
                let d = direct_all(st, xs@, xs@.len(), env);
                let q = lemma_produced_at(d.st, d.frames, ExternV::Prim(f), d.done, d.env, type_of(st, e), name);
                lemma_place_all(st, xs@, xs@.len(), env);
                lemma_any(e, xs@, env, st, d.env, d.st);
                lemma_bound_last(e, name, env, st, d.env, d.st, q);
            },
        }
    }
}

pub proof fn lemma_place_all(st: St, es: Seq<Term>, n: nat, env: Seq<Name>)
    requires
        n <= es.len(),
        forall|i: int| 0 <= i < es.len() ==> flat(#[trigger] es[i]),
        direct_all(st, es, n, env).st.next_name < LAST,
    ensures
        quiet(st, direct_all(st, es, n, env).st),
        kept(env, direct_all(st, es, n, env).env),
        grown_any(es, n, env, st, direct_all(st, es, n, env).env, direct_all(st, es, n, env).st),
    decreases es, n,
{
    lemma_still(st);
    if n > 0 {
        let a = direct_all(st, es, (n - 1) as nat, env);
        let x = es[n - 1];
        assert(decreases_to!(es => x));
        lemma_ahead(a.st, x, a.env, None);
        lemma_place_all(st, es, (n - 1) as nat, env);
        let p = lemma_place(a.st, x, a.env, None);
        lemma_quiet_on(st, a.st, p.st);
        assert forall|m: Name| #[trigger] p.env.contains(m) implies whence_any(es, n, env, st, p.st, m) by {
            assert(whence(x, None, a.env, a.st, p.st, m));
            if a.env.contains(m) {
                assert(whence_any(es, (n - 1) as nat, env, st, a.st, m));
                if binds_any(es, (n - 1) as nat, m) {
                    let i = choose|i: int| 0 <= i < n - 1 && i < es.len() && binds(#[trigger] es[i], m);
                    assert(binds(es[i], m));
                }
            }
        }
        assert forall|m: Name| #[trigger] env.contains(m) implies p.env.contains(m) by {
            assert(a.env.contains(m));
        }
    }
}

// --- only names are taken ---

/// Computing a term in place takes names and nothing else.
#[verifier::spinoff_prover]
pub proof fn lemma_ahead(st: St, e: Term, env: Seq<Name>, name: Option<Name>)
    requires
        flat(e),
    ensures
        quiet(st, direct(st, e, env, name).st),
    decreases e, 0nat,
{
    lemma_in_place(st, e, env, name);
    lemma_still(st);
    match e {
        Term::Loc(_, inner) => {
            lemma_ahead(st, *inner, env, name);
        },
        Term::Lit(l) => {
            lemma_produced(st, Seq::empty(), ExternV::Lit(l), Seq::empty(), env, type_of(st, e), name);
        },
        Term::Prim(f, xs, _) => {
            assert(decreases_to!(e => xs@));
            match const_arg(f, xs@) {
                Some((i, l)) => {
                    let x = xs@[if i == 0 { 0 } else { 1 }];
                    assert(decreases_to!(xs@ => x));
                    assert(flat(x));
                    lemma_ahead(st, x, env, None);
                    let d = direct(st, x, env, None);
                    let q = lemma_produced_at(d.st, d.frames, ExternV::PrimK(f, l), seq![d.x], d.env, type_of(st, e), name);
                    lemma_quiet_on(st, d.st, q.st);
                },
                None => {
                    lemma_ahead_all(st, xs@, xs@.len(), env);
                    let d = direct_all(st, xs@, xs@.len(), env);
                    let q = lemma_produced_at(d.st, d.frames, ExternV::Prim(f), d.done, d.env, type_of(st, e), name);
                    lemma_quiet_on(st, d.st, q.st);
                },
            }
        },
        Term::Ctor(c, _, xs) => {
            assert(decreases_to!(e => xs@));
            let at = st.tagged(c);
            assert(quiet(st, at));
            lemma_ahead_all(at, xs@, xs@.len(), env);
            let d = direct_all(at, xs@, xs@.len(), env);
            let q = lemma_built_at(d.st, d.frames, c, st.tag(c), d.done, d.env, type_of(st, e), name);
            lemma_quiet_on(st, at, d.st);
            lemma_quiet_on(st, d.st, q.st);
        },
        Term::Tuple(xs) => {
            assert(decreases_to!(e => xs@));
            let at = st.tagged(symbol::TUPLE);
            assert(quiet(st, at));
            lemma_ahead_all(at, xs@, xs@.len(), env);
            let d = direct_all(at, xs@, xs@.len(), env);
            let q = lemma_built_at(d.st, d.frames, symbol::TUPLE, st.tag(symbol::TUPLE), d.done, d.env, type_of(st, e), name);
            lemma_quiet_on(st, at, d.st);
            lemma_quiet_on(st, d.st, q.st);
        },
        Term::Array(xs, _) => {
            assert(decreases_to!(e => xs@));
            lemma_ahead_all(st, xs@, xs@.len(), env);
            let d = direct_all(st, xs@, xs@.len(), env);
            let q = lemma_produced_at(d.st, d.frames, ExternV::Array, d.done, d.env, type_of(st, e), name);
            lemma_quiet_on(st, d.st, q.st);
        },
        Term::Proj(b, i) => {
            lemma_ahead(st, *b, env, None);
            let d = direct(st, *b, env, None);
            let q = lemma_produced_at(d.st, d.frames, ExternV::Field(i), seq![d.x], d.env, type_of(st, e), name);
            lemma_quiet_on(st, d.st, q.st);
        },
        Term::Let(x, _, rhs, body) => {
            lemma_ahead(st, *rhs, env, Some(x));
            let r = direct(st, *rhs, env, Some(x));
            lemma_ahead(r.st, *body, r.env, name);
            lemma_quiet_on(st, r.st, direct(r.st, *body, r.env, name).st);
        },
        _ => {},
    }
}

pub proof fn lemma_ahead_all(st: St, es: Seq<Term>, n: nat, env: Seq<Name>)
    requires
        n <= es.len(),
        forall|i: int| 0 <= i < es.len() ==> flat(#[trigger] es[i]),
    ensures
        quiet(st, direct_all(st, es, n, env).st),
    decreases es, n,
{
    lemma_still(st);
    if n > 0 {
        lemma_ahead_all(st, es, (n - 1) as nat, env);
        let a = direct_all(st, es, (n - 1) as nat, env);
        assert(decreases_to!(es => es[n - 1]));
        lemma_ahead(a.st, es[n - 1], a.env, None);
        lemma_quiet_on(st, a.st, direct(a.st, es[n - 1], a.env, None).st);
    }
}

/// A term that produces a value without transferring control, and calls nothing, does not
/// branch.
pub proof fn lemma_flat(e: Term, env: Seq<Name>)
    requires
        pure(e),
        simple(e, env),
    ensures
        flat(e),
    decreases e,
{
    reveal_with_fuel(simple, 2);
    match e {
        Term::Loc(_, b) => lemma_flat(*b, env),
        Term::Prim(_, xs, _) => {
            assert forall|i: int| 0 <= i < xs@.len() implies flat(#[trigger] xs@[i]) by {
                assert(decreases_to!(e => xs@));
                assert(decreases_to!(xs@ => xs@[i]));
                assert(pure(xs@[i]) && simple(xs@[i], env));
                lemma_flat(xs@[i], env);
            }
        },
        Term::Tuple(xs) => {
            assert forall|i: int| 0 <= i < xs@.len() implies flat(#[trigger] xs@[i]) by {
                assert(decreases_to!(e => xs@));
                assert(decreases_to!(xs@ => xs@[i]));
                assert(pure(xs@[i]) && simple(xs@[i], env));
                lemma_flat(xs@[i], env);
            }
        },
        Term::Ctor(_, _, xs) => {
            assert forall|i: int| 0 <= i < xs@.len() implies flat(#[trigger] xs@[i]) by {
                assert(decreases_to!(e => xs@));
                assert(decreases_to!(xs@ => xs@[i]));
                assert(pure(xs@[i]) && simple(xs@[i], env));
                lemma_flat(xs@[i], env);
            }
        },
        Term::Array(xs, _) => {
            assert forall|i: int| 0 <= i < xs@.len() implies flat(#[trigger] xs@[i]) by {
                assert(decreases_to!(e => xs@));
                assert(decreases_to!(xs@ => xs@[i]));
                assert(pure(xs@[i]) && simple(xs@[i], env));
                lemma_flat(xs@[i], env);
            }
        },
        Term::Proj(b, _) => lemma_flat(*b, env),
        Term::Let(x, _, r, b) => {
            lemma_flat(*r, env);
            lemma_flat(*b, env.push(x));
        },
        _ => {},
    }
}

/// A variable that a term looks at is one that it needs.
pub proof fn lemma_uses(st: St, e: Term, scope: Seq<Var>, v: Var)
    requires
        mentions(e, v),
        !scope.contains(v),
        !st.globals.contains_key(v),
        !st.joins.contains_key(v),
    ensures
        uses(st, e, scope, v),
    decreases e,
{
    match e {
        Term::Loc(_, b) => lemma_uses(st, *b, scope, v),
        Term::Prim(_, xs, _) => {
            let i = choose|i: int| 0 <= i < xs@.len() && mentions(#[trigger] xs@[i], v);
            assert(decreases_to!(e => xs@));
            assert(decreases_to!(xs@ => xs@[i]));
            lemma_uses(st, xs@[i], scope, v);
        },
        Term::Tuple(xs) => {
            let i = choose|i: int| 0 <= i < xs@.len() && mentions(#[trigger] xs@[i], v);
            assert(decreases_to!(e => xs@));
            assert(decreases_to!(xs@ => xs@[i]));
            lemma_uses(st, xs@[i], scope, v);
        },
        Term::Ctor(_, _, xs) => {
            let i = choose|i: int| 0 <= i < xs@.len() && mentions(#[trigger] xs@[i], v);
            assert(decreases_to!(e => xs@));
            assert(decreases_to!(xs@ => xs@[i]));
            lemma_uses(st, xs@[i], scope, v);
        },
        Term::Array(xs, _) => {
            let i = choose|i: int| 0 <= i < xs@.len() && mentions(#[trigger] xs@[i], v);
            assert(decreases_to!(e => xs@));
            assert(decreases_to!(xs@ => xs@[i]));
            lemma_uses(st, xs@[i], scope, v);
        },
        Term::Proj(b, _) => lemma_uses(st, *b, scope, v),
        Term::Let(x, _, r, b) => {
            if mentions(*r, v) {
                lemma_uses(st, *r, scope, v);
            } else {
                lemma_behind(scope, x);
                lemma_uses(st, *b, scope.push(x), v);
            }
        },
        Term::If(c, t, f) => {
            if mentions(*c, v) {
                lemma_uses(st, *c, scope, v);
            } else if mentions(*t, v) {
                lemma_uses(st, *t, scope, v);
            } else {
                lemma_uses(st, *f, scope, v);
            }
        },
        _ => {},
    }
}

} // verus!
