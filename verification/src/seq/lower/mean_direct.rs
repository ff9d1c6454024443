//! Running what a term that does not branch was lowered to, where it stands.

use super::frame::{bound_name, filled, plugged, rename_v, FrameV};
use super::mean::{
    all_mean, binds, disjoint, flat, means, mentions, neat, neat_all, prim_value, turned, World,
};
use super::mean_place::{
    binds_any, grown, grown_any, kept, lemma_ahead, lemma_any, lemma_built_at, lemma_in_place, lemma_place, lemma_place_all,
    lemma_produced_at, whence, whence_any,
};
use super::mean_run::{
    at, keeps, lemma_has, lemma_plugged_both, lemma_plugged_none, lemma_plugged_one, lemma_plugged_push,
    lemma_reach_now, lemma_reach_then, lemma_run_let, lemma_run_mark, lemma_run_one, lemma_run_rename, op_value,
    reach, unchecked,
};
use super::scheme::{direct, direct_all};
use super::shape::const_arg;
use super::state::St;
use super::stride::{lemma_still, quiet, LAST};
use super::types::type_of;
use crate::seq::ir::{commuting, Name, Tag};
use crate::seq::machine::laws::all_hold;
use crate::seq::machine::state::{holds, literal, S};
use crate::seq::machine::value::ValueV;
use crate::seq::view::{ExternV, StmtV};
use crate::terms::prim::{Lit, Prim};
use crate::terms::symbol::{self, Sym};
use crate::terms::term::{Term, Var};
use vstd::prelude::*;

verus! {

/// Lowering numbers the constructors as they are numbered.
pub open spec fn numbered(w: World, st: St) -> bool {
    forall|c: Sym| #[trigger] w.tags.contains_key(c) ==> st.tags.contains_key(c) && st.tags[c] == w.tags[c]
}

/// The names of an environment are all taken.
pub open spec fn taken(st: St, env: Seq<Name>) -> bool {
    forall|n: Name| #[trigger] env.contains(n) ==> n < st.next_name
}

/// What a variable is, the machine holds under its name, and it is no label.
pub open spec fn known(st: St, rho: Map<Var, ValueV>, s: S, v: Var) -> bool {
    &&& !st.globals.contains_key(v)
    &&& !st.joins.contains_key(v)
    &&& rho.contains_key(v)
    &&& holds(s, v) == Some(rho[v])
}

/// A variable that can be bound: it is not in use, and it is no label.
pub open spec fn spare(st: St, env: Seq<Name>, v: Var) -> bool {
    v < st.next_name && !env.contains(v) && !st.globals.contains_key(v) && !st.joins.contains_key(v)
}

/// A term can be lowered here and run there: what it looks at is held, and what it binds is
/// not in use.
pub open spec fn ready(w: World, st: St, e: Term, env: Seq<Name>, rho: Map<Var, ValueV>, s: S) -> bool {
    &&& unchecked(w)
    &&& numbered(w, st)
    &&& neat(w, e)
    &&& taken(st, env)
    &&& forall|v: Var| #[trigger] binds(e, v) ==> spare(st, env, v)
    &&& forall|v: Var| #[trigger] mentions(e, v) ==> known(st, rho, s, v)
}

/// Some terms can.
pub open spec fn ready_all(w: World, st: St, es: Seq<Term>, env: Seq<Name>, rho: Map<Var, ValueV>, s: S) -> bool {
    &&& unchecked(w)
    &&& numbered(w, st)
    &&& neat_all(w, es)
    &&& taken(st, env)
    &&& forall|i: int, v: Var| 0 <= i < es.len() && #[trigger] binds(es[i], v) ==> spare(st, env, v)
    &&& forall|i: int, v: Var| 0 <= i < es.len() && #[trigger] mentions(es[i], v) ==> known(st, rho, s, v)
}

/// The name a value is to have is not in use.
pub open spec fn unused(st: St, e: Term, env: Seq<Name>, name: Option<Name>) -> bool {
    name matches Some(x) ==> x < st.next_name && !env.contains(x) && !binds(e, x)
}

/// A part of a term that can be lowered and run can be, later on.
pub proof fn lemma_ready(w: World, st: St, e: Term, env: Seq<Name>, rho: Map<Var, ValueV>, s: S, sub: Term, st2: St, env2: Seq<Name>, s2: S)
    requires
        ready(w, st, e, env, rho, s),
        neat(w, sub),
        quiet(st, st2),
        taken(st2, env2),
        forall|v: Var| #[trigger] binds(sub, v) ==> binds(e, v) && !env2.contains(v),
        forall|v: Var| #[trigger] mentions(sub, v) ==> mentions(e, v) && holds(s2, v) == holds(s, v),
    ensures
        ready(w, st2, sub, env2, rho, s2),
{
    assert forall|v: Var| #[trigger] binds(sub, v) implies spare(st2, env2, v) by {
        assert(binds(e, v));
        assert(spare(st, env, v));
    }
    assert forall|v: Var| #[trigger] mentions(sub, v) implies known(st2, rho, s2, v) by {
        assert(mentions(e, v));
        assert(known(st, rho, s, v));
    }
    assert(numbered(w, st2)) by {
        assert forall|c: Sym| #[trigger] w.tags.contains_key(c) implies st2.tags.contains_key(c) && st2.tags[c]
            == w.tags[c] by {
            assert(st.tags.contains_key(c));
        }
    }
}

/// A part that is run at once.
pub proof fn lemma_ready_now(w: World, st: St, e: Term, env: Seq<Name>, rho: Map<Var, ValueV>, s: S, sub: Term)
    requires
        ready(w, st, e, env, rho, s),
        neat(w, sub),
        forall|v: Var| #[trigger] binds(sub, v) ==> binds(e, v),
        forall|v: Var| #[trigger] mentions(sub, v) ==> mentions(e, v),
    ensures
        ready(w, st, sub, env, rho, s),
{
    lemma_still(st);
    lemma_ready(w, st, e, env, rho, s, sub, st, env, s);
}

/// The terms of a list.
pub proof fn lemma_ready_list(w: World, st: St, e: Term, env: Seq<Name>, rho: Map<Var, ValueV>, s: S, es: Seq<Term>, st2: St)
    requires
        ready(w, st, e, env, rho, s),
        quiet(st, st2),
        match e {
            Term::Prim(_, ys, _) => ys@ == es,
            Term::Tuple(ys) => ys@ == es,
            Term::Ctor(_, _, ys) => ys@ == es,
            Term::Array(ys, _) => ys@ == es,
            _ => false,
        },
    ensures
        ready_all(w, st2, es, env, rho, s),
{
    assert forall|i: int, v: Var| 0 <= i < es.len() && #[trigger] binds(es[i], v) implies spare(st2, env, v) by {
        assert(binds(e, v));
        assert(spare(st, env, v));
    }
    assert forall|i: int, v: Var| 0 <= i < es.len() && #[trigger] mentions(es[i], v) implies known(st2, rho, s, v) by {
        assert(mentions(e, v));
        assert(known(st, rho, s, v));
    }
    assert(numbered(w, st2)) by {
        assert forall|c: Sym| #[trigger] w.tags.contains_key(c) implies st2.tags.contains_key(c) && st2.tags[c]
            == w.tags[c] by {
            assert(st.tags.contains_key(c));
        }
    }
}

/// One of some terms, once those before it have been run.
pub proof fn lemma_ready_item(
    w: World,
    st: St,
    es: Seq<Term>,
    env: Seq<Name>,
    rho: Map<Var, ValueV>,
    s: S,
    n: nat,
    st2: St,
    env2: Seq<Name>,
    s2: S,
)
    requires
        ready_all(w, st, es, env, rho, s),
        n < es.len(),
        quiet(st, st2),
        grown_any(es, n, env, st, env2, st2),
        forall|v: Var| #[trigger] mentions(es[n as int], v) ==> holds(s2, v) == holds(s, v),
    ensures
        ready(w, st2, es[n as int], env2, rho, s2),
        taken(st2, env2),
{
    let x = es[n as int];
    assert forall|m: Name| #[trigger] env2.contains(m) implies m < st2.next_name by {
        assert(whence_any(es, n, env, st, st2, m));
        if binds_any(es, n, m) {
            let i = choose|i: int| 0 <= i < n && i < es.len() && binds(#[trigger] es[i], m);
            assert(binds(es[i], m));
            assert(spare(st, env, m));
        }
    }
    assert forall|v: Var| #[trigger] binds(x, v) implies spare(st2, env2, v) by {
        assert(binds(es[n as int], v));
        assert(spare(st, env, v));
        if env2.contains(v) {
            assert(whence_any(es, n, env, st, st2, v));
            let i = choose|i: int| 0 <= i < n && i < es.len() && binds(#[trigger] es[i], v);
            assert(disjoint(es[i], es[n as int]));
        }
    }
    assert forall|v: Var| #[trigger] mentions(x, v) implies known(st2, rho, s2, v) by {
        assert(mentions(es[n as int], v));
        assert(known(st, rho, s, v));
    }
    assert(numbered(w, st2)) by {
        assert forall|c: Sym| #[trigger] w.tags.contains_key(c) implies st2.tags.contains_key(c) && st2.tags[c]
            == w.tags[c] by {
            assert(st.tags.contains_key(c));
        }
    }
}

/// A name that comes next is new.
proof fn lemma_new_name(w: World, st: St, e: Term, env: Seq<Name>, rho: Map<Var, ValueV>, s: S, name: Option<Name>, m: St, mid: Seq<Name>)
    requires
        ready(w, st, e, env, rho, s),
        unused(st, e, env, name),
        quiet(st, m),
        forall|n: Name| #[trigger] mid.contains(n) ==> env.contains(n) || binds(e, n) || st.next_name <= n < m.next_name,
    ensures
        !mid.contains(bound_name(m, name)),
{
    let x = bound_name(m, name);
    if mid.contains(x) {
        if name is None && binds(e, x) {
            assert(spare(st, env, x));
        }
    }
}

/// What was held before one step and the next.
pub proof fn lemma_kept_on(s: S, t: S, u: S, env: Seq<Name>, mid: Seq<Name>)
    requires
        keeps(s, t, env),
        keeps(t, u, mid),
        kept(env, mid),
    ensures
        keeps(s, u, env),
{
    assert forall|n: Name| #[trigger] env.contains(n) implies holds(u, n) == holds(s, n) by {
        assert(mid.contains(n));
    }
}

/// An operation bound last.
proof fn lemma_last_op(
    w: World,
    st: St,
    e: Term,
    env: Seq<Name>,
    rho: Map<Var, ValueV>,
    s: S,
    name: Option<Name>,
    m: St,
    mid: Seq<Name>,
    t0: S,
    op: ExternV,
    args: Seq<Name>,
    vs: Seq<ValueV>,
    v: ValueV,
    body: StmtV,
) -> (t: S)
    requires
        ready(w, st, e, env, rho, s),
        unused(st, e, env, name),
        quiet(st, m),
        kept(env, mid),
        forall|n: Name| #[trigger] mid.contains(n) ==> env.contains(n) || binds(e, n) || st.next_name <= n < m.next_name,
        reach(w, s, t0),
        keeps(s, t0, env),
        at(
            w,
            t0,
            filled(FrameV::Bind { op, args, params: seq![bound_name(m, name)] + mid }, body),
            mid,
        ),
        all_hold(t0, args, vs),
        op_value(w, op, vs) == Some(v),
    ensures
        reach(w, s, t),
        at(w, t, body, seq![bound_name(m, name)] + mid),
        holds(t, bound_name(m, name)) == Some(v),
        keeps(s, t, env),
{
    let x = bound_name(m, name);
    lemma_new_name(w, st, e, env, rho, s, name, m, mid);
    let t = lemma_run_one(w, t0, op, args, x, mid, body, vs, v);
    lemma_reach_then(w, s, t0, t);
    lemma_kept_on(s, t0, t, env, mid);
    t
}

/// Data bound last.
proof fn lemma_last_data(
    w: World,
    st: St,
    e: Term,
    env: Seq<Name>,
    rho: Map<Var, ValueV>,
    s: S,
    name: Option<Name>,
    m: St,
    mid: Seq<Name>,
    t0: S,
    c: Sym,
    tag: Tag,
    fields: Seq<Name>,
    vs: Seq<ValueV>,
    body: StmtV,
) -> (t: S)
    requires
        ready(w, st, e, env, rho, s),
        unused(st, e, env, name),
        quiet(st, m),
        kept(env, mid),
        forall|n: Name| #[trigger] mid.contains(n) ==> env.contains(n) || binds(e, n) || st.next_name <= n < m.next_name,
        reach(w, s, t0),
        keeps(s, t0, env),
        at(w, t0, filled(FrameV::Build { name: bound_name(m, name), tag, ctor: c, fields }, body), mid),
        all_hold(t0, fields, vs),
    ensures
        reach(w, s, t),
        at(w, t, body, seq![bound_name(m, name)] + mid),
        holds(t, bound_name(m, name)) == Some(ValueV::Data(c, tag, vs)),
        keeps(s, t, env),
{
    let x = bound_name(m, name);
    lemma_new_name(w, st, e, env, rho, s, name, m, mid);
    let t = lemma_run_let(w, t0, x, tag, c, fields, mid, body, vs);
    lemma_reach_then(w, s, t0, t);
    lemma_kept_on(s, t0, t, env, mid);
    t
}

/// A literal operand of an operation that takes its operands in either order.
pub proof fn lemma_const(w: World, e: Term, f: Prim, xs: Seq<Term>, i: int, l: Lit, rho: Map<Var, ValueV>, v: ValueV) -> (u: ValueV)
    requires
        e matches Term::Prim(g, ys, _) && g == f && ys@ == xs,
        const_arg(f, xs) == Some((i, l)),
        means(w, e, rho) == Some(v),
    ensures
        means(w, xs[if i == 0 { 0 } else { 1 }], rho) == Some(u),
        prim_value(w, f, seq![u].push(literal(l, w.p.symbols@))) == Some(v),
        op_value(w, ExternV::PrimK(f, l), seq![u]) == Some(v),
{
    reveal_with_fuel(all_mean, 3);
    let vs = all_mean(w, xs, xs.len(), rho)->0;
    assert(vs.len() == 2);
    let lit = literal(l, w.p.symbols@);
    if i == 0 {
        assert(means(w, xs[1], rho) == Some(lit));
        assert(seq![vs[0]].push(lit) =~= vs);
        vs[0]
    } else {
        assert(means(w, xs[0], rho) == Some(lit));
        assert(turned(f, xs));
        assert(vs[0] == lit);
        lemma_commutes(w, f, vs[0]->Int_0, vs[1]->Int_0);
        assert(vs =~= seq![vs[0], vs[1]]);
        assert(seq![vs[1]].push(lit) =~= seq![vs[1], vs[0]]);
        vs[1]
    }
}

/// An operation that takes two integers in either order answers the same.
proof fn lemma_commutes(w: World, f: Prim, a: i64, b: i64)
    requires
        commuting(f),
    ensures
        prim_value(w, f, seq![ValueV::Int(a), ValueV::Int(b)]) == prim_value(w, f, seq![ValueV::Int(b), ValueV::Int(a)]),
{
    reveal(prim_value);
    let x = seq![ValueV::Int(a), ValueV::Int(b)];
    let y = seq![ValueV::Int(b), ValueV::Int(a)];
    assert(x[0] == y[1] && x[1] == y[0]);
    assert(a * b == b * a) by (nonlinear_arith);
    assert(a & b == b & a && a | b == b | a && a ^ b == b ^ a) by (bit_vector);
    crate::seq::machine::laws::a_comparison_answers_whether_it_holds(Prim::Eq, a, b, w.cx());
    crate::seq::machine::laws::a_comparison_answers_whether_it_holds(Prim::Eq, b, a, w.cx());
    crate::seq::machine::laws::a_comparison_answers_whether_it_holds(Prim::Ne, a, b, w.cx());
    crate::seq::machine::laws::a_comparison_answers_whether_it_holds(Prim::Ne, b, a, w.cx());
}

/// Running a term where it stands binds its value, and leaves what was held.
#[verifier::spinoff_prover]
#[verifier::rlimit(40)]
pub proof fn lemma_direct(
    w: World,
    st: St,
    e: Term,
    env: Seq<Name>,
    name: Option<Name>,
    rho: Map<Var, ValueV>,
    v: ValueV,
    s: S,
    body: StmtV,
) -> (t: S)
    requires
        flat(e),
        ready(w, st, e, env, rho, s),
        unused(st, e, env, name),
        means(w, e, rho) == Some(v),
        direct(st, e, env, name).st.next_name < LAST,
        at(w, s, plugged(direct(st, e, env, name).frames, body), env),
    ensures
        reach(w, s, t),
        at(w, t, body, direct(st, e, env, name).env),
        holds(t, direct(st, e, env, name).x) == Some(v),
        keeps(s, t, env),
    decreases e, 1nat,
{
    let p = lemma_place(st, e, env, name);
    lemma_in_place(st, e, env, name);
    lemma_still(st);
    lemma_reach_now(w, s);
    match e {
        Term::Loc(loc, inner) => {
            let q = direct(st, *inner, env, name);
            lemma_plugged_both(seq![FrameV::Mark(loc)], q.frames, body);
            lemma_plugged_one(FrameV::Mark(loc), plugged(q.frames, body));
            let s1 = lemma_run_mark(w, s, loc, plugged(q.frames, body), env);
            lemma_in_env(w, st, e, env, rho, s);
            assert forall|y: Var| #[trigger] binds(*inner, y) implies binds(e, y) && !env.contains(y) by {
                assert(binds(e, y));
                assert(spare(st, env, y));
            }
            lemma_ready(w, st, e, env, rho, s, *inner, st, env, s1);
            let t = lemma_direct(w, st, *inner, env, name, rho, v, s1, body);
            lemma_reach_then(w, s, s1, t);
            t
        },
        Term::Var(x) => {
            assert(mentions(e, x));
            assert(known(st, rho, s, x));
            match name {
                None => {
                    lemma_plugged_none(body);
                    s
                },
                Some(y) => {
                    lemma_plugged_one(rename_v(x, y, env), body);
                    lemma_run_rename(w, s, x, y, env, body, v)
                },
            }
        },
        Term::Lit(l) => {
            let q = lemma_produced_at(st, Seq::empty(), ExternV::Lit(l), Seq::empty(), env, type_of(st, e), name);
            lemma_plugged_push(Seq::empty(), FrameV::Bind { op: ExternV::Lit(l), args: Seq::empty(), params: q.env }, body);
            lemma_plugged_none(filled(FrameV::Bind { op: ExternV::Lit(l), args: Seq::empty(), params: q.env }, body));
            lemma_last_op(w, st, e, env, rho, s, name, st, env, s, ExternV::Lit(l), Seq::empty(), Seq::empty(), v, body)
        },
        Term::Prim(f, xs, _) => lemma_direct_prim(w, st, e, env, name, rho, v, s, body),
        Term::Ctor(c, _, xs) => {
            assert(decreases_to!(e => xs@));
            assert(quiet(st, st.tagged(c)));
            assert(st.tags.contains_key(c));
            lemma_direct_data(w, st, e, c, xs@, env, name, rho, s, body)
        },
        Term::Tuple(xs) => {
            assert(decreases_to!(e => xs@));
            assert(quiet(st, st.tagged(symbol::TUPLE)));
            assert(st.tags.contains_key(symbol::TUPLE));
            lemma_direct_data(w, st, e, symbol::TUPLE, xs@, env, name, rho, s, body)
        },
        Term::Array(xs, _) => {
            assert(decreases_to!(e => xs@));
            let d = direct_all(st, xs@, xs@.len(), env);
            let q = lemma_produced_at(d.st, d.frames, ExternV::Array, d.done, d.env, type_of(st, e), name);
            let vs = all_mean(w, xs@, xs@.len(), rho)->0;
            let rest = filled(FrameV::Bind { op: ExternV::Array, args: d.done, params: q.env }, body);
            lemma_plugged_push(d.frames, FrameV::Bind { op: ExternV::Array, args: d.done, params: q.env }, body);
            lemma_ready_list(w, st, e, env, rho, s, xs@, st);
            lemma_place_all(st, xs@, xs@.len(), env);
            lemma_any(e, xs@, env, st, d.env, d.st);
            let t0 = lemma_direct_all(w, st, xs@, xs@.len(), env, rho, vs, s, rest);
            lemma_last_op(w, st, e, env, rho, s, name, d.st, d.env, t0, ExternV::Array, d.done, vs, v, body)
        },
        Term::Proj(b, i) => {
            let d = direct(st, *b, env, None);
            let q = lemma_produced_at(d.st, d.frames, ExternV::Field(i), seq![d.x], d.env, type_of(st, e), name);
            let u = means(w, *b, rho)->0;
            let rest = filled(FrameV::Bind { op: ExternV::Field(i), args: seq![d.x], params: q.env }, body);
            lemma_plugged_push(d.frames, FrameV::Bind { op: ExternV::Field(i), args: seq![d.x], params: q.env }, body);
            lemma_ready_now(w, st, e, env, rho, s, *b);
            lemma_place(st, *b, env, None);
            assert forall|n: Name| #[trigger] d.env.contains(n) implies env.contains(n) || binds(e, n) || st.next_name <= n
                < d.st.next_name by {
                assert(whence(*b, None, env, st, d.st, n));
            }
            let t0 = lemma_direct(w, st, *b, env, None, rho, u, s, rest);
            assert(all_hold(t0, seq![d.x], seq![u]));
            lemma_last_op(w, st, e, env, rho, s, name, d.st, d.env, t0, ExternV::Field(i), seq![d.x], seq![u], v, body)
        },
        Term::Let(x, _, rhs, inner) => lemma_direct_let(w, st, e, env, name, rho, v, s, body),
        _ => s,
    }
}

/// What a term looks at is in the environment.
pub proof fn lemma_in_env(w: World, st: St, e: Term, env: Seq<Name>, rho: Map<Var, ValueV>, s: S)
    requires
        ready(w, st, e, env, rho, s),
        s.names == env,
        s.env.len() == env.len(),
    ensures
        forall|v: Var| #[trigger] mentions(e, v) ==> env.contains(v),
{
    assert forall|v: Var| #[trigger] mentions(e, v) implies env.contains(v) by {
        assert(known(st, rho, s, v));
        lemma_has(s, v);
    }
}

#[verifier::spinoff_prover]
proof fn lemma_direct_data(
    w: World,
    st: St,
    e: Term,
    c: Sym,
    xs: Seq<Term>,
    env: Seq<Name>,
    name: Option<Name>,
    rho: Map<Var, ValueV>,
    s: S,
    body: StmtV,
) -> (t: S)
    requires
        forall|i: int| 0 <= i < xs.len() ==> flat(#[trigger] xs[i]),
        ready(w, st, e, env, rho, s),
        unused(st, e, env, name),
        match e {
            Term::Tuple(ys) => ys@ == xs && c == symbol::TUPLE,
            Term::Ctor(g, _, ys) => ys@ == xs && c == g,
            _ => false,
        },
        means(w, e, rho) is Some,
        direct(st, e, env, name).st.next_name < LAST,
        at(w, s, plugged(direct(st, e, env, name).frames, body), env),
    ensures
        reach(w, s, t),
        at(w, t, body, direct(st, e, env, name).env),
        Some(holds(t, direct(st, e, env, name).x)) == Some(means(w, e, rho)),
        keeps(s, t, env),
    decreases xs, xs.len() + 1,
{
    lemma_in_place(st, e, env, name);
    assert(w.tags.contains_key(c));
    assert(st.tags.contains_key(c));
    let tag = st.tag(c);
    lemma_still(st);
    assert(st.tagged(c) == st);
    let d = direct_all(st, xs, xs.len(), env);
    let q = lemma_built_at(d.st, d.frames, c, tag, d.done, d.env, type_of(st, e), name);
    let vs = all_mean(w, xs, xs.len(), rho)->0;
    let f = FrameV::Build { name: q.x, tag, ctor: c, fields: d.done };
    lemma_plugged_push(d.frames, f, body);
    lemma_ready_list(w, st, e, env, rho, s, xs, st);
    lemma_place_all(st, xs, xs.len(), env);
    lemma_any(e, xs, env, st, d.env, d.st);
    let t0 = lemma_direct_all(w, st, xs, xs.len(), env, rho, vs, s, filled(f, body));
    lemma_last_data(w, st, e, env, rho, s, name, d.st, d.env, t0, c, tag, d.done, vs, body)
}

#[verifier::spinoff_prover]
#[verifier::rlimit(40)]
proof fn lemma_direct_prim(
    w: World,
    st: St,
    e: Term,
    env: Seq<Name>,
    name: Option<Name>,
    rho: Map<Var, ValueV>,
    v: ValueV,
    s: S,
    body: StmtV,
) -> (t: S)
    requires
        flat(e),
        e is Prim,
        ready(w, st, e, env, rho, s),
        unused(st, e, env, name),
        means(w, e, rho) == Some(v),
        direct(st, e, env, name).st.next_name < LAST,
        at(w, s, plugged(direct(st, e, env, name).frames, body), env),
    ensures
        reach(w, s, t),
        at(w, t, body, direct(st, e, env, name).env),
        holds(t, direct(st, e, env, name).x) == Some(v),
        keeps(s, t, env),
    decreases e, 0nat,
{
    lemma_in_place(st, e, env, name);
    lemma_still(st);
    match e {
        Term::Prim(f, xs, _) => {
            assert(decreases_to!(e => xs@));
            match const_arg(f, xs@) {
                Some((i, l)) => {
                    let j = if i == 0 {
                        0int
                    } else {
                        1int
                    };
                    let x = xs@[j];
                    assert(decreases_to!(xs@ => x));
                    assert(flat(x));
                    let u = lemma_const(w, e, f, xs@, i, l, rho, v);
                    let d = direct(st, x, env, None);
                    let op = ExternV::PrimK(f, l);
                    let q = lemma_produced_at(d.st, d.frames, op, seq![d.x], d.env, type_of(st, e), name);
                    let fr = FrameV::Bind { op, args: seq![d.x], params: q.env };
                    lemma_plugged_push(d.frames, fr, body);
                    assert(neat_all(w, xs@));
                    assert(neat(w, xs@[j]));
                    lemma_ready_now(w, st, e, env, rho, s, x);
                    lemma_place(st, x, env, None);
                    assert forall|n: Name| #[trigger] d.env.contains(n) implies env.contains(n) || binds(e, n)
                        || st.next_name <= n < d.st.next_name by {
                        assert(whence(x, None, env, st, d.st, n));
                    }
                    let t0 = lemma_direct(w, st, x, env, None, rho, u, s, filled(fr, body));
                    assert(all_hold(t0, seq![d.x], seq![u]));
                    lemma_last_op(w, st, e, env, rho, s, name, d.st, d.env, t0, op, seq![d.x], seq![u], v, body)
                },
                None => {
                    let d = direct_all(st, xs@, xs@.len(), env);
                    let op = ExternV::Prim(f);
                    let q = lemma_produced_at(d.st, d.frames, op, d.done, d.env, type_of(st, e), name);
                    let vs = all_mean(w, xs@, xs@.len(), rho)->0;
                    let fr = FrameV::Bind { op, args: d.done, params: q.env };
                    lemma_plugged_push(d.frames, fr, body);
                    lemma_ready_list(w, st, e, env, rho, s, xs@, st);
                    lemma_place_all(st, xs@, xs@.len(), env);
                    lemma_any(e, xs@, env, st, d.env, d.st);
                    let t0 = lemma_direct_all(w, st, xs@, xs@.len(), env, rho, vs, s, filled(fr, body));
                    lemma_last_op(w, st, e, env, rho, s, name, d.st, d.env, t0, op, d.done, vs, v, body)
                },
            }
        },
        _ => s,
    }
}

/// What a `let` binds is held under its name.
pub proof fn lemma_ready_body(
    w: World,
    st: St,
    e: Term,
    env: Seq<Name>,
    rho: Map<Var, ValueV>,
    s: S,
    u: ValueV,
    st2: St,
    env2: Seq<Name>,
    s2: S,
)
    requires
        ready(w, st, e, env, rho, s),
        e is Let,
        quiet(st, st2),
        taken(st2, env2),
        grown(*e->Let_2, Some(e->Let_0), env, st, env2, st2),
        holds(s2, e->Let_0) == Some(u),
        forall|v: Var| #[trigger] mentions(*e->Let_3, v) && v != e->Let_0 ==> holds(s2, v) == holds(s, v),
    ensures
        ready(w, st2, *e->Let_3, env2, rho.insert(e->Let_0, u), s2),
{
    let x = e->Let_0;
    let b = *e->Let_3;
    let r = *e->Let_2;
    let rho2 = rho.insert(x, u);
    assert(binds(e, x));
    assert(spare(st, env, x));
    assert forall|v: Var| #[trigger] binds(b, v) implies spare(st2, env2, v) by {
        assert(binds(e, v));
        assert(spare(st, env, v));
        if env2.contains(v) {
            assert(whence(r, Some(x), env, st, st2, v));
            assert(binds(r, v));
        }
    }
    assert forall|v: Var| #[trigger] mentions(b, v) implies known(st2, rho2, s2, v) by {
        if v != x {
            assert(mentions(e, v));
            assert(known(st, rho, s, v));
        }
    }
    assert(numbered(w, st2)) by {
        assert forall|c: Sym| #[trigger] w.tags.contains_key(c) implies st2.tags.contains_key(c) && st2.tags[c]
            == w.tags[c] by {
            assert(st.tags.contains_key(c));
        }
    }
}

/// What a term left in the environment is taken.
pub proof fn lemma_taken(w: World, st: St, e: Term, env: Seq<Name>, rho: Map<Var, ValueV>, s: S, name: Option<Name>, st2: St, env2: Seq<Name>)
    requires
        ready(w, st, e, env, rho, s),
        unused(st, e, env, name),
        quiet(st, st2),
        grown(e, name, env, st, env2, st2),
    ensures
        taken(st2, env2),
{
    assert forall|n: Name| #[trigger] env2.contains(n) implies n < st2.next_name by {
        assert(whence(e, name, env, st, st2, n));
        if binds(e, n) {
            assert(spare(st, env, n));
        }
    }
}

#[verifier::spinoff_prover]
proof fn lemma_direct_let(
    w: World,
    st: St,
    e: Term,
    env: Seq<Name>,
    name: Option<Name>,
    rho: Map<Var, ValueV>,
    v: ValueV,
    s: S,
    body: StmtV,
) -> (t: S)
    requires
        flat(e),
        e is Let,
        ready(w, st, e, env, rho, s),
        unused(st, e, env, name),
        means(w, e, rho) == Some(v),
        direct(st, e, env, name).st.next_name < LAST,
        at(w, s, plugged(direct(st, e, env, name).frames, body), env),
    ensures
        reach(w, s, t),
        at(w, t, body, direct(st, e, env, name).env),
        holds(t, direct(st, e, env, name).x) == Some(v),
        keeps(s, t, env),
    decreases e, 0nat,
{
    lemma_in_place(st, e, env, name);
    match e {
        Term::Let(x, _, rhs, inner) => {
            assert(binds(e, x));
            assert(spare(st, env, x));
            let r = direct(st, *rhs, env, Some(x));
            let b = direct(r.st, *inner, r.env, name);
            let u = means(w, *rhs, rho)->0;
            lemma_ahead(r.st, *inner, r.env, name);
            lemma_place(st, *rhs, env, Some(x));
            lemma_plugged_both(r.frames, b.frames, body);
            lemma_ready_now(w, st, e, env, rho, s, *rhs);
            lemma_in_env(w, st, e, env, rho, s);
            let t0 = lemma_direct(w, st, *rhs, env, Some(x), rho, u, s, plugged(b.frames, body));
            lemma_taken(w, st, *rhs, env, rho, s, Some(x), r.st, r.env);
            assert forall|y: Var| #[trigger] mentions(*inner, y) && y != x implies holds(t0, y) == holds(s, y) by {
                assert(mentions(e, y));
                assert(env.contains(y));
            }
            lemma_ready_body(w, st, e, env, rho, s, u, r.st, r.env, t0);
            if let Some(y) = name {
                if r.env.contains(y) {
                    assert(whence(*rhs, Some(x), env, st, r.st, y));
                }
            }
            let t = lemma_direct(w, r.st, *inner, r.env, name, rho.insert(x, u), v, t0, body);
            lemma_reach_then(w, s, t0, t);
            lemma_kept_on(s, t0, t, env, r.env);
            t
        },
        _ => s,
    }
}

/// Running some terms where they stand, left to right, binds their values.
#[verifier::spinoff_prover]
pub proof fn lemma_direct_all(
    w: World,
    st: St,
    es: Seq<Term>,
    n: nat,
    env: Seq<Name>,
    rho: Map<Var, ValueV>,
    vs: Seq<ValueV>,
    s: S,
    body: StmtV,
) -> (t: S)
    requires
        n <= es.len(),
        forall|i: int| 0 <= i < es.len() ==> flat(#[trigger] es[i]),
        ready_all(w, st, es, env, rho, s),
        all_mean(w, es, n, rho) == Some(vs),
        direct_all(st, es, n, env).st.next_name < LAST,
        at(w, s, plugged(direct_all(st, es, n, env).frames, body), env),
    ensures
        reach(w, s, t),
        at(w, t, body, direct_all(st, es, n, env).env),
        all_hold(t, direct_all(st, es, n, env).done, vs),
        keeps(s, t, env),
    decreases es, n,
{
    if n == 0 {
        lemma_reach_now(w, s);
        lemma_plugged_none(body);
        s
    } else {
        let a = direct_all(st, es, (n - 1) as nat, env);
        let x = es[n - 1];
        assert(decreases_to!(es => x));
        let p = direct(a.st, x, a.env, None);
        let us = all_mean(w, es, (n - 1) as nat, rho)->0;
        let u = means(w, x, rho)->0;
        lemma_ahead(a.st, x, a.env, None);
        lemma_place_all(st, es, (n - 1) as nat, env);
        lemma_plugged_both(a.frames, p.frames, body);
        let t0 = lemma_direct_all(w, st, es, (n - 1) as nat, env, rho, us, s, plugged(p.frames, body));
        assert forall|v: Var| #[trigger] mentions(es[n - 1], v) implies holds(t0, v) == holds(s, v) by {
            assert(known(st, rho, s, v));
            lemma_has(s, v);
            assert(env.contains(v));
        }
        lemma_ready_item(w, st, es, env, rho, s, (n - 1) as nat, a.st, a.env, t0);
        let t = lemma_direct(w, a.st, x, a.env, None, rho, u, t0, body);
        lemma_reach_then(w, s, t0, t);
        lemma_kept_on(s, t0, t, env, a.env);
        let done = a.done.push(p.x);
        assert forall|i: int| 0 <= i < done.len() implies holds(t, #[trigger] done[i]) == Some(vs[i]) by {
            if i < a.done.len() {
                assert(done[i] == a.done[i]);
                assert(holds(t0, a.done[i]) == Some(us[i]));
                lemma_has(t0, a.done[i]);
                assert(a.env.contains(a.done[i]));
            }
        }
        t
    }
}

} // verus!
