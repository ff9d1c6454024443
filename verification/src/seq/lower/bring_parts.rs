//! Every name lowering uses is in the environment where it uses it: terms started and finished.

use super::frame::{built, made, plugged, produced, FrameV, PreV, SeveralV};
use super::going_parts::lemma_started;
use super::have::{
    brought, chained, from, leads, lemma_begin, lemma_bind_vars, lemma_brought, lemma_built, lemma_ended,
    lemma_leads_nowhere, lemma_made, lemma_plugged, lemma_produced, lemma_through, placed, sources,
};
use super::live::{needs_ev, restricted, wants_all};
use super::reach::{label_for, reaches, Kinds};
use super::rooted::{binds_var, rooted};
use super::scheme::{
    arms_want, begin, bind_vars, ended, instantiate, lower_var, simple, take_fields, take_refs, tuple_size, zipped,
    AllV, BoundV, SharedV,
};
use super::state::St;
use super::stride::{quiet, LAST};
use super::supply::{
    able, all_able, arms_able, lemma_able, lemma_able_more, lemma_able_on, lemma_all_kept, lemma_arms_kept,
    lemma_arms_on, lemma_keeps, lemma_nth, stocked,
};
use super::tree::DtV;
use super::went::{
    all_descs, fit, fit_all, fit_arms, lemma_ev, lemma_item, lemma_on, lemma_on_quietly, lemma_quietly,
    lemma_restricted, lemma_stay, lemma_went, okay, step, went,
};
use crate::seq::cover::{lemma_both, lemma_front, lemma_push, within};
use crate::seq::draw::{drawn, found, lemma_draw_error, lemma_draw_goto, lemma_draw_invoke, lemma_draw_ret};
use crate::seq::ir::{Label, Name, Tag};
use crate::seq::view::{ret_v, BlockV, ExternV, StmtV};
use crate::terms::symbol::Sym;
use crate::terms::term::{pattern_vars, peeled, Arm, Term, Var};
use crate::terms::ty::Ty;
use vstd::prelude::*;

verus! {

/// A statement lowered in `env`: it uses only names it has, as do the definitions
/// written on the way, where names have not run out.
pub open spec fn ran(kd: Kinds, st: St, r: (St, StmtV), env: Seq<Name>, ls: Set<Var>) -> bool {
    &&& went(kd, st, r.0, ls)
    &&& brought(r.0)
    &&& r.0.next_name < LAST ==> drawn(r.1, env, st.descs)
}

/// The same of what an object captures and its method.
pub open spec fn holding(kd: Kinds, st: St, r: (St, Seq<Name>, BlockV), env: Seq<Name>, ls: Set<Var>) -> bool {
    &&& went(kd, st, r.0, ls)
    &&& brought(r.0)
    &&& within(r.1, env)
    &&& r.0.next_name < LAST ==> drawn(r.2.body, r.2.params, st.descs)
}

/// The same of a term lowered in place, whose value has a name.
pub open spec fn at_hand(kd: Kinds, st: St, p: PreV, env: Seq<Name>, name: Option<Name>, ls: Set<Var>) -> bool {
    &&& went(kd, st, p.st, ls)
    &&& brought(p.st)
    &&& within(env, p.env)
    &&& p.env.contains(p.x)
    &&& name is Some ==> p.x == name->0
    &&& p.st.next_name < LAST ==> leads(p.frames, env, p.env, st.descs) && p.x < p.st.next_name
}

/// The same of several.
pub open spec fn all_at_hand(kd: Kinds, st: St, p: SeveralV, env: Seq<Name>, ls: Set<Var>) -> bool {
    &&& went(kd, st, p.st, ls)
    &&& brought(p.st)
    &&& within(env, p.env)
    &&& within(p.done, p.env)
    &&& p.st.next_name < LAST ==> leads(p.frames, env, p.env, st.descs)
}

/// Several terms started, each of which can still be finished.
#[verifier::opaque]
pub open spec fn begun(st: St, es: Seq<Term>, bs: Seq<BoundV>, ls: Set<Var>) -> bool {
    forall|i: int|
        0 <= i < bs.len() && i < es.len() ==> from(#[trigger] bs[i], bs[i].outer) && able(st, es[i], bs[i].outer, ls)
            && (st.next_name < LAST ==> placed(bs[i], st.descs))
}

pub open spec fn all_started(
    kd: Kinds,
    st: St,
    a: AllV,
    es: Seq<Term>,
    n: nat,
    env: Seq<Name>,
    base: Set<Name>,
    ls: Set<Var>,
) -> bool {
    &&& went(kd, st, a.st, ls)
    &&& brought(a.st)
    &&& a.bs.len() == n
    &&& a.done.len() == n
    &&& within(a.done, a.env)
    &&& begun(a.st, es, a.bs, ls)
    &&& chained(a.bs, env, a.env)
    &&& all_able(a.st, es.skip(n as int), a.env, ls)
    &&& forall|x: Name| base.contains(x) && env.contains(x) ==> #[trigger] a.env.contains(x)
}

/// The arguments of a call started.
pub open spec fn args_begun(st: St, t: Term, bs: Seq<BoundV>, ls: Set<Var>) -> bool
    decreases t,
{
    match t {
        Term::Loc(_, inner) => args_begun(st, *inner, bs, ls),
        Term::App(f, arg) => {
            &&& bs.len() > 0
            &&& from(bs.last(), bs.last().outer)
            &&& able(st, *arg, bs.last().outer, ls)
            &&& st.next_name < LAST ==> placed(bs.last(), st.descs)
            &&& args_begun(st, *f, bs.drop_last(), ls)
        },
        _ => bs.len() == 0,
    }
}

pub open spec fn args_started(
    kd: Kinds,
    st: St,
    a: AllV,
    t: Term,
    env: Seq<Name>,
    base: Set<Name>,
    later: Seq<Term>,
    ls: Set<Var>,
) -> bool {
    &&& went(kd, st, a.st, ls)
    &&& brought(a.st)
    &&& within(a.done, a.env)
    &&& args_begun(a.st, t, a.bs, ls)
    &&& chained(a.bs, env, a.env)
    &&& all_able(a.st, later, a.env, ls)
    &&& forall|x: Name| base.contains(x) && env.contains(x) ==> #[trigger] a.env.contains(x)
}

#[verifier::opaque]
pub open spec fn all_fit(kd: Kinds, xs: Seq<Term>, ls: Set<Var>) -> bool {
    forall|i: int| 0 <= i < xs.len() ==> fit(kd, #[trigger] xs[i], ls)
}

pub proof fn lemma_ran_on(kd: Kinds, a: St, b: St, r: (St, StmtV), env: Seq<Name>, ls: Set<Var>)
    requires
        went(kd, a, b, ls),
        ran(kd, b, r, env, ls),
    ensures
        ran(kd, a, r, env, ls),
{
    lemma_went(kd, a, b, ls);
    lemma_on(kd, a, b, r.0, ls);
}

pub proof fn lemma_hand_on(
    kd: Kinds,
    a: St,
    b: St,
    p: PreV,
    env: Seq<Name>,
    name: Option<Name>,
    ls: Set<Var>,
)
    requires
        went(kd, a, b, ls),
        at_hand(kd, b, p, env, name, ls),
    ensures
        at_hand(kd, a, p, env, name, ls),
{
    lemma_went(kd, a, b, ls);
    lemma_on(kd, a, b, p.st, ls);
}

pub proof fn lemma_ran_plugged(
    kd: Kinds,
    st: St,
    fs: Seq<FrameV>,
    r: (St, StmtV),
    env: Seq<Name>,
    at: Seq<Name>,
    ls: Set<Var>,
)
    requires
        ran(kd, st, r, at, ls),
        r.0.next_name < LAST ==> leads(fs, env, at, st.descs),
    ensures
        ran(kd, st, (r.0, plugged(fs, r.1)), env, ls),
{
    if r.0.next_name < LAST {
        lemma_plugged(fs, r.1, env, at, st.descs);
    }
}

/// A value bound behind frames that lead to where its operands are.
pub proof fn lemma_one_made(
    kd: Kinds,
    st: St,
    frames: Seq<FrameV>,
    op: ExternV,
    args: Seq<Name>,
    env: Seq<Name>,
    ty: Option<Ty>,
    name: Option<Name>,
    a: Seq<Name>,
    ls: Set<Var>,
)
    requires
        okay(kd, st),
        brought(st),
        within(a, env),
        within(args, env),
        st.next_name < LAST ==> leads(frames, a, env, st.descs),
        name is Some ==> name->0 < kd.lo,
    ensures
        at_hand(kd, st, produced(st, frames, op, args, env, ty, name), a, name, ls),
{
    super::stride::lemma_produced(st, frames, op, args, env, ty, name);
    lemma_produced(st, frames, op, args, env, ty, name, a, st.descs);
    let p = produced(st, frames, op, args, env, ty, name);
    lemma_quietly(kd, st, p.st, ls);
    lemma_brought(st, p.st);
    lemma_ev(kd, st);
    lemma_through(a, env, p.env);
}

pub proof fn lemma_one_built(
    kd: Kinds,
    st: St,
    frames: Seq<FrameV>,
    ctor: Sym,
    tag: Tag,
    fields: Seq<Name>,
    env: Seq<Name>,
    ty: Option<Ty>,
    name: Option<Name>,
    a: Seq<Name>,
    ls: Set<Var>,
)
    requires
        okay(kd, st),
        brought(st),
        within(a, env),
        within(fields, env),
        st.next_name < LAST ==> leads(frames, a, env, st.descs),
        name is Some ==> name->0 < kd.lo,
    ensures
        at_hand(kd, st, built(st, frames, ctor, tag, fields, env, ty, name), a, name, ls),
{
    super::stride::lemma_built(st, frames, ctor, tag, fields, env, ty, name);
    lemma_built(st, frames, ctor, tag, fields, env, ty, name, a, st.descs);
    let p = built(st, frames, ctor, tag, fields, env, ty, name);
    lemma_quietly(kd, st, p.st, ls);
    lemma_brought(st, p.st);
    lemma_ev(kd, st);
    lemma_through(a, env, p.env);
}

/// An object made where it stands.
pub proof fn lemma_made_held(
    kd: Kinds,
    st: St,
    st1: St,
    captures: Seq<Name>,
    method: BlockV,
    env: Seq<Name>,
    name: Option<Name>,
    ls: Set<Var>,
)
    requires
        holding(kd, st, (st1, captures, method), env, ls),
        name is Some ==> name->0 < kd.lo,
    ensures
        at_hand(kd, st, made(st1, captures, method, env, name), env, name, ls),
{
    super::stride::lemma_made(st1, captures, method, env, name);
    lemma_made(st1, captures, method, env, name, st.descs);
    let p = made(st1, captures, method, env, name);
    lemma_went(kd, st, st1, ls);
    lemma_on_quietly(kd, st, st1, p.st, ls);
    lemma_brought(st1, p.st);
    lemma_ev(kd, st1);
}

/// A value made and answered with.
pub proof fn lemma_answered(
    kd: Kinds,
    st: St,
    op: ExternV,
    args: Seq<Name>,
    env: Seq<Name>,
    ty: Option<Ty>,
    k: Name,
    ls: Set<Var>,
)
    requires
        okay(kd, st),
        brought(st),
        within(args, env),
        env.contains(k),
    ensures
        ({
            let p = produced(st, Seq::empty(), op, args, env, ty, None);
            ran(kd, st, (p.st, plugged(p.frames, ret_v(k, p.x))), env, ls)
        }),
{
    lemma_leads_nowhere(env, st.descs);
    lemma_one_made(kd, st, Seq::empty(), op, args, env, ty, None, env, ls);
    let p = produced(st, Seq::empty(), op, args, env, ty, None);
    lemma_draw_ret(k, p.x, p.env, st.descs);
    lemma_ran_plugged(kd, st, p.frames, (p.st, ret_v(k, p.x)), env, p.env, ls);
}

pub proof fn lemma_answered_with(
    kd: Kinds,
    st: St,
    ctor: Sym,
    tag: Tag,
    fields: Seq<Name>,
    env: Seq<Name>,
    ty: Option<Ty>,
    k: Name,
    ls: Set<Var>,
)
    requires
        okay(kd, st),
        brought(st),
        within(fields, env),
        env.contains(k),
    ensures
        ({
            let p = built(st, Seq::empty(), ctor, tag, fields, env, ty, None);
            ran(kd, st, (p.st, plugged(p.frames, ret_v(k, p.x))), env, ls)
        }),
{
    lemma_leads_nowhere(env, st.descs);
    lemma_one_built(kd, st, Seq::empty(), ctor, tag, fields, env, ty, None, env, ls);
    let p = built(st, Seq::empty(), ctor, tag, fields, env, ty, None);
    lemma_draw_ret(k, p.x, p.env, st.descs);
    lemma_ran_plugged(kd, st, p.frames, (p.st, ret_v(k, p.x)), env, p.env, ls);
}

/// A term started, in place or with a continuation to answer.
pub proof fn lemma_began(
    kd: Kinds,
    st: St,
    e: Term,
    env: Seq<Name>,
    keep: Seq<Name>,
    name: Option<Name>,
    p: PreV,
    ls: Set<Var>,
)
    requires
        okay(kd, st),
        brought(st),
        went(kd, st, p.st, ls),
        within(keep, env),
        simple(e, env) ==> at_hand(kd, st, p, env, name, ls),
        name is Some ==> name->0 < kd.lo,
    ensures
        ({
            let r = begin(st, e, env, keep, name, p);
            &&& went(kd, st, r.0, ls)
            &&& okay(kd, r.0)
            &&& step(st, r.0, ls)
            &&& r.0.ev == st.ev
            &&& r.0.tscope == st.tscope
            &&& brought(r.0)
            &&& from(r.1, env)
            &&& r.1.keep == keep
            &&& r.0.next_name < LAST ==> placed(r.1, st.descs) && r.1.x < r.0.next_name
            &&& within(keep, r.1.env)
            &&& name is Some ==> r.1.x == name->0
        }),
{
    lemma_started(kd, st, e, env, keep, name, p, ls);
    lemma_ev(kd, st);
    lemma_went(kd, st, p.st, ls);
    lemma_begin(st, e, env, keep, name, p, kd.lo);
    lemma_went(kd, st, begin(st, e, env, keep, name, p).0, ls);
}

/// A term that answers a continuation can be lowered where that is known.
pub proof fn lemma_again(kd: Kinds, a: St, st: St, t: Term, b: BoundV, ls: Set<Var>)
    requires
        went(kd, a, st, ls),
        able(a, t, b.outer, ls),
    ensures
        okay(kd, st),
        able(st, t, seq![b.kk] + b.outer, ls),
        (seq![b.kk] + b.outer).contains(b.kk),
{
    lemma_went(kd, a, st, ls);
    lemma_able_on(kd, a, st, t, b.outer, ls);
    lemma_front(b.kk, b.outer);
    lemma_able_more(st, t, b.outer, seq![b.kk] + b.outer, ls);
}

/// A started term finished.
pub proof fn lemma_closed(
    kd: Kinds,
    a: St,
    st: St,
    b: BoundV,
    body: StmtV,
    r: (St, StmtV),
    env: Seq<Name>,
    ls: Set<Var>,
)
    requires
        went(kd, a, st, ls),
        brought(st),
        from(b, env),
        st.next_name < LAST ==> placed(b, st.descs) && drawn(body, b.env, st.descs),
        !b.simple ==> ran(kd, st, r, seq![b.kk] + b.outer, ls),
    ensures
        ran(kd, a, ended(st, b, body, r), env, ls),
{
    lemma_went(kd, a, st, ls);
    let f = ended(st, b, body, r);
    assert(b.simple ==> f.0 == st) by {
        reveal(ended);
    }
    assert(!b.simple ==> f.0 == r.0) by {
        reveal(ended);
    }
    if !b.simple {
        lemma_went(kd, st, r.0, ls);
        lemma_on(kd, a, st, r.0, ls);
    }
    if f.0.next_name < LAST {
        lemma_ended(st, b, body, r, env, st.descs);
    }
}

// --- several terms ---

pub proof fn lemma_none_started(st: St, es: Seq<Term>, ls: Set<Var>)
    ensures
        begun(st, es, Seq::empty(), ls),
{
    reveal(begun);
}

pub proof fn lemma_started_on(kd: Kinds, a: St, b: St, es: Seq<Term>, bs: Seq<BoundV>, ls: Set<Var>)
    requires
        went(kd, a, b, ls),
        begun(a, es, bs, ls),
    ensures
        begun(b, es, bs, ls),
{
    reveal(begun);
    lemma_went(kd, a, b, ls);
    assert forall|i: int| 0 <= i < bs.len() && i < es.len() implies from(#[trigger] bs[i], bs[i].outer) && able(
        b,
        es[i],
        bs[i].outer,
        ls,
    ) && (b.next_name < LAST ==> placed(bs[i], b.descs)) by {
        lemma_able_on(kd, a, b, es[i], bs[i].outer, ls);
    }
}

pub proof fn lemma_nth_started(st: St, es: Seq<Term>, bs: Seq<BoundV>, i: int, ls: Set<Var>)
    requires
        begun(st, es, bs, ls),
        0 <= i < bs.len(),
        i < es.len(),
    ensures
        from(bs[i], bs[i].outer),
        able(st, es[i], bs[i].outer, ls),
        st.next_name < LAST ==> placed(bs[i], st.descs),
{
    reveal(begun);
}

pub proof fn lemma_one_started(
    kd: Kinds,
    a: St,
    b: St,
    es: Seq<Term>,
    bs: Seq<BoundV>,
    x: BoundV,
    env: Seq<Name>,
    ls: Set<Var>,
)
    requires
        went(kd, a, b, ls),
        begun(a, es, bs, ls),
        bs.len() < es.len(),
        from(x, env),
        able(a, es[bs.len() as int], env, ls),
        b.next_name < LAST ==> placed(x, b.descs),
    ensures
        begun(b, es, bs.push(x), ls),
{
    lemma_started_on(kd, a, b, es, bs, ls);
    lemma_able_on(kd, a, b, es[bs.len() as int], env, ls);
    reveal(begun);
    let now = bs.push(x);
    assert forall|i: int| 0 <= i < now.len() && i < es.len() implies from(#[trigger] now[i], now[i].outer) && able(
        b,
        es[i],
        now[i].outer,
        ls,
    ) && (b.next_name < LAST ==> placed(now[i], b.descs)) by {
        if i < bs.len() {
            assert(now[i] == bs[i]);
        }
    }
}

pub proof fn lemma_head(st: St, es: Seq<Term>, n: nat, env: Seq<Name>, ls: Set<Var>)
    requires
        all_able(st, es.skip(n as int), env, ls),
        n < es.len(),
    ensures
        able(st, es[n as int], env, ls),
{
    assert(es.skip(n as int)[0] == es[n as int]);
    lemma_nth(st, es.skip(n as int), env, ls, 0);
}

pub proof fn lemma_rest_kept(
    kd: Kinds,
    st: St,
    es: Seq<Term>,
    n: nat,
    want: Set<Name>,
    env: Seq<Name>,
    to: Seq<Name>,
    ls: Set<Var>,
)
    requires
        okay(kd, st),
        fit_all(kd, es, ls),
        0 < n <= es.len(),
        all_able(st, es.skip(n - 1), env, ls),
        within(restricted(env, want), to),
        forall|x: Name| #[trigger] wants_all(st, es.skip(n as int), Seq::empty()).contains(x) ==> want.contains(x),
    ensures
        all_able(st, es.skip(n as int), to, ls),
{
    let rest = es.skip(n as int);
    assert(all_able(st, rest, env, ls)) by {
        reveal(all_able);
        assert forall|i: int| 0 <= i < rest.len() implies able(st, #[trigger] rest[i], env, ls) by {
            assert(es.skip(n - 1)[i + 1] == rest[i]);
        }
    }
    assert forall|i: int| 0 <= i < rest.len() implies fit(kd, #[trigger] rest[i], ls) by {
        lemma_item(kd, es, ls, n + i);
    }
    lemma_all_kept(kd, st, rest, want, env, to, ls);
}

/// The values there were, and the one there is now, are kept.
pub proof fn lemma_done_kept(done: Seq<Name>, x: Name, env: Seq<Name>, want: Set<Name>, to: Seq<Name>)
    requires
        within(done, env),
        within(restricted(env, want), to),
        to.contains(x),
        forall|y: Name| #[trigger] done.to_set().contains(y) ==> want.contains(y),
    ensures
        within(done.push(x), to),
{
    lemma_push(done, x);
    assert forall|y: Name| #[trigger] done.push(x).contains(y) implies to.contains(y) by {
        if y != x {
            assert(done.contains(y));
            assert(done.to_set().contains(y));
            lemma_keeps(env, want, y, to);
        }
    }
}

pub proof fn lemma_none_later(kd: Kinds, st: St, env: Seq<Name>, ls: Set<Var>)
    ensures
        all_able(st, Seq::empty(), env, ls),
        all_fit(kd, Seq::empty(), ls),
{
    reveal(all_able);
    reveal(all_fit);
}

pub proof fn lemma_later(kd: Kinds, st: St, arg: Term, later: Seq<Term>, env: Seq<Name>, ls: Set<Var>)
    requires
        fit(kd, arg, ls),
        all_fit(kd, later, ls),
        able(st, arg, env, ls),
        all_able(st, later, env, ls),
    ensures
        all_fit(kd, seq![arg] + later, ls),
        all_able(st, seq![arg] + later, env, ls),
{
    reveal(all_able);
    reveal(all_fit);
    let now = seq![arg] + later;
    assert forall|i: int| 0 <= i < now.len() implies fit(kd, #[trigger] now[i], ls) && able(st, now[i], env, ls) by {
        if i > 0 {
            assert(now[i] == later[i - 1]);
        }
    }
}

pub proof fn lemma_first(kd: Kinds, st: St, arg: Term, later: Seq<Term>, env: Seq<Name>, ls: Set<Var>)
    requires
        all_able(st, seq![arg] + later, env, ls),
    ensures
        able(st, arg, env, ls),
        all_able(st, later, env, ls),
{
    reveal(all_able);
    let now = seq![arg] + later;
    assert(now[0] == arg);
    assert forall|i: int| 0 <= i < later.len() implies able(st, #[trigger] later[i], env, ls) by {
        assert(now[i + 1] == later[i]);
    }
}

pub proof fn lemma_later_kept(
    kd: Kinds,
    st: St,
    later: Seq<Term>,
    want: Set<Name>,
    env: Seq<Name>,
    to: Seq<Name>,
    ls: Set<Var>,
)
    requires
        okay(kd, st),
        all_fit(kd, later, ls),
        all_able(st, later, env, ls),
        within(restricted(env, want), to),
        forall|x: Name| #[trigger] wants_all(st, later, Seq::empty()).contains(x) ==> want.contains(x),
    ensures
        all_able(st, later, to, ls),
{
    reveal(all_fit);
    lemma_all_kept(kd, st, later, want, env, to, ls);
}

pub proof fn lemma_args_begun_on(kd: Kinds, a: St, b: St, t: Term, bs: Seq<BoundV>, ls: Set<Var>)
    requires
        went(kd, a, b, ls),
        args_begun(a, t, bs, ls),
    ensures
        args_begun(b, t, bs, ls),
    decreases t,
{
    lemma_went(kd, a, b, ls);
    match t {
        Term::Loc(_, inner) => {
            lemma_args_begun_on(kd, a, b, *inner, bs, ls);
        },
        Term::App(f, arg) => {
            lemma_able_on(kd, a, b, *arg, bs.last().outer, ls);
            lemma_args_begun_on(kd, a, b, *f, bs.drop_last(), ls);
        },
        _ => {},
    }
}

pub proof fn lemma_args_begun(st: St, t: Term, bs: Seq<BoundV>, ls: Set<Var>)
    requires
        args_begun(st, t, bs, ls),
    ensures
        match t {
            Term::Loc(_, inner) => args_begun(st, *inner, bs, ls),
            Term::App(f, arg) => {
                &&& bs.len() > 0
                &&& from(bs.last(), bs.last().outer)
                &&& able(st, *arg, bs.last().outer, ls)
                &&& st.next_name < LAST ==> placed(bs.last(), st.descs)
                &&& args_begun(st, *f, bs.drop_last(), ls)
            },
            _ => bs.len() == 0,
        },
{
}

pub proof fn lemma_no_args(st: St, t: Term, ls: Set<Var>)
    requires
        !(t is Loc),
        !(t is App),
    ensures
        args_begun(st, t, Seq::empty(), ls),
{
}

pub proof fn lemma_started_loc(st: St, t: Term, bs: Seq<BoundV>, ls: Set<Var>)
    requires
        t is Loc,
        args_begun(st, *t->Loc_1, bs, ls),
    ensures
        args_begun(st, t, bs, ls),
{
}

pub proof fn lemma_arg_started(
    kd: Kinds,
    a: St,
    b: St,
    t: Term,
    bs: Seq<BoundV>,
    x: BoundV,
    env: Seq<Name>,
    ls: Set<Var>,
)
    requires
        went(kd, a, b, ls),
        t is App,
        args_begun(a, *t->App_0, bs, ls),
        from(x, env),
        able(a, *t->App_1, env, ls),
        b.next_name < LAST ==> placed(x, b.descs),
    ensures
        args_begun(b, t, bs.push(x), ls),
{
    lemma_args_begun_on(kd, a, b, *t->App_0, bs, ls);
    lemma_able_on(kd, a, b, *t->App_1, env, ls);
    assert(bs.push(x).drop_last() =~= bs);
}

// --- labels ---

/// What a label takes is there where it is mentioned.
pub proof fn lemma_label_there(st: St, t: Term, v: Var, env: Seq<Name>, ls: Set<Var>)
    requires
        able(st, t, env, ls),
        reaches(t, v),
    ensures
        st.globals.contains_key(v) ==> within(st.globals[v].1, env),
        st.joins.contains_key(v) ==> within(st.joins[v].1, env),
        needs_ev(st, t) ==> env.contains(st.ev),
{
    lemma_able(st, t, env, ls);
    reveal(stocked);
    if st.globals.contains_key(v) {
        assert forall|n: Name| #[trigger] st.globals[v].1.contains(n) implies env.contains(n) by {
            assert(label_for(st, v, n));
        }
    }
    if st.joins.contains_key(v) {
        assert forall|n: Name| #[trigger] st.joins[v].1.contains(n) implies env.contains(n) by {
            assert(label_for(st, v, n));
        }
    }
}

pub proof fn lemma_var(kd: Kinds, st: St, v: Var, env: Seq<Name>, k: Name, ls: Set<Var>)
    requires
        okay(kd, st),
        able(st, Term::Var(v), env, ls),
        env.contains(k),
        brought(st),
    ensures
        ran(kd, st, lower_var(st, v, env, k), env, ls),
{
    lemma_stay(kd, st, ls);
    lemma_label_there(st, Term::Var(v), v, env, ls);
    if env.contains(v) {
        lemma_draw_ret(k, v, env, st.descs);
    } else if st.globals.contains_key(v) {
        let fvs = st.globals[v].1;
        lemma_push(fvs, k);
        lemma_push(fvs.push(k), st.ev);
        let all = if st.letrecs.contains(v) {
            fvs.push(k).push(st.ev)
        } else {
            fvs.push(k)
        };
        lemma_draw_goto(all, Label(st.globals[v].0), env, st.descs);
    } else {
        assert(quiet(st, st.lost()));
        lemma_quietly(kd, st, st.lost(), ls);
        lemma_brought(st, st.lost());
        lemma_draw_error(env, st.descs);
    }
}

proof fn lemma_peeled(st: St, t: Term, v: Var)
    requires
        peeled(t) == Term::Var(v),
    ensures
        reaches(t, v),
        needs_ev(st, t) == st.letrecs.contains(v),
    decreases t,
{
    if let Term::Loc(_, inner) = t {
        lemma_peeled(st, *inner, v);
    }
}

pub proof fn lemma_instantiate(
    kd: Kinds,
    st: St,
    t: Term,
    v: Var,
    ds: Seq<Name>,
    env: Seq<Name>,
    k: Name,
    ls: Set<Var>,
)
    requires
        okay(kd, st),
        peeled(t) == Term::Var(v),
        able(st, t, env, ls),
        found(ds, env, st.descs),
        env.contains(k),
        brought(st),
    ensures
        ran(kd, st, instantiate(st, v, ds, env, k), env, ls),
{
    reveal(instantiate);
    lemma_stay(kd, st, ls);
    lemma_peeled(st, t, v);
    lemma_label_there(st, t, v, env, ls);
    if env.contains(v) {
        lemma_both(seq![v], ds);
        lemma_push(seq![v] + ds, k);
        let sel = (seq![v] + ds).push(k);
        assert(sel[0] == v);
        assert forall|x: Name| #[trigger] sel.contains(x) implies env.contains(x) || st.descs.contains(x) by {
            if seq![v].contains(x) {
            }
        }
        lemma_draw_invoke(sel, v, env, st.descs);
    } else if st.globals.contains_key(v) {
        let fvs = st.globals[v].1;
        lemma_both(fvs, ds);
        lemma_push(fvs + ds, k);
        lemma_push((fvs + ds).push(k), st.ev);
        let all = if st.letrecs.contains(v) {
            (fvs + ds).push(k).push(st.ev)
        } else {
            (fvs + ds).push(k)
        };
        assert(found(all, env, st.descs));
        lemma_draw_goto(all, Label(st.globals[v].0), env, st.descs);
    } else {
        assert(quiet(st, st.lost()));
        lemma_quietly(kd, st, st.lost(), ls);
        lemma_brought(st, st.lost());
        lemma_draw_error(env, st.descs);
    }
}

pub proof fn lemma_scope_descs(kd: Kinds, st: St)
    requires
        okay(kd, st),
    ensures
        all_descs(st, st.tscope),
{
    reveal(okay);
}

// --- arms ---

/// Every name of a set is in the environment.
pub open spec fn holds(env: Seq<Name>, have: Set<Name>) -> bool {
    forall|n: Name| #[trigger] have.contains(n) ==> env.contains(n)
}

pub proof fn lemma_held(a: Seq<Name>, b: Seq<Name>, c: Seq<Name>, have: Set<Name>)
    requires
        holds(a, have),
        within(a, b),
        within(b, c),
    ensures
        holds(c, have),
{
}

/// Every arm of a switch uses only names it has.
#[verifier::opaque]
pub open spec fn all_drawn(cases: Seq<(Tag, BlockV)>, also: Set<Name>) -> bool {
    forall|i: int| 0 <= i < cases.len() ==> drawn((#[trigger] cases[i]).1.body, cases[i].1.params, also)
}

pub proof fn lemma_switched(cases: Seq<(Tag, BlockV)>, also: Set<Name>)
    requires
        all_drawn(cases, also),
    ensures
        forall|i: int| 0 <= i < cases.len() ==> drawn((#[trigger] cases[i]).1.body, cases[i].1.params, also),
{
    reveal(all_drawn);
}

pub proof fn lemma_one_drawn(cases: Seq<(Tag, BlockV)>, tag: Tag, block: BlockV, also: Set<Name>)
    requires
        all_drawn(cases, also),
        drawn(block.body, block.params, also),
    ensures
        all_drawn(cases.push((tag, block)), also),
{
    reveal(all_drawn);
}

/// What shared arms take is there, but for their patterns' variables.
#[verifier::opaque]
pub open spec fn shared_well(shared: Seq<Option<SharedV>>, arms: Seq<Arm>, env: Seq<Name>, ev: Name) -> bool {
    forall|i: int|
        0 <= i < shared.len() && i < arms.len() ==> match #[trigger] shared[i] {
            Some(sa) => {
                &&& within(sa.fvs, env)
                &&& sa.vars == pattern_vars(Seq::empty(), arms[i].pat)
                &&& sa.ev ==> env.contains(ev)
            },
            None => true,
        }
}

pub proof fn lemma_unneeded(st: St, t: Term, env: Seq<Name>, ls: Set<Var>)
    requires
        stocked(st, t, env, ls),
        !needs_ev(st, t),
    ensures
        able(st, t, env, ls),
{
    reveal(able);
}

pub proof fn lemma_taken(st: St, n: nat)
    ensures
        take_refs(st, n).1.len() == n,
    decreases n,
{
    reveal_with_fuel(take_refs, 2);
    if n > 0 {
        lemma_taken(st, (n - 1) as nat);
    }
}

pub proof fn lemma_binds_grow(binds: Seq<(Name, Name)>, n: nat, env: Seq<Name>)
    ensures
        within(env, bind_vars(binds, n, env).1),
    decreases n,
{
    if n > 0 && n <= binds.len() {
        lemma_binds_grow(binds, (n - 1) as nat, env);
        lemma_push(bind_vars(binds, (n - 1) as nat, env).1, binds[n - 1].0);
    }
}

pub open spec fn taken_names(fields: Seq<(usize, Name)>) -> Set<Name> {
    Set::new(|n: Name| exists|i: int| 0 <= i < fields.len() && (#[trigger] fields[i]).1 == n)
}

pub proof fn lemma_fields_grow(occ: Name, fields: Seq<(usize, Name)>, n: nat, env: Seq<Name>)
    requires
        n <= fields.len(),
    ensures
        within(env, take_fields(occ, fields, n, env).1),
        forall|i: int| 0 <= i < n ==> take_fields(occ, fields, n, env).1.contains((#[trigger] fields[i]).1),
    decreases n,
{
    if n > 0 {
        lemma_fields_grow(occ, fields, (n - 1) as nat, env);
        lemma_front(fields[n - 1].1, take_fields(occ, fields, (n - 1) as nat, env).1);
    }
}

/// The variables of the arm at a leaf are bound there.
pub proof fn lemma_arm_vars(dt: DtV, arms: Seq<Arm>, have: Set<Name>, env: Seq<Name>, to: Seq<Name>)
    requires
        rooted(dt, arms, have),
        dt is Leaf,
        forall|i: int| 0 <= i < dt->binds.len() ==> env.contains((#[trigger] dt->binds[i]).0),
        within(env, to),
    ensures
        dt->arm < arms.len() ==> within(pattern_vars(Seq::empty(), arms[dt->arm as int].pat), to),
{
    if dt->arm < arms.len() {
        let vars = pattern_vars(Seq::empty(), arms[dt->arm as int].pat);
        assert forall|v: Var| #[trigger] vars.contains(v) implies to.contains(v) by {
            assert(binds_var(dt->binds, v));
            let i = choose|i: int| 0 <= i < dt->binds.len() && (#[trigger] dt->binds[i]).0 == v;
            assert(env.contains(dt->binds[i].0));
        }
    }
}

// --- the items of a tuple ---

pub open spec fn items_begun(st: St, t: Term, bs: Seq<BoundV>, ls: Set<Var>) -> bool
    decreases t,
{
    match t {
        Term::Loc(_, inner) => items_begun(st, *inner, bs, ls),
        Term::Tuple(items) => begun(st, items@, bs, ls) && bs.len() == items@.len(),
        _ => false,
    }
}

pub open spec fn items_started(
    kd: Kinds,
    st: St,
    a: AllV,
    t: Term,
    env: Seq<Name>,
    base: Set<Name>,
    ls: Set<Var>,
) -> bool {
    &&& went(kd, st, a.st, ls)
    &&& brought(a.st)
    &&& within(a.done, a.env)
    &&& tuple_size(t) == Some(a.done.len())
    &&& items_begun(a.st, t, a.bs, ls)
    &&& chained(a.bs, env, a.env)
    &&& forall|x: Name| base.contains(x) && env.contains(x) ==> #[trigger] a.env.contains(x)
}

pub proof fn lemma_items_loc(
    kd: Kinds,
    st: St,
    a: AllV,
    t: Term,
    env: Seq<Name>,
    base: Set<Name>,
    ls: Set<Var>,
)
    requires
        t is Loc,
        items_started(kd, st, a, *t->Loc_1, env, base, ls),
    ensures
        items_started(kd, st, a, t, env, base, ls),
{
}

/// Names for a tuple's items, given their values.
pub proof fn lemma_tuple_env(names: Seq<Name>, done: Seq<Name>, env: Seq<Name>, also: Set<Name>)
    requires
        names.len() == done.len(),
        within(done, env),
    ensures
        ({
            let binds = zipped(names, done);
            let (frames, to) = bind_vars(binds, binds.len(), env);
            &&& leads(frames, env, to, also)
            &&& within(env, to)
            &&& holds(to, names.to_set())
        }),
{
    let binds = zipped(names, done);
    let (frames, to) = bind_vars(binds, binds.len(), env);
    assert(sources(binds, env)) by {
        assert forall|i: int| 0 <= i < binds.len() implies env.contains((#[trigger] binds[i]).1) by {
            assert(done.contains(done[i]));
        }
    }
    lemma_bind_vars(binds, binds.len(), env, also);
    assert forall|n: Name| #[trigger] names.to_set().contains(n) implies to.contains(n) by {
        let i = choose|i: int| 0 <= i < names.len() && names[i] == n;
        assert(to.contains(binds[i].0));
    }
}

pub proof fn lemma_items_begun_on(kd: Kinds, a: St, b: St, t: Term, bs: Seq<BoundV>, ls: Set<Var>)
    requires
        went(kd, a, b, ls),
        items_begun(a, t, bs, ls),
    ensures
        items_begun(b, t, bs, ls),
    decreases t,
{
    match t {
        Term::Loc(_, inner) => {
            lemma_items_begun_on(kd, a, b, *inner, bs, ls);
        },
        Term::Tuple(items) => {
            lemma_started_on(kd, a, b, items@, bs, ls);
        },
        _ => {},
    }
}

/// The arms can be lowered where what they want was kept.
pub proof fn lemma_keeps_all(
    kd: Kinds,
    st: St,
    st1: St,
    arms: Seq<Arm>,
    env: Seq<Name>,
    want: Set<Name>,
    to: Seq<Name>,
    ls: Set<Var>,
)
    requires
        went(kd, st, st1, ls),
        fit_arms(kd, arms, ls),
        arms_able(st, arms, env, ls),
        forall|n: Name| #[trigger] arms_want(st, arms).contains(n) ==> want.contains(n),
        forall|x: Name| want.contains(x) && env.contains(x) ==> #[trigger] to.contains(x),
    ensures
        arms_able(st1, arms, to, ls),
{
    assert(okay(kd, st)) by {
        reveal(went);
    }
    assert forall|n: Name| #[trigger] restricted(env, want).contains(n) implies to.contains(n) by {
        super::went::lemma_restricted(env, want, n);
    }
    lemma_arms_kept(kd, st, arms, want, env, to, ls);
    lemma_arms_on(kd, st, st1, arms, to, ls);
}

} // verus!
