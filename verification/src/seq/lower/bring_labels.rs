//! Every name lowering uses is in the environment where it uses it: labels that are made.

use super::live::{bound_by, restricted, wants};
use super::reach::{
    apart, clauses_tidy, label_for, lemma_made_apart, lemma_wanted, makes, parted, reaches, tidy, Kinds,
};
use super::scheme::{assemble, group_wants, register, resumed_with, take_labels, StepV};
use super::state::St;
use super::stride::same_at;
use super::supply::{able, clear, lemma_able, own, stocked};
use super::went::{fit, fit_clauses, fit_rhs, lemma_ev, lemma_parts, lemma_restricted, okay};
use crate::seq::cover::{lemma_front, within};
use crate::seq::draw::{drawn, lemma_draw_let, lemma_draw_object, lemma_draw_one};
use crate::seq::ir::Name;
use crate::seq::view::{let_v, new_v, one_v, BlockV, ExternV, StmtV};
use crate::terms::prim::Lit;
use crate::terms::symbol::Sym;
use crate::terms::term::{HClause, Term, Var};
use crate::terms::ty::Poly;
use vstd::prelude::*;

verus! {

/// A join point's block does not mention the join point.
pub proof fn lemma_join_rhs(st: St, at: St, rhs: Term, var: Var, to: (u32, Seq<Name>), env: Seq<Name>, ls: Set<Var>)
    requires
        stocked(st, rhs, env, ls),
        !reaches(rhs, var),
        at.globals == st.globals,
        at.joins == st.joins.insert(var, to),
    ensures
        stocked(at, rhs, env, ls),
{
    reveal(stocked);
    assert forall|v: Var, n: Name| #[trigger] reaches(rhs, v) && #[trigger] label_for(at, v, n) implies env.contains(n) by {
        assert(v != var);
        assert(label_for(st, v, n));
    }
}

/// What follows a join point can be lowered where the join point is known.
pub proof fn lemma_join_body(
    kd: Kinds,
    st: St,
    at: St,
    st6: St,
    e: Term,
    label: u32,
    fvs: Seq<Name>,
    env: Seq<Name>,
    ls: Set<Var>,
)
    requires
        e is Join,
        tidy(kd, e),
        okay(kd, st6),
        able(st, e, env, ls),
        clear(own(*e->Join_body), *e->Join_body),
        within(fvs, env),
        at.globals == st.globals,
        at.joins == st.joins.insert(e->Join_var, (label, fvs)),
        forall|v: Var| !own(*e->Join_rhs).contains(v) ==> #[trigger] same_at(at, st6, v),
        st6.ev == st.ev,
    ensures
        able(st6, *e->Join_body, env, own(*e->Join_body)),
{
    lemma_able(st, e, env, ls);
    if let Term::Join { var, rhs, body, .. } = e {
        lemma_ev(kd, st6);
        reveal(stocked);
        reveal(able);
        assert forall|v: Var, n: Name| #[trigger] reaches(*body, v) && #[trigger] label_for(st6, v, n) implies env.contains(
            n,
        ) by {
            assert(!own(*rhs).contains(v)) by {
                if makes(*rhs, v) {
                    assert(apart(*rhs, *body));
                }
            }
            assert(same_at(at, st6, v));
            if v == var {
                assert(!st6.globals.contains_key(v)) by {
                    if st6.globals.contains_key(v) {
                        assert(kd.g.contains(v));
                    }
                }
                assert(fvs.contains(n));
            } else {
                assert(label_for(st, v, n));
                assert(reaches(e, v));
            }
        }
    }
}

pub open spec fn rhs_labels(binds: Seq<(Var, Poly, Term)>) -> Set<Var> {
    Set::new(|v: Var| exists|i: int| 0 <= i < binds.len() && makes((#[trigger] binds[i]).2, v))
}

#[verifier::opaque]
pub open spec fn rhs_stocked(st: St, binds: Seq<(Var, Poly, Term)>, env: Seq<Name>, ls: Set<Var>) -> bool {
    forall|i: int| 0 <= i < binds.len() ==> stocked(st, (#[trigger] binds[i]).2, env, ls)
}

pub proof fn lemma_nth_rhs(
    a: St,
    b: St,
    binds: Seq<(Var, Poly, Term)>,
    env: Seq<Name>,
    i: int,
    ls: Set<Var>,
)
    requires
        rhs_stocked(a, binds, env, ls),
        0 <= i < binds.len(),
        forall|v: Var| !ls.contains(v) ==> #[trigger] same_at(a, b, v),
    ensures
        stocked(b, binds[i].2, env, ls),
{
    reveal(rhs_stocked);
    reveal(stocked);
    let t = binds[i].2;
    assert(stocked(a, binds[i].2, env, ls));
    assert forall|v: Var, n: Name| #[trigger] reaches(t, v) && #[trigger] label_for(b, v, n) implies env.contains(n) by {
        assert(!ls.contains(v));
        assert(same_at(a, b, v));
        assert(label_for(a, v, n));
    }
}

/// No right-hand side of a group mentions a label that one of them makes.
pub proof fn lemma_rhs_clear(kd: Kinds, e: Term, ls: Set<Var>)
    requires
        e is LetRec,
        tidy(kd, e),
        ls == rhs_labels(e->LetRec_0@),
    ensures
        fit_rhs(kd, e->LetRec_0@, ls),
        forall|i: int| 0 <= i < e->LetRec_0@.len() ==> clear(ls, (#[trigger] e->LetRec_0@[i]).2),
        clear(ls, *e->LetRec_1),
{
    reveal(fit_rhs);
    reveal(fit);
    if let Term::LetRec(binds, body) = e {
        let bs = binds@;
        assert forall|i: int| 0 <= i < bs.len() implies fit(kd, (#[trigger] bs[i]).2, ls) && clear(ls, bs[i].2) by {
            assert forall|v: Var| #[trigger] makes(bs[i].2, v) implies ls.contains(v) by {}
            assert forall|v: Var| #[trigger] ls.contains(v) implies !reaches(bs[i].2, v) by {
                let j = choose|j: int| 0 <= j < bs.len() && makes((#[trigger] bs[j]).2, v);
                if i == j {
                    lemma_made_apart(kd, bs[i].2, v);
                } else {
                    assert(apart(bs[j].2, bs[i].2));
                }
            }
        }
        assert forall|v: Var| #[trigger] ls.contains(v) implies !reaches(*body, v) by {
            let j = choose|j: int| 0 <= j < bs.len() && makes((#[trigger] bs[j]).2, v);
            assert(parted(bs[j].2, *body));
        }
    }
}

/// Which bindings a group is known by.
pub proof fn lemma_register(st: St, vs: Seq<Var>, labels: Seq<u32>, fvs: Seq<Name>, n: nat)
    requires
        n <= vs.len(),
    ensures
        ({
            let r = register(st, vs, labels, fvs, n);
            &&& r.joins == st.joins
            &&& r.ev == st.ev
            &&& forall|v: Var| #[trigger] r.globals.contains_key(v) && !st.globals.contains_key(v) ==> vs.contains(v)
            &&& forall|v: Var| #[trigger]
                r.globals.contains_key(v) ==> r.globals[v].1 == fvs || (st.globals.contains_key(v) && r.globals[v]
                    == st.globals[v])
            &&& forall|i: int| 0 <= i < n ==> r.globals.contains_key(#[trigger] vs[i]) && r.globals[vs[i]].1 == fvs
            &&& forall|v: Var| #[trigger] r.globals.contains_key(v) && !vs.contains(v) ==> st.globals.contains_key(v)
                && r.globals[v] == st.globals[v]
        }),
    decreases n,
{
    if n > 0 {
        lemma_register(st, vs, labels, fvs, (n - 1) as nat);
        assert(vs.contains(vs[n - 1]));
    }
}

pub proof fn lemma_labels_kept(st: St, n: nat)
    ensures
        take_labels(st, n).0.globals == st.globals,
        take_labels(st, n).0.joins == st.joins,
        take_labels(st, n).0.ev == st.ev,
    decreases n,
{
    if n > 0 {
        lemma_labels_kept(st, (n - 1) as nat);
    }
}

/// What a group captures is all its bindings need, but for evidence.
pub proof fn lemma_group_stocked(
    kd: Kinds,
    st: St,
    st2: St,
    e: Term,
    fvs: Seq<Name>,
    env: Seq<Name>,
    ls: Set<Var>,
)
    requires
        e is LetRec,
        tidy(kd, e),
        okay(kd, st),
        able(st, e, env, ls),
        fvs == restricted(env, group_wants(st, e->LetRec_0@)),
        st2.joins == st.joins,
        forall|v: Var| #[trigger] st2.globals.contains_key(v) ==> st2.globals[v].1 == fvs || (st.globals.contains_key(v)
            && st2.globals[v] == st.globals[v]),
        forall|v: Var| #[trigger] st2.globals.contains_key(v) && !bound_by(e->LetRec_0@).contains(v)
            ==> st.globals.contains_key(v) && st2.globals[v] == st.globals[v],
        forall|i: int| 0 <= i < e->LetRec_0@.len() ==> clear(
            rhs_labels(e->LetRec_0@),
            (#[trigger] e->LetRec_0@[i]).2,
        ),
        forall|i: int| 0 <= i < bound_by(e->LetRec_0@).len() ==> st2.globals.contains_key(
            #[trigger] bound_by(e->LetRec_0@)[i],
        ) && st2.globals[bound_by(e->LetRec_0@)[i]].1 == fvs,
        forall|i: int| 0 <= i < e->LetRec_0@.len() ==> kd.g.contains((#[trigger] e->LetRec_0@[i]).0),
    ensures
        rhs_stocked(st2, e->LetRec_0@, fvs, rhs_labels(e->LetRec_0@)),
{
    lemma_able(st, e, env, ls);
    lemma_ev(kd, st);
    reveal(stocked);
    reveal(rhs_stocked);
    if let Term::LetRec(binds, body) = e {
        let bs = binds@;
        let vs = bound_by(bs);
        assert forall|i: int| 0 <= i < bs.len() implies stocked(st2, (#[trigger] bs[i]).2, fvs, rhs_labels(bs)) by {
            let t = bs[i].2;
            assert forall|v: Var, n: Name| #[trigger] reaches(t, v) && #[trigger] label_for(st2, v, n) implies fvs.contains(
                n,
            ) by {
                if vs.contains(v) {
                    let j = choose|j: int| 0 <= j < vs.len() && vs[j] == v;
                    assert(kd.g.contains(bs[j].0));
                    assert(st2.globals.contains_key(vs[j]) && st2.globals[vs[j]].1 == fvs);
                    assert(!st.joins.contains_key(v)) by {
                        if st.joins.contains_key(v) {
                            assert(kd.j.contains(v));
                        }
                    }
                } else {
                    assert(label_for(st, v, n));
                    assert(reaches(e, v));
                    assert(env.contains(n));
                    lemma_wanted(kd, st, t, vs, v, n);
                    assert(n < kd.lo) by {
                        if st.globals.contains_key(v) && st.globals[v].1.contains(n) {
                        } else {
                            assert(st.joins.contains_key(v));
                        }
                    }
                    assert(wants(st, bs[i].2, vs).contains(n));
                    lemma_restricted(env, group_wants(st, bs), n);
                }
            }
        }
    }
}

/// What follows a group can be lowered where the group is known.
pub proof fn lemma_letrec_body(
    kd: Kinds,
    st: St,
    st2: St,
    st3: St,
    e: Term,
    fvs: Seq<Name>,
    env: Seq<Name>,
    ls: Set<Var>,
)
    requires
        e is LetRec,
        able(st, e, env, ls),
        okay(kd, st3),
        within(fvs, env),
        clear(own(*e->LetRec_1), *e->LetRec_1),
        clear(rhs_labels(e->LetRec_0@), *e->LetRec_1),
        st2.joins == st.joins,
        st3.ev == st.ev,
        forall|v: Var| #[trigger] st2.globals.contains_key(v) && !bound_by(e->LetRec_0@).contains(v)
            ==> st.globals.contains_key(v) && st2.globals[v] == st.globals[v],
        forall|i: int| 0 <= i < bound_by(e->LetRec_0@).len() ==> st2.globals.contains_key(
            #[trigger] bound_by(e->LetRec_0@)[i],
        ) && st2.globals[bound_by(e->LetRec_0@)[i]].1 == fvs,
        forall|i: int| 0 <= i < e->LetRec_0@.len() ==> kd.g.contains((#[trigger] e->LetRec_0@[i]).0),
        forall|v: Var| !rhs_labels(e->LetRec_0@).contains(v) ==> #[trigger] same_at(st2, st3, v),
    ensures
        able(st3, *e->LetRec_1, env, own(*e->LetRec_1)),
{
    lemma_able(st, e, env, ls);
    lemma_ev(kd, st3);
    reveal(stocked);
    reveal(able);
    if let Term::LetRec(binds, body) = e {
        let vs = bound_by(binds@);
        assert forall|v: Var, n: Name| #[trigger] reaches(*body, v) && #[trigger] label_for(st3, v, n) implies env.contains(
            n,
        ) by {
            assert(!rhs_labels(binds@).contains(v));
            assert(same_at(st2, st3, v));
            if vs.contains(v) {
                let j = choose|j: int| 0 <= j < vs.len() && vs[j] == v;
                assert(kd.g.contains(binds@[j].0));
                assert(st2.globals.contains_key(vs[j]) && st2.globals[vs[j]].1 == fvs);
                assert(!st3.joins.contains_key(v)) by {
                    if st3.joins.contains_key(v) {
                        assert(kd.j.contains(v));
                    }
                }
                assert(fvs.contains(n));
            } else {
                assert(label_for(st, v, n));
                assert(reaches(e, v));
            }
        }
    }
}

// --- handlers ---

/// Does step `s`, taken in `env`, use only names it has?
pub open spec fn step_fits(s: StepV, env: Seq<Name>, also: Set<Name>) -> bool {
    match s {
        StepV::Object(_, captures, method) => within(captures, env) && drawn(method.body, method.params, also),
        StepV::Key(_, _, before) => before == env,
        StepV::Entry(_, _, fields) => within(fields, env),
    }
}

pub open spec fn step_name(s: StepV) -> Name {
    match s {
        StepV::Object(x, _, _) => x,
        StepV::Key(x, _, _) => x,
        StepV::Entry(x, _, _) => x,
    }
}

/// Steps lead from `a` to `b`.
pub open spec fn stepped(steps: Seq<StepV>, a: Seq<Name>, b: Seq<Name>, also: Set<Name>) -> bool
    decreases steps.len(),
{
    if steps.len() == 0 {
        a == b
    } else {
        &&& b == seq![step_name(steps.last())] + b.skip(1)
        &&& step_fits(steps.last(), b.skip(1), also)
        &&& stepped(steps.drop_last(), a, b.skip(1), also)
    }
}

pub proof fn lemma_no_steps(a: Seq<Name>, also: Set<Name>)
    ensures
        stepped(Seq::empty(), a, a, also),
{
}

pub proof fn lemma_step_on(steps: Seq<StepV>, s: StepV, a: Seq<Name>, b: Seq<Name>, also: Set<Name>)
    requires
        stepped(steps, a, b, also),
        step_fits(s, b, also),
    ensures
        stepped(steps.push(s), a, seq![step_name(s)] + b, also),
{
    assert(steps.push(s).drop_last() =~= steps);
    assert((seq![step_name(s)] + b).skip(1) =~= b);
}

pub proof fn lemma_assembled(
    st: St,
    steps: Seq<StepV>,
    n: nat,
    stmt: StmtV,
    a: Seq<Name>,
    b: Seq<Name>,
    also: Set<Name>,
)
    requires
        n <= steps.len(),
        stepped(steps.take(n as int), a, b, also),
        drawn(stmt, b, also),
    ensures
        drawn(assemble(st, steps, n, stmt).1, a, also),
    decreases n,
{
    if n > 0 {
        let now = steps.take(n as int);
        assert(now.drop_last() =~= steps.take(n - 1));
        assert(now.last() == steps[n - 1]);
        let m = b.skip(1);
        match steps[n - 1] {
            StepV::Object(x, captures, method) => {
                lemma_draw_object(x, captures, method, stmt, m, also);
                lemma_assembled(st, steps, (n - 1) as nat, new_v(x, captures, method, stmt), a, m, also);
            },
            StepV::Key(x, sym, before) => {
                let op = ExternV::Lit(Lit::Sym(sym));
                lemma_draw_one(op, Seq::empty(), seq![x] + before, stmt, m, also);
                let s = one_v(op, Seq::empty(), seq![x] + before, stmt);
                lemma_assembled(st, steps, (n - 1) as nat, s, a, m, also);
            },
            StepV::Entry(x, ctor, fields) => {
                lemma_draw_let(x, st.tag(ctor), ctor, fields, stmt, m, also);
                let s = let_v(x, st.tag(ctor), ctor, fields, stmt);
                lemma_assembled(st.tagged(ctor), steps, (n - 1) as nat, s, a, m, also);
            },
        }
    }
}

/// The three steps of a clause.
pub proof fn lemma_clause_steps(
    steps: Seq<StepV>,
    env: Seq<Name>,
    cur: Seq<Name>,
    obj: Name,
    captures: Seq<Name>,
    method: BlockV,
    key: Name,
    sym: Sym,
    entry: Name,
    ctor: Sym,
    target: Name,
    ev: Name,
    also: Set<Name>,
    there: bool,
)
    requires
        within(env, cur),
        within(captures, cur),
        cur.contains(ev),
        cur.contains(target),
        there ==> stepped(steps, env, cur, also) && drawn(method.body, method.params, also),
    ensures
        ({
            let at_obj = seq![obj] + cur;
            let at_key = seq![key] + at_obj;
            let at = seq![entry] + at_key;
            &&& within(env, at)
            &&& at.contains(entry)
            &&& there ==> stepped(
                steps.push(StepV::Object(obj, captures, method)).push(StepV::Key(key, sym, at_obj)).push(
                    StepV::Entry(entry, ctor, seq![key, obj, target, ev]),
                ),
                env,
                at,
                also,
            )
        }),
{
    let at_obj = seq![obj] + cur;
    let at_key = seq![key] + at_obj;
    lemma_front(obj, cur);
    lemma_front(key, at_obj);
    lemma_front(entry, at_key);
    if there {
        let one = StepV::Object(obj, captures, method);
        let two = StepV::Key(key, sym, at_obj);
        let three = StepV::Entry(entry, ctor, seq![key, obj, target, ev]);
        lemma_step_on(steps, one, env, cur, also);
        lemma_step_on(steps.push(one), two, env, at_obj, also);
        assert(within(seq![key, obj, target, ev], at_key));
        lemma_step_on(steps.push(one).push(two), three, env, at_key, also);
    }
}

pub proof fn lemma_clause_plain(kd: Kinds, cs: Seq<HClause>, ls: Set<Var>, i: int)
    requires
        fit_clauses(kd, cs, ls),
        0 <= i < cs.len(),
    ensures
        kd.plain(cs[i].param),
        kd.plain(cs[i].resume),
{
    reveal(fit_clauses);
    assert(clauses_tidy(kd, cs));
}

pub proof fn lemma_resumed_parts(kd: Kinds, st: St, t: Term, env: Seq<Name>, ls: Set<Var>)
    requires
        fit(kd, t, ls),
        stocked(st, t, env, ls),
    ensures
        fit(kd, resumed_with(t), ls),
        stocked(st, resumed_with(t), env, ls),
    decreases t,
{
    lemma_parts(kd, t, ls);
    match t {
        Term::Loc(_, inner) => {
            lemma_piece(st, t, *inner, env, ls);
            lemma_resumed_parts(kd, st, *inner, env, ls);
        },
        Term::App(_, e) => {
            lemma_piece(st, t, *e, env, ls);
        },
        _ => {},
    }
}

proof fn lemma_piece(st: St, t: Term, sub: Term, env: Seq<Name>, ls: Set<Var>)
    requires
        stocked(st, t, env, ls),
        forall|v: Var| #[trigger] reaches(sub, v) ==> reaches(t, v),
    ensures
        stocked(st, sub, env, ls),
{
    reveal(stocked);
}

} // verus!
