//! Every name lowering uses is in the environment where it uses it: the arms of a `match`.

use super::bring::{lemma_direct, lemma_expr, lemma_finish_all, lemma_start_all};
use super::bring_chain::{lemma_chain, lemma_switch_arms};
use super::bring_parts::{
    items_begun, items_started, lemma_again, lemma_began, lemma_closed, lemma_items_begun_on, lemma_items_loc,
    lemma_keeps_all, lemma_ran_on, lemma_ran_plugged, lemma_switched, lemma_tuple_env, ran,
};
use super::bring_tree::lemma_emit_planned;
use super::frame::plugged;
use super::have::{brought, chained, from, lemma_args, lemma_brought, lemma_plugged, lemma_tried};
use super::live::restricted;
use super::pattern::tried;
use super::reach::Kinds;
use super::rooted::{lemma_planned_rooted, lemma_tuple_rooted, rooted};
use super::scheme::{
    arms_want, begin, bind_vars, case, case_literals, case_of, case_planned, case_prefix, case_rows, case_sure,
    case_total, covers, ctor_arms, direct, emit_planned, expr, finish_items, lemma_ctor_arms, lemma_literal_arms,
    literal_arms, literal_tests, lower_case, name_items, simple, start_items, switch_arms, takes_apart, tuple_rows,
    tuple_size, zipped, BoundV,
};
use super::shape::{never_fails, tree_takes};
use super::state::St;
use super::stride::{lemma_fresh_as, lemma_name_items, lemma_quiet_on, LAST};
use super::supply::{
    able, arms_able, lemma_able_more, lemma_able_on, lemma_able_parts, lemma_arms_kept, lemma_arms_more,
    lemma_arms_on, lemma_keeps, lemma_kept, lemma_nth_arm,
};
use super::tree::{constructors, plan, DtV};
use super::went::{
    fit, fit_arms, lemma_arm, lemma_on, lemma_parts, lemma_quietly, lemma_stay, lemma_went, okay, went,
};
use crate::seq::cover::lemma_front;
use crate::seq::draw::{
    drawn, lemma_draw_enter, lemma_draw_error, lemma_draw_object, lemma_draw_switch, lemma_draw_two,
};
use crate::seq::ir::{Name, Rep};
use crate::seq::view::{enter_v, switch_v, two_v, BlockV, ExternV, StmtV};
use crate::terms::prim::{Lit, Prim};
use crate::terms::term::{Arm, Pat, Term, Var};
use vstd::prelude::*;

verus! {

pub proof fn lemma_case(kd: Kinds, st: St, e: Term, env: Seq<Name>, k: Name, ls: Set<Var>)
    requires
        okay(kd, st),
        fit(kd, e, ls),
        able(st, e, env, ls),
        env.contains(k),
        brought(st),
    ensures
        ran(kd, st, lower_case(st, e, env, k), env, ls),
    decreases e, 0nat, 1nat, DtV::Fail, 0nat,
{
    lemma_parts(kd, e, ls);
    lemma_able_parts(st, e, env, ls);
    lemma_stay(kd, st, ls);
    lemma_draw_error(env, st.descs);
    if let Term::Case(scrutinee, arms, _) = e {
        let want = arms_want(st, arms@).insert(k);
        super::stride::lemma_name_items(st, *scrutinee);
        let (st1, names) = name_items(st, *scrutinee);
        let rows = tuple_rows(names, arms@);
        super::stride::lemma_plan(st1, rows, arms@, arms@.len());
        let p = plan(st1, rows, arms@, arms@.len());
        lemma_quiet_on(st, st1, p.st);
        lemma_quietly(kd, st, p.st, ls);
        lemma_went(kd, st, p.st, ls);
        lemma_brought(st, p.st);
        lemma_case_of(kd, st, e, env, want, k, st, ls);
        lemma_case_of(kd, p.st, e, env, want, k, st, ls);
        lemma_ran_on(kd, st, p.st, case_of(p.st, e, env, want, k), env, ls);
        if st.opt.trees() && tuple_size(*scrutinee) is Some && (forall|i: int|
            0 <= i < arms@.len() ==> takes_apart((#[trigger] arms@[i]).pat, tuple_size(*scrutinee)->0)) {
            if let Some(dt) = p.got {
                lemma_tuple_rooted(kd, st, *scrutinee, arms@, ls);
                lemma_tuple_case(kd, p.st, e, dt, names, env, want, k, st, ls);
                let a = start_items(p.st, *scrutinee, env, want);
                let binds = zipped(names, a.done);
                let (frames, env2) = bind_vars(binds, binds.len(), a.env);
                let (st2, s) = emit_planned(a.st, dt, arms@, env2, k);
                lemma_ran_on(kd, st, p.st, finish_items(st2, *scrutinee, a.bs, plugged(frames, s)), env, ls);
            }
        }
    }
}

#[verifier::spinoff_prover]
#[verifier::rlimit(60)]
pub proof fn lemma_tuple_case(
    kd: Kinds,
    st: St,
    e: Term,
    dt: DtV,
    names: Seq<Name>,
    env: Seq<Name>,
    want: Set<Name>,
    k: Name,
    was: St,
    ls: Set<Var>,
)
    requires
        okay(kd, st),
        fit(kd, e, ls),
        went(kd, was, st, ls),
        able(was, e, env, ls),
        env.contains(k),
        brought(st),
        e is Case,
        want == arms_want(was, e->Case_1@).insert(k),
        tuple_size(*e->Case_0) is Some,
        names.len() == tuple_size(*e->Case_0)->0,
        st.next_name < LAST ==> rooted(dt, e->Case_1@, names.to_set()),
    ensures
        ({
            let arms = e->Case_1@;
            let a = start_items(st, *e->Case_0, env, want);
            let binds = zipped(names, a.done);
            let (frames, env2) = bind_vars(binds, binds.len(), a.env);
            let (st2, s) = emit_planned(a.st, dt, arms, env2, k);
            ran(kd, st, finish_items(st2, *e->Case_0, a.bs, plugged(frames, s)), env, ls)
        }),
    decreases e, 0nat, 0nat, DtV::Fail, 0nat,
{
    lemma_parts(kd, e, ls);
    lemma_able_parts(was, e, env, ls);
    lemma_able_on(kd, was, st, e, env, ls);
    lemma_able_parts(st, e, env, ls);
    if let Term::Case(scrutinee, arms, _) = e {
        lemma_start_items(kd, st, *scrutinee, env, want, ls);
        let a = start_items(st, *scrutinee, env, want);
        lemma_went(kd, st, a.st, ls);
        let binds = zipped(names, a.done);
        let (frames, env2) = bind_vars(binds, binds.len(), a.env);
        lemma_tuple_env(names, a.done, a.env, st.descs);
        lemma_on(kd, was, st, a.st, ls);
        lemma_keeps_all(kd, was, a.st, arms@, env, want, a.env, ls);
        lemma_arms_more(a.st, arms@, a.env, env2, ls);
        assert(decreases_to!(e => arms@));
        assert(want.contains(k));
        assert(a.env.contains(k));
        assert(env2.contains(k));
        lemma_emit_planned(kd, a.st, dt, arms@, env2, k, names.to_set(), ls);
        let (st2, s) = emit_planned(a.st, dt, arms@, env2, k);
        lemma_went(kd, a.st, st2, ls);
        lemma_on(kd, st, a.st, st2, ls);
        lemma_items_begun_on(kd, a.st, st2, *scrutinee, a.bs, ls);
        if st2.next_name < LAST {
            lemma_plugged(frames, s, a.env, env2, st.descs);
        }
        lemma_finish_items(kd, st2, *scrutinee, a.bs, plugged(frames, s), env, a.env, ls);
        lemma_ran_on(kd, st, st2, finish_items(st2, *scrutinee, a.bs, plugged(frames, s)), env, ls);
    }
}

pub proof fn lemma_start_items(kd: Kinds, st: St, t: Term, env: Seq<Name>, base: Set<Name>, ls: Set<Var>)
    requires
        okay(kd, st),
        fit(kd, t, ls),
        able(st, t, env, ls),
        tuple_size(t) is Some,
        brought(st),
    ensures
        items_started(kd, st, start_items(st, t, env, base), t, env, base, ls),
    decreases t, 0nat, 4nat, DtV::Fail, 0nat,
{
    lemma_parts(kd, t, ls);
    lemma_able_parts(st, t, env, ls);
    match t {
        Term::Loc(_, inner) => {
            lemma_start_items(kd, st, *inner, env, base, ls);
            lemma_items_loc(kd, st, start_items(st, *inner, env, base), t, env, base, ls);
        },
        Term::Tuple(items) => {
            assert(decreases_to!(t => items@));
            lemma_start_all(kd, st, items@, items@.len(), env, base, ls);
        },
        _ => {},
    }
}

pub proof fn lemma_finish_items(
    kd: Kinds,
    st: St,
    t: Term,
    bs: Seq<BoundV>,
    body: StmtV,
    env: Seq<Name>,
    at: Seq<Name>,
    ls: Set<Var>,
)
    requires
        okay(kd, st),
        fit(kd, t, ls),
        brought(st),
        tuple_size(t) is Some,
        items_begun(st, t, bs, ls),
        chained(bs, env, at),
        st.next_name < LAST ==> drawn(body, at, st.descs),
    ensures
        ran(kd, st, finish_items(st, t, bs, body), env, ls),
    decreases t, 0nat, 4nat, DtV::Fail, 0nat,
{
    lemma_parts(kd, t, ls);
    match t {
        Term::Loc(_, inner) => {
            lemma_finish_items(kd, st, *inner, bs, body, env, at, ls);
        },
        Term::Tuple(items) => {
            assert(decreases_to!(t => items@));
            assert(bs.take(items@.len() as int) =~= bs);
            lemma_finish_all(kd, st, items@, items@.len(), bs, body, env, at, ls);
        },
        _ => {},
    }
}

pub proof fn lemma_case_of(
    kd: Kinds,
    st: St,
    e: Term,
    env: Seq<Name>,
    want: Set<Name>,
    k: Name,
    was: St,
    ls: Set<Var>,
)
    requires
        okay(kd, st),
        fit(kd, e, ls),
        went(kd, was, st, ls),
        able(was, e, env, ls),
        env.contains(k),
        brought(st),
        e is Case,
        want == arms_want(was, e->Case_1@).insert(k),
    ensures
        ran(kd, st, case_of(st, e, env, want, k), env, ls),
    decreases e, 0nat, 0nat, DtV::Fail, 0nat,
{
    lemma_went(kd, was, st, ls);
    lemma_able_parts(was, e, env, ls);
    lemma_able_on(kd, was, st, e, env, ls);
    lemma_parts(kd, e, ls);
    lemma_able_parts(st, e, env, ls);
    lemma_stay(kd, st, ls);
    lemma_draw_error(env, st.descs);
    if let Term::Case(scrutinee, arms, _) = e {
        super::going::lemma_direct(kd, st, *scrutinee, env, None, ls);
        if simple(*scrutinee, env) {
            lemma_direct(kd, st, *scrutinee, env, None, ls);
        }
        let d = direct(st, *scrutinee, env, None);
        lemma_kept(env, want);
        lemma_began(kd, st, *scrutinee, env, restricted(env, want), None, d, ls);
        let (st1, b) = begin(st, *scrutinee, env, restricted(env, want), None, d);
        lemma_keeps(env, want, k, b.env);
        assert(okay(kd, was)) by {
            reveal(went);
        }
        lemma_arms_kept(kd, was, arms@, want, env, b.env, ls);
        lemma_on(kd, was, st, st1, ls);
        lemma_arms_on(kd, was, st1, arms@, b.env, ls);
        assert(decreases_to!(e => arms@));
        lemma_arms(kd, st1, b.x, arms@, 0, b.env, k, ls);
        let (st2, s) = case(st1, b.x, arms@, 0, b.env, k);
        lemma_went(kd, st1, st2, ls);
        lemma_on(kd, st, st1, st2, ls);
        if !b.simple {
            lemma_again(kd, st, st2, *scrutinee, b, ls);
            lemma_expr(kd, st2, *scrutinee, seq![b.kk] + b.outer, b.kk, ls);
        }
        lemma_closed(kd, st, st2, b, s, expr(st2, *scrutinee, seq![b.kk] + b.outer, b.kk), env, ls);
    }
}

pub proof fn lemma_arms(kd: Kinds, st: St, s: Name, arms: Seq<Arm>, from: nat, env: Seq<Name>, k: Name, ls: Set<Var>)
    requires
        okay(kd, st),
        fit_arms(kd, arms, ls),
        arms_able(st, arms, env, ls),
        env.contains(k),
        brought(st),
        env.contains(s),
        st.next_name < LAST ==> s < st.next_name,
    ensures
        ran(kd, st, case(st, s, arms, from, env, k), env, ls),
    decreases arms, arms.len() + 1 + (arms.len() - from), 9nat, DtV::Fail, 0nat,
{
    lemma_stay(kd, st, ls);
    lemma_draw_error(env, st.descs);
    if from > arms.len() {
    } else if from < arms.len() && arms[from as int].guard is None && never_fails(arms[from as int].pat) {
        lemma_sure(kd, st, s, arms, from, env, k, ls);
    } else if literal_arms(arms, from) > 0 {
        lemma_literals(kd, st, s, arms, from, env, k, ls);
    } else if from < arms.len() && constructors(st, st.type_of_name(s)) == Some((arms.len() - from) as nat) && covers(
        arms,
        from,
    ) {
        lemma_total(kd, st, s, arms, from, env, k, ls);
    } else if st.opt.trees() {
        lemma_planned(kd, st, s, arms, from, env, k, ls);
    } else {
        lemma_chain(kd, st, s, arms, from, env, k, ls);
    }
}

pub proof fn lemma_sure(kd: Kinds, st: St, s: Name, arms: Seq<Arm>, from: nat, env: Seq<Name>, k: Name, ls: Set<Var>)
    requires
        okay(kd, st),
        fit_arms(kd, arms, ls),
        arms_able(st, arms, env, ls),
        env.contains(k),
        brought(st),
        env.contains(s),
        st.next_name < LAST ==> s < st.next_name,
        from < arms.len() ==> never_fails(arms[from as int].pat),
    ensures
        ran(kd, st, case_sure(st, s, arms, from, env, k), env, ls),
    decreases arms, arms.len() + 1, 3nat, DtV::Fail, 0nat,
{
    lemma_stay(kd, st, ls);
    lemma_draw_error(env, st.descs);
    if from < arms.len() {
        let st1 = st.fresh_ref();
        lemma_fresh_as(st, Rep::Ref);
        let arm = arms[from as int];
        assert(decreases_to!(arms => arm));
        super::went::lemma_arm(kd, arms, ls, from as int);
        lemma_nth_arm(st, arms, env, ls, from as int);
        super::stride::lemma_tried(st1, arm.pat, s, env, st.next_name);
        lemma_tried(st1, arm.pat, s, env, st.next_name, st.descs);
        let m = tried(st1, arm.pat, s, env, st.next_name);
        lemma_quiet_on(st, st1, m.st);
        lemma_quietly(kd, st, m.st, ls);
        lemma_went(kd, st, m.st, ls);
        lemma_brought(st, m.st);
        lemma_able_on(kd, st, m.st, arm.body, env, ls);
        lemma_able_more(m.st, arm.body, env, m.env, ls);
        lemma_expr(kd, m.st, arm.body, m.env, k, ls);
        let r = expr(m.st, arm.body, m.env, k);
        lemma_ran_on(kd, st, m.st, r, m.env, ls);
        lemma_ran_plugged(kd, st, m.frames, r, env, m.env, ls);
    }
}

pub proof fn lemma_literals(
    kd: Kinds,
    st: St,
    s: Name,
    arms: Seq<Arm>,
    from: nat,
    env: Seq<Name>,
    k: Name,
    ls: Set<Var>,
)
    requires
        okay(kd, st),
        fit_arms(kd, arms, ls),
        arms_able(st, arms, env, ls),
        env.contains(k),
        brought(st),
        env.contains(s),
        st.next_name < LAST ==> s < st.next_name,
    ensures
        ran(kd, st, case_literals(st, s, arms, from, env, k), env, ls),
    decreases arms, arms.len() + 1 + (arms.len() - from), 8nat, DtV::Fail, 0nat,
{
    lemma_stay(kd, st, ls);
    lemma_draw_error(env, st.descs);
    let n = literal_arms(arms, from);
    if from <= arms.len() && n > 0 {
        lemma_literal_arms(arms, from);
        if from + n < arms.len() {
            lemma_arms(kd, st, s, arms, from + n, env, k, ls);
        }
        let (st1, rest) = if from + n >= arms.len() {
            (st, StmtV::Error("non-exhaustive pattern match"@))
        } else {
            case(st, s, arms, from + n, env, k)
        };
        lemma_went(kd, st, st1, ls);
        lemma_arms_on(kd, st, st1, arms, env, ls);
        lemma_literal_tests(kd, st1, s, arms, from, n, env, k, rest, ls);
        lemma_ran_on(kd, st, st1, literal_tests(st1, s, arms, from, n, env, k, rest), env, ls);
    }
}

pub proof fn lemma_literal_tests(
    kd: Kinds,
    st: St,
    s: Name,
    arms: Seq<Arm>,
    from: nat,
    n: nat,
    env: Seq<Name>,
    k: Name,
    rest: StmtV,
    ls: Set<Var>,
)
    requires
        okay(kd, st),
        fit_arms(kd, arms, ls),
        arms_able(st, arms, env, ls),
        env.contains(k),
        brought(st),
        env.contains(s),
        st.next_name < LAST ==> drawn(rest, env, st.descs),
    ensures
        ran(kd, st, literal_tests(st, s, arms, from, n, env, k, rest), env, ls),
    decreases arms, n, 3nat, DtV::Fail, 0nat,
{
    lemma_stay(kd, st, ls);
    if n > 0 && from + n <= arms.len() {
        let arm = arms[from + n - 1];
        assert(decreases_to!(arms => arm));
        super::went::lemma_arm(kd, arms, ls, from + n - 1);
        lemma_nth_arm(st, arms, env, ls, from + n - 1);
        lemma_expr(kd, st, arm.body, env, k, ls);
        let (st1, yes) = expr(st, arm.body, env, k);
        lemma_went(kd, st, st1, ls);
        if let Pat::Lit(l) = arm.pat {
            let s1 = two_v(ExternV::BranchPrimK(Prim::Eq, l), seq![s], env, rest, yes);
            lemma_args(s, env);
            if st1.next_name < LAST {
                lemma_draw_two(ExternV::BranchPrimK(Prim::Eq, l), seq![s], env, rest, yes, st.descs);
            }
            lemma_arms_on(kd, st, st1, arms, env, ls);
            lemma_literal_tests(kd, st1, s, arms, from, (n - 1) as nat, env, k, s1, ls);
            lemma_ran_on(kd, st, st1, literal_tests(st1, s, arms, from, (n - 1) as nat, env, k, s1), env, ls);
        }
    }
}

pub proof fn lemma_total(kd: Kinds, st: St, s: Name, arms: Seq<Arm>, from: nat, env: Seq<Name>, k: Name, ls: Set<Var>)
    requires
        okay(kd, st),
        fit_arms(kd, arms, ls),
        arms_able(st, arms, env, ls),
        env.contains(k),
        brought(st),
        env.contains(s),
        st.next_name < LAST ==> s < st.next_name,
        from <= arms.len() ==> covers(arms, from),
    ensures
        ran(kd, st, case_total(st, s, arms, from, env, k), env, ls),
    decreases arms, arms.len() + 1, 4nat, DtV::Fail, 0nat,
{
    lemma_stay(kd, st, ls);
    lemma_draw_error(env, st.descs);
    if from <= arms.len() {
        let of = st.type_of_name(s);
        let n = (arms.len() - from) as nat;
        let st1 = st.fresh_ref();
        lemma_fresh_as(st, Rep::Ref);
        lemma_quietly(kd, st, st1, ls);
        lemma_went(kd, st, st1, ls);
        lemma_brought(st, st1);
        lemma_arms_on(kd, st, st1, arms, env, ls);
        lemma_switch_arms(kd, st1, of, arms, from, n, env, st.next_name, k, ls);
        let r = switch_arms(st1, of, arms, from, n, env, st.next_name, k);
        lemma_went(kd, st1, r.0, ls);
        lemma_on(kd, st, st1, r.0, ls);
        if r.0.next_name < LAST {
            lemma_switched(r.1, st.descs);
            lemma_draw_switch(s, r.1, env, StmtV::Error("non-exhaustive pattern match"@), env, st.descs);
        }
    }
}

pub proof fn lemma_planned(
    kd: Kinds,
    st: St,
    s: Name,
    arms: Seq<Arm>,
    from: nat,
    env: Seq<Name>,
    k: Name,
    ls: Set<Var>,
)
    requires
        okay(kd, st),
        fit_arms(kd, arms, ls),
        arms_able(st, arms, env, ls),
        env.contains(k),
        brought(st),
        env.contains(s),
        st.next_name < LAST ==> s < st.next_name,
    ensures
        ran(kd, st, case_planned(st, s, arms, from, env, k), env, ls),
    decreases arms, arms.len() + 1 + (arms.len() - from), 8nat, DtV::Fail, 0nat,
{
    lemma_stay(kd, st, ls);
    lemma_draw_error(env, st.descs);
    if from <= arms.len() {
        let n = (arms.len() - from) as nat;
        let rows = case_rows(s, arms, from);
        super::stride::lemma_plan(st, rows, arms, n);
        let p = plan(st, rows, arms, n);
        lemma_quietly(kd, st, p.st, ls);
        lemma_went(kd, st, p.st, ls);
        lemma_brought(st, p.st);
        lemma_arms_on(kd, st, p.st, arms, env, ls);
        lemma_prefix(kd, p.st, s, arms, from, env, k, ls);
        lemma_prefix(kd, st, s, arms, from, env, k, ls);
        lemma_ran_on(kd, st, p.st, case_prefix(p.st, s, arms, from, env, k), env, ls);
        if forall|i: int| from <= i < arms.len() ==> tree_takes((#[trigger] arms[i]).pat) {
            if let Some(dt) = p.got {
                lemma_planned_rooted(kd, st, s, arms, from, ls);
                lemma_emit_planned(kd, p.st, dt, arms, env, k, set![s], ls);
                lemma_ran_on(kd, st, p.st, emit_planned(p.st, dt, arms, env, k), env, ls);
            }
        }
    }
}

pub proof fn lemma_prefix(
    kd: Kinds,
    st: St,
    s: Name,
    arms: Seq<Arm>,
    from: nat,
    env: Seq<Name>,
    k: Name,
    ls: Set<Var>,
)
    requires
        okay(kd, st),
        fit_arms(kd, arms, ls),
        arms_able(st, arms, env, ls),
        env.contains(k),
        brought(st),
        env.contains(s),
        st.next_name < LAST ==> s < st.next_name,
    ensures
        ran(kd, st, case_prefix(st, s, arms, from, env, k), env, ls),
    decreases arms, arms.len() + 1 + (arms.len() - from), 7nat, DtV::Fail, 0nat,
{
    lemma_stay(kd, st, ls);
    lemma_draw_error(env, st.descs);
    let n = ctor_arms(arms, from, from);
    if from > arms.len() {
    } else if n < 2 {
        lemma_chain(kd, st, s, arms, from, env, k, ls);
    } else {
        lemma_ctor_arms(arms, from, from);
        let rest = st.next_name;
        let st1 = st.fresh_ref();
        lemma_fresh_as(st, Rep::Ref);
        lemma_quietly(kd, st, st1, ls);
        lemma_went(kd, st, st1, ls);
        lemma_brought(st, st1);
        lemma_arms_on(kd, st, st1, arms, env, ls);
        let at = seq![rest] + env;
        lemma_front(rest, env);
        lemma_arms_more(st1, arms, env, at, ls);
        lemma_switch_arms(kd, st1, st1.type_of_name(s), arms, from, n, at, rest, k, ls);
        let r = switch_arms(st1, st1.type_of_name(s), arms, from, n, at, rest, k);
        let (st2, cases) = r;
        lemma_went(kd, st1, st2, ls);
        lemma_on(kd, st, st1, st2, ls);
        lemma_went(kd, st, st2, ls);
        lemma_stay(kd, st2, ls);
        if from + n < arms.len() {
            lemma_arms_on(kd, st, st2, arms, env, ls);
            lemma_arms(kd, st2, s, arms, from + n, env, k, ls);
        }
        let (st3, body) = if from + n >= arms.len() {
            (st2, StmtV::Error("non-exhaustive pattern match"@))
        } else {
            case(st2, s, arms, from + n, env, k)
        };
        lemma_went(kd, st2, st3, ls);
        lemma_on(kd, st, st2, st3, ls);
        if st3.next_name < LAST {
            lemma_switched(cases, st.descs);
            lemma_draw_enter(rest, at, st.descs);
            lemma_draw_switch(s, cases, at, enter_v(rest), at, st.descs);
            lemma_draw_object(
                rest,
                env,
                BlockV { params: env, body },
                switch_v(s, cases, at, enter_v(rest)),
                env,
                st.descs,
            );
        }
    }
}

} // verus!
