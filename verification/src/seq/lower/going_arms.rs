//! How far lowering takes its state: the arms of a `match`.

use super::frame::plugged;
use super::going::{lemma_direct, lemma_expr, lemma_finish_all, lemma_start_all};
use super::going_chain::{lemma_chain, lemma_switch_arms};
use super::going_parts::{lemma_finished, lemma_started};
use super::going_tree::lemma_emit_planned;
use super::live::restricted;
use super::pattern::tried;
use super::reach::Kinds;
use super::scheme::{
    arms_want, begin, bind_vars, case, case_literals, case_of, case_planned, case_prefix, case_rows, case_sure,
    case_total, covers, ctor_arms, direct, emit_planned, expr, finish_items, lemma_ctor_arms, lemma_literal_arms,
    literal_arms, literal_tests, lower_case, name_items, start_items, switch_arms, tuple_rows, zipped, BoundV,
};
use super::shape::never_fails;
use super::state::St;
use super::stride::{lemma_fresh_as, lemma_name_items, lemma_plan, lemma_quiet_on, lemma_tried};
use super::tree::{constructors, plan, DtV};
use super::went::{
    fit, fit_arms, lemma_arm, lemma_on, lemma_parts, lemma_quietly, lemma_stay, lemma_went, okay, went,
};
use crate::seq::ir::{Name, Rep};
use crate::seq::view::{two_v, ExternV, StmtV};
use crate::terms::prim::{Lit, Prim};
use crate::terms::term::{Arm, Pat, Term, Var};
use vstd::prelude::*;

verus! {

pub proof fn lemma_case(kd: Kinds, st: St, e: Term, env: Seq<Name>, k: Name, ls: Set<Var>)
    requires
        okay(kd, st),
        fit(kd, e, ls),
    ensures
        went(kd, st, lower_case(st, e, env, k).0, ls),
    decreases e, 0nat, 1nat, DtV::Fail, 0nat,
{
    lemma_parts(kd, e, ls);
    lemma_stay(kd, st, ls);
    if let Term::Case(scrutinee, arms, _) = e {
        let want = arms_want(st, arms@).insert(k);
        lemma_name_items(st, *scrutinee);
        let (st1, names) = name_items(st, *scrutinee);
        let rows = tuple_rows(names, arms@);
        lemma_plan(st1, rows, arms@, arms@.len());
        let p = plan(st1, rows, arms@, arms@.len());
        lemma_quiet_on(st, st1, p.st);
        lemma_quietly(kd, st, p.st, ls);
        lemma_went(kd, st, p.st, ls);
        lemma_case_of(kd, st, e, env, want, k, ls);
        lemma_case_of(kd, p.st, e, env, want, k, ls);
        lemma_on(kd, st, p.st, case_of(p.st, e, env, want, k).0, ls);
        if let Some(dt) = p.got {
            lemma_tuple_case(kd, p.st, e, dt, names, env, want, k, ls);
            let a = start_items(p.st, *scrutinee, env, want);
            let binds = zipped(names, a.done);
            let (frames, env2) = bind_vars(binds, binds.len(), a.env);
            let (st2, s) = emit_planned(a.st, dt, arms@, env2, k);
            lemma_on(kd, st, p.st, finish_items(st2, *scrutinee, a.bs, plugged(frames, s)).0, ls);
        }
    }
}

pub proof fn lemma_tuple_case(
    kd: Kinds,
    st: St,
    e: Term,
    dt: DtV,
    names: Seq<Name>,
    env: Seq<Name>,
    want: Set<Name>,
    k: Name,
    ls: Set<Var>,
)
    requires
        okay(kd, st),
        fit(kd, e, ls),
        e is Case,
    ensures
        ({
            let arms = e->Case_1@;
            let a = start_items(st, *e->Case_0, env, want);
            let binds = zipped(names, a.done);
            let (frames, env2) = bind_vars(binds, binds.len(), a.env);
            let (st2, s) = emit_planned(a.st, dt, arms, env2, k);
            went(kd, st, finish_items(st2, *e->Case_0, a.bs, plugged(frames, s)).0, ls)
        }),
    decreases e, 0nat, 0nat, DtV::Fail, 0nat,
{
    lemma_parts(kd, e, ls);
    if let Term::Case(scrutinee, arms, _) = e {
        lemma_start_items(kd, st, *scrutinee, env, want, ls);
        let a = start_items(st, *scrutinee, env, want);
        lemma_went(kd, st, a.st, ls);
        let binds = zipped(names, a.done);
        let (frames, env2) = bind_vars(binds, binds.len(), a.env);
        assert(decreases_to!(e => arms@));
        lemma_emit_planned(kd, a.st, dt, arms@, env2, k, ls);
        let (st2, s) = emit_planned(a.st, dt, arms@, env2, k);
        lemma_on(kd, st, a.st, st2, ls);
        lemma_went(kd, st, st2, ls);
        lemma_finish_items(kd, st2, *scrutinee, a.bs, plugged(frames, s), ls);
        lemma_on(kd, st, st2, finish_items(st2, *scrutinee, a.bs, plugged(frames, s)).0, ls);
    }
}

pub proof fn lemma_start_items(kd: Kinds, st: St, t: Term, env: Seq<Name>, base: Set<Name>, ls: Set<Var>)
    requires
        okay(kd, st),
        fit(kd, t, ls),
    ensures
        went(kd, st, start_items(st, t, env, base).st, ls),
    decreases t, 0nat, 4nat, DtV::Fail, 0nat,
{
    lemma_parts(kd, t, ls);
    lemma_stay(kd, st, ls);
    match t {
        Term::Loc(_, inner) => {
            lemma_start_items(kd, st, *inner, env, base, ls);
        },
        Term::Tuple(items) => {
            assert(decreases_to!(t => items@));
            lemma_start_all(kd, st, items@, items@.len(), env, base, ls);
        },
        _ => {},
    }
}

pub proof fn lemma_finish_items(kd: Kinds, st: St, t: Term, bs: Seq<BoundV>, body: StmtV, ls: Set<Var>)
    requires
        okay(kd, st),
        fit(kd, t, ls),
    ensures
        went(kd, st, finish_items(st, t, bs, body).0, ls),
    decreases t, 0nat, 4nat, DtV::Fail, 0nat,
{
    lemma_parts(kd, t, ls);
    lemma_stay(kd, st, ls);
    match t {
        Term::Loc(_, inner) => {
            lemma_finish_items(kd, st, *inner, bs, body, ls);
        },
        Term::Tuple(items) => {
            assert(decreases_to!(t => items@));
            lemma_finish_all(kd, st, items@, items@.len(), bs, body, ls);
        },
        _ => {},
    }
}

pub proof fn lemma_case_of(kd: Kinds, st: St, e: Term, env: Seq<Name>, want: Set<Name>, k: Name, ls: Set<Var>)
    requires
        okay(kd, st),
        fit(kd, e, ls),
    ensures
        went(kd, st, case_of(st, e, env, want, k).0, ls),
    decreases e, 0nat, 0nat, DtV::Fail, 0nat,
{
    lemma_parts(kd, e, ls);
    lemma_stay(kd, st, ls);
    if let Term::Case(scrutinee, arms, _) = e {
        lemma_direct(kd, st, *scrutinee, env, None, ls);
        let d = direct(st, *scrutinee, env, None);
        lemma_started(kd, st, *scrutinee, env, restricted(env, want), None, d, ls);
        let (st1, b) = begin(st, *scrutinee, env, restricted(env, want), None, d);
        lemma_went(kd, st, st1, ls);
        assert(decreases_to!(e => arms@));
        lemma_arms(kd, st1, b.x, arms@, 0, b.env, k, ls);
        let (st2, s) = case(st1, b.x, arms@, 0, b.env, k);
        lemma_on(kd, st, st1, st2, ls);
        lemma_went(kd, st, st2, ls);
        lemma_expr(kd, st2, *scrutinee, seq![b.kk] + b.outer, b.kk, ls);
        lemma_finished(kd, st, st2, b, s, expr(st2, *scrutinee, seq![b.kk] + b.outer, b.kk), ls);
    }
}

pub proof fn lemma_arms(kd: Kinds, st: St, s: Name, arms: Seq<Arm>, from: nat, env: Seq<Name>, k: Name, ls: Set<Var>)
    requires
        okay(kd, st),
        fit_arms(kd, arms, ls),
    ensures
        went(kd, st, case(st, s, arms, from, env, k).0, ls),
    decreases arms, arms.len() + 1 + (arms.len() - from), 9nat, DtV::Fail, 0nat,
{
    lemma_stay(kd, st, ls);
    if from > arms.len() {
    } else if from < arms.len() && arms[from as int].guard is None && never_fails(arms[from as int].pat) {
        lemma_sure(kd, st, s, arms, from, env, k, ls);
    } else if literal_arms(arms, from) > 0 {
        lemma_literals(kd, st, s, arms, from, env, k, ls);
    } else if from < arms.len() && constructors(st, st.type_of_name(s)) == Some((arms.len() - from) as nat) && covers(
        arms,
        from,
    ) {
        lemma_total(kd, st, s, arms, from, env, k, ls);
    } else if st.opt.trees() {
        lemma_planned(kd, st, s, arms, from, env, k, ls);
    } else {
        lemma_chain(kd, st, s, arms, from, env, k, ls);
    }
}

pub proof fn lemma_sure(kd: Kinds, st: St, s: Name, arms: Seq<Arm>, from: nat, env: Seq<Name>, k: Name, ls: Set<Var>)
    requires
        okay(kd, st),
        fit_arms(kd, arms, ls),
    ensures
        went(kd, st, case_sure(st, s, arms, from, env, k).0, ls),
    decreases arms, arms.len() + 1, 3nat, DtV::Fail, 0nat,
{
    lemma_stay(kd, st, ls);
    if from < arms.len() {
        let st1 = st.fresh_ref();
        lemma_fresh_as(st, Rep::Ref);
        let arm = arms[from as int];
        assert(decreases_to!(arms => arm));
        lemma_arm(kd, arms, ls, from as int);
        lemma_tried(st1, arm.pat, s, env, st.next_name);
        let m = tried(st1, arm.pat, s, env, st.next_name);
        lemma_quiet_on(st, st1, m.st);
        lemma_quietly(kd, st, m.st, ls);
        lemma_went(kd, st, m.st, ls);
        lemma_expr(kd, m.st, arm.body, m.env, k, ls);
        lemma_on(kd, st, m.st, expr(m.st, arm.body, m.env, k).0, ls);
    }
}

pub proof fn lemma_literals(kd: Kinds, st: St, s: Name, arms: Seq<Arm>, from: nat, env: Seq<Name>, k: Name, ls: Set<Var>)
    requires
        okay(kd, st),
        fit_arms(kd, arms, ls),
    ensures
        went(kd, st, case_literals(st, s, arms, from, env, k).0, ls),
    decreases arms, arms.len() + 1 + (arms.len() - from), 8nat, DtV::Fail, 0nat,
{
    lemma_stay(kd, st, ls);
    let n = literal_arms(arms, from);
    if from <= arms.len() && n > 0 {
        lemma_literal_arms(arms, from);
        if from + n < arms.len() {
            lemma_arms(kd, st, s, arms, from + n, env, k, ls);
        }
        let (st1, rest) = if from + n >= arms.len() {
            (st, StmtV::Error("non-exhaustive pattern match"@))
        } else {
            case(st, s, arms, from + n, env, k)
        };
        lemma_went(kd, st, st1, ls);
        lemma_literal_tests(kd, st1, s, arms, from, n, env, k, rest, ls);
        lemma_on(kd, st, st1, literal_tests(st1, s, arms, from, n, env, k, rest).0, ls);
    }
}

pub proof fn lemma_literal_tests(kd: Kinds, st: St, s: Name, arms: Seq<Arm>, from: nat, n: nat, env: Seq<Name>, k: Name, rest: StmtV, ls: Set<Var>)
    requires
        okay(kd, st),
        fit_arms(kd, arms, ls),
    ensures
        went(kd, st, literal_tests(st, s, arms, from, n, env, k, rest).0, ls),
    decreases arms, n, 3nat, DtV::Fail, 0nat,
{
    lemma_stay(kd, st, ls);
    if n > 0 && from + n <= arms.len() {
        let arm = arms[from + n - 1];
        assert(decreases_to!(arms => arm));
        lemma_arm(kd, arms, ls, from + n - 1);
        lemma_expr(kd, st, arm.body, env, k, ls);
        let (st1, yes) = expr(st, arm.body, env, k);
        lemma_went(kd, st, st1, ls);
        if let Pat::Lit(l) = arm.pat {
            let s1 = two_v(ExternV::BranchPrimK(Prim::Eq, l), seq![s], env, rest, yes);
            lemma_literal_tests(kd, st1, s, arms, from, (n - 1) as nat, env, k, s1, ls);
            lemma_on(kd, st, st1, literal_tests(st1, s, arms, from, (n - 1) as nat, env, k, s1).0, ls);
        }
    }
}

pub proof fn lemma_total(kd: Kinds, st: St, s: Name, arms: Seq<Arm>, from: nat, env: Seq<Name>, k: Name, ls: Set<Var>)
    requires
        okay(kd, st),
        fit_arms(kd, arms, ls),
    ensures
        went(kd, st, case_total(st, s, arms, from, env, k).0, ls),
    decreases arms, arms.len() + 1, 4nat, DtV::Fail, 0nat,
{
    lemma_stay(kd, st, ls);
    if from <= arms.len() {
        let of = st.type_of_name(s);
        let n = (arms.len() - from) as nat;
        let st1 = st.fresh_ref();
        lemma_fresh_as(st, Rep::Ref);
        lemma_quietly(kd, st, st1, ls);
        lemma_went(kd, st, st1, ls);
        lemma_switch_arms(kd, st1, of, arms, from, n, env, st.next_name, k, ls);
        lemma_on(kd, st, st1, switch_arms(st1, of, arms, from, n, env, st.next_name, k).0, ls);
    }
}

pub proof fn lemma_planned(kd: Kinds, st: St, s: Name, arms: Seq<Arm>, from: nat, env: Seq<Name>, k: Name, ls: Set<Var>)
    requires
        okay(kd, st),
        fit_arms(kd, arms, ls),
    ensures
        went(kd, st, case_planned(st, s, arms, from, env, k).0, ls),
    decreases arms, arms.len() + 1 + (arms.len() - from), 8nat, DtV::Fail, 0nat,
{
    lemma_stay(kd, st, ls);
    if from <= arms.len() {
        let n = (arms.len() - from) as nat;
        lemma_plan(st, case_rows(s, arms, from), arms, n);
        let p = plan(st, case_rows(s, arms, from), arms, n);
        lemma_quietly(kd, st, p.st, ls);
        lemma_went(kd, st, p.st, ls);
        lemma_prefix(kd, p.st, s, arms, from, env, k, ls);
        lemma_prefix(kd, st, s, arms, from, env, k, ls);
        lemma_on(kd, st, p.st, case_prefix(p.st, s, arms, from, env, k).0, ls);
        if let Some(dt) = p.got {
            lemma_emit_planned(kd, p.st, dt, arms, env, k, ls);
            lemma_on(kd, st, p.st, emit_planned(p.st, dt, arms, env, k).0, ls);
        }
    }
}

pub proof fn lemma_prefix(kd: Kinds, st: St, s: Name, arms: Seq<Arm>, from: nat, env: Seq<Name>, k: Name, ls: Set<Var>)
    requires
        okay(kd, st),
        fit_arms(kd, arms, ls),
    ensures
        went(kd, st, case_prefix(st, s, arms, from, env, k).0, ls),
    decreases arms, arms.len() + 1 + (arms.len() - from), 7nat, DtV::Fail, 0nat,
{
    lemma_stay(kd, st, ls);
    let n = ctor_arms(arms, from, from);
    if from > arms.len() {
    } else if n < 2 {
        lemma_chain(kd, st, s, arms, from, env, k, ls);
    } else {
        lemma_ctor_arms(arms, from, from);
        let rest = st.next_name;
        let st1 = st.fresh_ref();
        lemma_fresh_as(st, Rep::Ref);
        lemma_quietly(kd, st, st1, ls);
        lemma_went(kd, st, st1, ls);
        let at = seq![rest] + env;
        lemma_switch_arms(kd, st1, st1.type_of_name(s), arms, from, n, at, rest, k, ls);
        let (st2, cases) = switch_arms(st1, st1.type_of_name(s), arms, from, n, at, rest, k);
        lemma_on(kd, st, st1, st2, ls);
        lemma_went(kd, st, st2, ls);
        if from + n < arms.len() {
            lemma_arms(kd, st2, s, arms, from + n, env, k, ls);
            lemma_on(kd, st, st2, case(st2, s, arms, from + n, env, k).0, ls);
        }
    }
}

} // verus!
