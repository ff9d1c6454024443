//! Every block lowering writes names the whole environment it is entered in:
//! the arms of a `match`, tried in order.

use super::follow::{lemma_direct, lemma_expr, lemma_finish_all, lemma_start_all};
use super::follow_chain::lemma_chain;
use super::follow_guard::lemma_guarded;
use super::follow_tree::lemma_emit_planned;
use super::frame::plugged;
use super::live::restricted;
use super::pattern::{arm_tests, tried};
use super::scheme::{
    arm_body, arms_want, begin, bind_vars, case, case_literals, case_of, case_planned, case_prefix, case_rows,
    case_sure, case_total, covers, ctor_arms, direct, emit_planned, ended, expr, finish_items, guard_test,
    lemma_ctor_arms, lemma_literal_arms, literal_arms, literal_tests, lower_case, name_first, name_items,
    start_items, switch_arms, tuple_rows, tuple_size, zipped, BoundV,
};
use super::shape::never_fails;
use super::state::St;
use super::tree::{constructors, plan, DtV};
use super::types::type_of;
use super::whole::{
    chained, from, lemma_arm_tests, lemma_begin, lemma_bind_vars, lemma_ended, lemma_plan, lemma_plugged,
    lemma_tried, lemma_typed, sound,
};
use crate::seq::balance::{lemma_error, lemma_invoke, lemma_object, lemma_switch, lemma_two, scoped};
use crate::seq::ir::{Name, Tag};
use crate::seq::view::{enter_v, switch_v, two_v, BlockV, ExternV, StmtV};
use crate::terms::prim::{Lit, Prim};
use crate::terms::term::{Arm, Pat, Term};
use crate::terms::ty::Ty;
use vstd::prelude::*;

verus! {

pub proof fn lemma_name_first(st: St, items: Seq<Term>, n: nat)
    ensures
        name_first(st, items, n).0.defs == st.defs,
    decreases n,
{
    if n > 0 && n <= items.len() {
        lemma_name_first(st, items, (n - 1) as nat);
        let st1 = name_first(st, items, (n - 1) as nat).0;
        lemma_typed(st1, type_of(st1, items[n - 1]));
    }
}

pub proof fn lemma_name_items(st: St, t: Term)
    ensures
        name_items(st, t).0.defs == st.defs,
    decreases t,
{
    match t {
        Term::Loc(_, inner) => {
            lemma_name_items(st, *inner);
        },
        Term::Tuple(items) => {
            lemma_name_first(st, items@, items@.len());
        },
        _ => {},
    }
}

/// Arms of a switch in `env`: each binds its fields in front of it.
#[verifier::opaque]
pub open spec fn cased(cs: Seq<(Tag, BlockV)>, env: Seq<Name>) -> bool {
    forall|i: int|
        0 <= i < cs.len() ==> env.is_suffix_of((#[trigger] cs[i]).1.params) && scoped(cs[i].1.body, cs[i].1.params)
}

pub proof fn lemma_none_cased(env: Seq<Name>)
    ensures
        cased(Seq::empty(), env),
{
    reveal(cased);
}

pub proof fn lemma_cased(cs: Seq<(Tag, BlockV)>, tag: Tag, params: Seq<Name>, body: StmtV, env: Seq<Name>)
    requires
        cased(cs, env),
        env.is_suffix_of(params),
        scoped(body, params),
    ensures
        cased(cs.push((tag, BlockV { params, body })), env),
{
    reveal(cased);
}

pub proof fn lemma_switch_cased(s: Name, cs: Seq<(Tag, BlockV)>, env: Seq<Name>, otherwise: StmtV)
    requires
        cased(cs, env),
        scoped(otherwise, env),
    ensures
        scoped(switch_v(s, cs, env, otherwise), env),
{
    reveal(cased);
    lemma_switch(s, cs, env, otherwise);
}

pub proof fn lemma_guard_test(b: BoundV, fail: Name, taken: StmtV)
    requires
        scoped(taken, b.env),
    ensures
        scoped(guard_test(b, fail, taken), b.env),
{
    reveal(guard_test);
    lemma_invoke(seq![fail], fail, b.env);
    lemma_two(ExternV::Branch, seq![b.x], b.env, enter_v(fail), taken);
}

pub proof fn lemma_guard_ended(st: St, b: BoundV, fail: Name, taken: StmtV, r: (St, StmtV), env: Seq<Name>)
    requires
        sound(st),
        from(b, env),
        scoped(taken, b.env),
        sound(r.0),
        scoped(r.1, seq![b.kk] + b.outer),
    ensures
        sound(ended(st, b, guard_test(b, fail, taken), r).0),
        scoped(ended(st, b, guard_test(b, fail, taken), r).1, env),
{
    lemma_guard_test(b, fail, taken);
    lemma_ended(st, b, guard_test(b, fail, taken), r, env);
}

pub proof fn lemma_case(st: St, e: Term, env: Seq<Name>, k: Name)
    requires
        sound(st),
    ensures
        sound(lower_case(st, e, env, k).0),
        scoped(lower_case(st, e, env, k).1, env),
    decreases e, 0nat, 1nat, DtV::Fail, 0nat,
{
    lemma_error(env);
    if let Term::Case(scrutinee, arms, _) = e {
        let want = arms_want(st, arms@).insert(k);
        lemma_name_items(st, *scrutinee);
        let (st1, names) = name_items(st, *scrutinee);
        let rows = tuple_rows(names, arms@);
        lemma_plan(st1, rows, arms@, arms@.len());
        let p = plan(st1, rows, arms@, arms@.len());
        lemma_case_of(st, e, env, want, k);
        lemma_case_of(p.st, e, env, want, k);
        if let Some(dt) = p.got {
            assert(decreases_to!(e => arms@));
            lemma_tuple_case(p.st, e, dt, names, env, want, k);
        }
    }
}

pub proof fn lemma_tuple_case(st: St, e: Term, dt: DtV, names: Seq<Name>, env: Seq<Name>, want: Set<Name>, k: Name)
    requires
        sound(st),
        e is Case,
    ensures
        ({
            let arms = e->Case_1@;
            let a = start_items(st, *e->Case_0, env, want);
            let binds = zipped(names, a.done);
            let (frames, env2) = bind_vars(binds, binds.len(), a.env);
            let (st2, s) = emit_planned(a.st, dt, arms, env2, k);
            let r = finish_items(st2, *e->Case_0, a.bs, plugged(frames, s));
            sound(r.0) && scoped(r.1, env)
        }),
    decreases e, 0nat, 0nat, DtV::Fail, 0nat,
{
    if let Term::Case(scrutinee, arms, _) = e {
        lemma_start_items(st, *scrutinee, env, want);
        let a = start_items(st, *scrutinee, env, want);
        let binds = zipped(names, a.done);
        lemma_bind_vars(binds, binds.len(), a.env);
        let (frames, env2) = bind_vars(binds, binds.len(), a.env);
        assert(decreases_to!(e => arms@));
        lemma_emit_planned(a.st, dt, arms@, env2, k);
        let (st2, s) = emit_planned(a.st, dt, arms@, env2, k);
        lemma_plugged(frames, s, a.env, env2);
        lemma_finish_items(st2, *scrutinee, a.bs, plugged(frames, s), env, a.env);
    }
}

pub proof fn lemma_start_items(st: St, t: Term, env: Seq<Name>, base: Set<Name>)
    requires
        sound(st),
    ensures
        sound(start_items(st, t, env, base).st),
        chained(start_items(st, t, env, base).bs, env, start_items(st, t, env, base).env),
        start_items(st, t, env, base).bs.len() == (match tuple_size(t) {
            Some(n) => n,
            None => 0,
        }),
    decreases t, 0nat, 4nat, DtV::Fail, 0nat,
{
    match t {
        Term::Loc(_, inner) => {
            lemma_start_items(st, *inner, env, base);
        },
        Term::Tuple(items) => {
            assert(decreases_to!(t => items@));
            lemma_start_all(st, items@, items@.len(), env, base);
        },
        _ => {},
    }
}

pub proof fn lemma_finish_items(st: St, t: Term, bs: Seq<BoundV>, body: StmtV, env: Seq<Name>, at: Seq<Name>)
    requires
        sound(st),
        bs.len() == (match tuple_size(t) {
            Some(n) => n,
            None => 0,
        }),
        chained(bs, env, at),
        scoped(body, at),
    ensures
        sound(finish_items(st, t, bs, body).0),
        scoped(finish_items(st, t, bs, body).1, env),
    decreases t, 0nat, 4nat, DtV::Fail, 0nat,
{
    match t {
        Term::Loc(_, inner) => {
            lemma_finish_items(st, *inner, bs, body, env, at);
        },
        Term::Tuple(items) => {
            assert(decreases_to!(t => items@));
            assert(bs.take(bs.len() as int) =~= bs);
            lemma_finish_all(st, items@, items@.len(), bs, body, env, at);
        },
        _ => {},
    }
}

pub proof fn lemma_case_of(st: St, e: Term, env: Seq<Name>, want: Set<Name>, k: Name)
    requires
        sound(st),
    ensures
        sound(case_of(st, e, env, want, k).0),
        scoped(case_of(st, e, env, want, k).1, env),
    decreases e, 0nat, 0nat, DtV::Fail, 0nat,
{
    lemma_error(env);
    if let Term::Case(scrutinee, arms, _) = e {
        lemma_direct(st, *scrutinee, env, None);
        let d = direct(st, *scrutinee, env, None);
        lemma_begin(st, *scrutinee, env, restricted(env, want), None, d);
        let (st1, b) = begin(st, *scrutinee, env, restricted(env, want), None, d);
        assert(decreases_to!(e => arms@));
        lemma_arms(st1, b.x, arms@, 0, b.env, k);
        let (st2, s) = case(st1, b.x, arms@, 0, b.env, k);
        lemma_expr(st2, *scrutinee, seq![b.kk] + b.outer, b.kk);
        lemma_ended(st2, b, s, expr(st2, *scrutinee, seq![b.kk] + b.outer, b.kk), env);
    }
}

pub proof fn lemma_arms(st: St, s: Name, arms: Seq<Arm>, from: nat, env: Seq<Name>, k: Name)
    requires
        sound(st),
    ensures
        sound(case(st, s, arms, from, env, k).0),
        scoped(case(st, s, arms, from, env, k).1, env),
    decreases arms, arms.len() + 1 + (arms.len() - from), 9nat, DtV::Fail, 0nat,
{
    lemma_error(env);
    if from > arms.len() {
    } else if from < arms.len() && arms[from as int].guard is None && never_fails(arms[from as int].pat) {
        lemma_sure(st, s, arms, from, env, k);
    } else if literal_arms(arms, from) > 0 {
        lemma_literals(st, s, arms, from, env, k);
    } else if from < arms.len() && constructors(st, st.type_of_name(s)) == Some((arms.len() - from) as nat) && covers(
        arms,
        from,
    ) {
        lemma_total(st, s, arms, from, env, k);
    } else if st.opt.trees() {
        lemma_planned(st, s, arms, from, env, k);
    } else {
        lemma_chain(st, s, arms, from, env, k);
    }
}

pub proof fn lemma_sure(st: St, s: Name, arms: Seq<Arm>, from: nat, env: Seq<Name>, k: Name)
    requires
        sound(st),
    ensures
        sound(case_sure(st, s, arms, from, env, k).0),
        scoped(case_sure(st, s, arms, from, env, k).1, env),
    decreases arms, arms.len() + 1, 3nat, DtV::Fail, 0nat,
{
    lemma_error(env);
    if from < arms.len() {
        let st1 = st.fresh_ref();
        let arm = arms[from as int];
        assert(decreases_to!(arms => arm));
        lemma_tried(st1, arm.pat, s, env, st.next_name);
        let m = tried(st1, arm.pat, s, env, st.next_name);
        lemma_expr(m.st, arm.body, m.env, k);
        let (st2, b) = expr(m.st, arm.body, m.env, k);
        lemma_plugged(m.frames, b, env, m.env);
    }
}

pub proof fn lemma_literals(st: St, s: Name, arms: Seq<Arm>, from: nat, env: Seq<Name>, k: Name)
    requires
        sound(st),
    ensures
        sound(case_literals(st, s, arms, from, env, k).0),
        scoped(case_literals(st, s, arms, from, env, k).1, env),
    decreases arms, arms.len() + 1 + (arms.len() - from), 8nat, DtV::Fail, 0nat,
{
    lemma_error(env);
    let n = literal_arms(arms, from);
    if from <= arms.len() && n > 0 {
        lemma_literal_arms(arms, from);
        if from + n < arms.len() {
            lemma_arms(st, s, arms, from + n, env, k);
        }
        let (st1, rest) = if from + n >= arms.len() {
            (st, StmtV::Error("non-exhaustive pattern match"@))
        } else {
            case(st, s, arms, from + n, env, k)
        };
        lemma_literal_tests(st1, s, arms, from, n, env, k, rest);
    }
}

pub proof fn lemma_literal_tests(
    st: St,
    s: Name,
    arms: Seq<Arm>,
    from: nat,
    n: nat,
    env: Seq<Name>,
    k: Name,
    rest: StmtV,
)
    requires
        sound(st),
        scoped(rest, env),
    ensures
        sound(literal_tests(st, s, arms, from, n, env, k, rest).0),
        scoped(literal_tests(st, s, arms, from, n, env, k, rest).1, env),
    decreases arms, n, 3nat, DtV::Fail, 0nat,
{
    if n > 0 && from + n <= arms.len() {
        let arm = arms[from + n - 1];
        assert(decreases_to!(arms => arm));
        lemma_expr(st, arm.body, env, k);
        let (st1, yes) = expr(st, arm.body, env, k);
        if let Pat::Lit(l) = arm.pat {
            let op = ExternV::BranchPrimK(Prim::Eq, l);
            lemma_two(op, seq![s], env, rest, yes);
            lemma_literal_tests(st1, s, arms, from, (n - 1) as nat, env, k, two_v(op, seq![s], env, rest, yes));
        }
    }
}

pub proof fn lemma_total(st: St, s: Name, arms: Seq<Arm>, from: nat, env: Seq<Name>, k: Name)
    requires
        sound(st),
    ensures
        sound(case_total(st, s, arms, from, env, k).0),
        scoped(case_total(st, s, arms, from, env, k).1, env),
    decreases arms, arms.len() + 1, 4nat, DtV::Fail, 0nat,
{
    lemma_error(env);
    if from <= arms.len() {
        let of = st.type_of_name(s);
        let n = (arms.len() - from) as nat;
        lemma_switch_arms(st.fresh_ref(), of, arms, from, n, env, st.next_name, k);
        let (st2, cases) = switch_arms(st.fresh_ref(), of, arms, from, n, env, st.next_name, k);
        lemma_switch_cased(s, cases, env, StmtV::Error("non-exhaustive pattern match"@));
    }
}

pub proof fn lemma_planned(st: St, s: Name, arms: Seq<Arm>, from: nat, env: Seq<Name>, k: Name)
    requires
        sound(st),
    ensures
        sound(case_planned(st, s, arms, from, env, k).0),
        scoped(case_planned(st, s, arms, from, env, k).1, env),
    decreases arms, arms.len() + 1 + (arms.len() - from), 8nat, DtV::Fail, 0nat,
{
    lemma_error(env);
    if from <= arms.len() {
        let n = (arms.len() - from) as nat;
        lemma_plan(st, case_rows(s, arms, from), arms, n);
        let p = plan(st, case_rows(s, arms, from), arms, n);
        lemma_prefix(p.st, s, arms, from, env, k);
        lemma_prefix(st, s, arms, from, env, k);
        if let Some(dt) = p.got {
            lemma_emit_planned(p.st, dt, arms, env, k);
        }
    }
}

pub proof fn lemma_prefix(st: St, s: Name, arms: Seq<Arm>, from: nat, env: Seq<Name>, k: Name)
    requires
        sound(st),
    ensures
        sound(case_prefix(st, s, arms, from, env, k).0),
        scoped(case_prefix(st, s, arms, from, env, k).1, env),
    decreases arms, arms.len() + 1 + (arms.len() - from), 7nat, DtV::Fail, 0nat,
{
    lemma_error(env);
    let n = ctor_arms(arms, from, from);
    if from > arms.len() {
    } else if n < 2 {
        lemma_chain(st, s, arms, from, env, k);
    } else {
        lemma_ctor_arms(arms, from, from);
        let rest = st.next_name;
        let st1 = st.fresh_ref();
        let at = seq![rest] + env;
        lemma_switch_arms(st1, st1.type_of_name(s), arms, from, n, at, rest, k);
        let (st2, cases) = switch_arms(st1, st1.type_of_name(s), arms, from, n, at, rest, k);
        lemma_invoke(seq![rest], rest, at);
        let switch = switch_v(s, cases, at, enter_v(rest));
        lemma_switch_cased(s, cases, at, enter_v(rest));
        if from + n < arms.len() {
            lemma_arms(st2, s, arms, from + n, env, k);
        }
        let (st3, body) = if from + n >= arms.len() {
            (st2, StmtV::Error("non-exhaustive pattern match"@))
        } else {
            case(st2, s, arms, from + n, env, k)
        };
        lemma_object(rest, env, BlockV { params: env, body }, switch, env);
    }
}

pub proof fn lemma_switch_arms(st: St, of: Option<Ty>, arms: Seq<Arm>, from: nat, n: nat, env: Seq<Name>, fail: Name, k: Name)
    requires
        sound(st),
    ensures
        sound(switch_arms(st, of, arms, from, n, env, fail, k).0),
        cased(switch_arms(st, of, arms, from, n, env, fail, k).1, env),
    decreases arms, n, 3nat, DtV::Fail, 0nat,
{
    if n > 0 && from + n <= arms.len() {
        lemma_switch_arms(st, of, arms, from, (n - 1) as nat, env, fail, k);
        let (st0, cases) = switch_arms(st, of, arms, from, (n - 1) as nat, env, fail, k);
        let arm = arms[from + n - 1];
        assert(decreases_to!(arms => arm));
        if let Pat::Ctor(c, subs) = arm.pat {
            lemma_arm_tests(st0, c, subs@, of, env, fail);
            let t = arm_tests(st0, c, subs@, of, env, fail);
            lemma_arm_body(t.m.st, arm, t.m.env, fail, k);
            let (st3, body) = arm_body(t.m.st, arm, t.m.env, fail, k);
            lemma_plugged(t.m.frames, body, t.arm_env, t.m.env);
            lemma_cased(cases, t.tag, t.arm_env, plugged(t.m.frames, body), env);
        }
    } else {
        lemma_none_cased(env);
    }
}

pub proof fn lemma_arm_body(st: St, arm: Arm, env: Seq<Name>, fail: Name, k: Name)
    requires
        sound(st),
    ensures
        sound(arm_body(st, arm, env, fail, k).0),
        scoped(arm_body(st, arm, env, fail, k).1, env),
    decreases arm, 0nat, 4nat, DtV::Fail, 0nat,
{
    lemma_error(env);
    match arm.guard {
        None => {
            assert(decreases_to!(arm => arm.body));
            lemma_expr(st, arm.body, env, k);
        },
        Some(guard) => {
            lemma_guarded(st, arm, guard, env, fail, k);
        },
    }
}

} // verus!
