//! The names a decision tree tests and binds.

use super::bring_parts::taken_names;
use super::reach::{arms_tidy, lemma_pattern_vars, Kinds};
use super::scheme::{case_rows, name_first, name_items, takes_apart, tuple_rows, tuple_size, tuple_tests};
use super::shape::tree_takes;
use super::state::{bump, St};
use super::stride::LAST;
use super::tree::{
    add_test, all_some, at_most, budget_for, build, build_cases, build_lits, ctors, field_tests, lits, name_subs,
    name_tuple, named_places, plan, replaced, rows_for, rows_for_lit, settle_first, settled, specialized,
    specialized_lit, specialized_tuple, test_of, tested, untested, DtV, RowV,
};
use super::types::{field_names, name_fields};
use super::went::fit_arms;
use crate::seq::ir::Name;
use crate::terms::prim::Lit;
use crate::terms::symbol::Sym;
use crate::terms::term::{pattern_vars, patterns_vars, Arm, Pat, Term, Var};
use crate::terms::ty::Ty;
use vstd::prelude::*;

verus! {

/// Is `v` bound by one of `binds`?
pub open spec fn binds_var(binds: Seq<(Var, Name)>, v: Var) -> bool {
    exists|i: int| 0 <= i < binds.len() && (#[trigger] binds[i]).0 == v
}

/// A tree tests and binds only names that are there, and its leaves bind the variables
/// of their arms' patterns.
pub open spec fn rooted(dt: DtV, arms: Seq<Arm>, have: Set<Name>) -> bool
    decreases dt,
{
    match dt {
        DtV::Fail => true,
        DtV::Leaf { arm, binds, otherwise } => {
            &&& forall|i: int| 0 <= i < binds.len() ==> have.contains((#[trigger] binds[i]).1)
            &&& arm < arms.len() ==> forall|v: Var| #[trigger]
                pattern_vars(Seq::empty(), arms[arm as int].pat).contains(v) ==> binds_var(binds, v)
            &&& otherwise is Some ==> rooted(*otherwise->0, arms, have)
        },
        DtV::Switch { occ, cases, default } => {
            &&& have.contains(occ)
            &&& cases_rooted(cases, arms, have)
            &&& default is Some ==> rooted(*default->0, arms, have)
        },
        DtV::Lits { occ, lits, rest } => {
            &&& have.contains(occ)
            &&& lits_rooted(lits, arms, have)
            &&& rooted(*rest, arms, have)
        },
        DtV::Tuple { occ, fields, next } => have.contains(occ) && rooted(
            *next,
            arms,
            have.union(taken_names(fields)),
        ),
    }
}

pub open spec fn cases_rooted(cases: Seq<(Sym, Seq<Name>, DtV)>, arms: Seq<Arm>, have: Set<Name>) -> bool
    decreases cases,
{
    forall|i: int| 0 <= i < cases.len() ==> rooted((#[trigger] cases[i]).2, arms, have.union(cases[i].1.to_set()))
}

pub open spec fn lits_rooted(lits: Seq<(Lit, DtV)>, arms: Seq<Arm>, have: Set<Name>) -> bool
    decreases lits,
{
    forall|i: int| 0 <= i < lits.len() ==> rooted((#[trigger] lits[i]).1, arms, have)
}

/// The pattern under the variables a pattern binds to the whole.
pub open spec fn bare(p: Pat) -> Pat
    decreases p,
{
    match p {
        Pat::As(_, _, sub) => bare(*sub),
        p => p,
    }
}

/// Two patterns for one value: a tuple is taken apart by tuples of its size only, and a
/// constructor has one number of fields.
pub open spec fn alike(p: Pat, q: Pat) -> bool
    decreases p,
{
    match p {
        Pat::As(_, _, sub) => alike(*sub, q),
        Pat::Ctor(c, ps) => match bare(q) {
            Pat::Ctor(d, qs) => c == d ==> ps@.len() == qs@.len() && forall|i: int|
                0 <= i < ps@.len() ==> alike(#[trigger] ps@[i], qs@[i]),
            Pat::Tuple(_) => false,
            _ => true,
        },
        Pat::Tuple(ps) => match bare(q) {
            Pat::Tuple(qs) => ps@.len() == qs@.len() && forall|i: int|
                0 <= i < ps@.len() ==> alike(#[trigger] ps@[i], qs@[i]),
            Pat::Wild => true,
            Pat::Var(_, _) => true,
            _ => false,
        },
        Pat::Wild => true,
        Pat::Var(_, _) => true,
        _ => !(bare(q) is Tuple),
    }
}

proof fn lemma_bare(p: Pat, q: Pat)
    ensures
        alike(bare(p), q) == alike(p, q),
        alike(p, bare(q)) == alike(p, q),
        bare(bare(p)) == bare(p),
    decreases p,
{
    lemma_bare_twice(q);
    lemma_bare_twice(p);
    if let Pat::As(_, _, sub) = p {
        lemma_bare(*sub, q);
    }
}

proof fn lemma_bare_twice(p: Pat)
    ensures
        bare(bare(p)) == bare(p),
        !(bare(p) is As),
        tree_takes(p) ==> tree_takes(bare(p)),
    decreases p,
{
    if let Pat::As(_, _, sub) = p {
        lemma_bare_twice(*sub);
    }
}

/// Does one of some tests bind `v`?
pub open spec fn tests_var(tests: Seq<(Name, Pat)>, v: Var) -> bool {
    exists|t: int| 0 <= t < tests.len() && pattern_vars(Seq::empty(), (#[trigger] tests[t]).1).contains(v)
}

/// A row tests and binds what it has, and between them its tests and its bindings bind
/// its arm's variables.
pub open spec fn row_ok(row: RowV, arms: Seq<Arm>, have: Set<Name>, hi: u32) -> bool {
    &&& forall|t: int|
        0 <= t < row.tests.len() ==> have.contains((#[trigger] row.tests[t]).0) && row.tests[t].0 < hi && tree_takes(
            row.tests[t].1,
        )
    &&& forall|b: int| 0 <= b < row.binds.len() ==> have.contains((#[trigger] row.binds[b]).1)
    &&& row.arm < arms.len() ==> forall|v: Var| #[trigger]
        pattern_vars(Seq::empty(), arms[row.arm as int].pat).contains(v) ==> binds_var(row.binds, v) || tests_var(
            row.tests,
            v,
        )
}

/// Two rows' tests of one name are alike.
pub open spec fn pair_ok(a: RowV, b: RowV) -> bool {
    forall|t: int, u: int|
        0 <= t < a.tests.len() && 0 <= u < b.tests.len() && (#[trigger] a.tests[t]).0 == (#[trigger] b.tests[u]).0
            ==> alike(a.tests[t].1, b.tests[u].1)
}

#[verifier::opaque]
pub open spec fn rows_ok(rows: Seq<RowV>, arms: Seq<Arm>, have: Set<Name>, hi: u32) -> bool {
    &&& forall|i: int| 0 <= i < rows.len() ==> row_ok(#[trigger] rows[i], arms, have, hi)
    &&& forall|i: int, j: int|
        0 <= i < rows.len() && 0 <= j < rows.len() ==> pair_ok(#[trigger] rows[i], #[trigger] rows[j])
}

proof fn lemma_rows_later(rows: Seq<RowV>, arms: Seq<Arm>, have: Set<Name>, hi: u32, hi2: u32)
    requires
        rows_ok(rows, arms, have, hi),
        hi <= hi2,
    ensures
        rows_ok(rows, arms, have, hi2),
{
    reveal(rows_ok);
    assert forall|i: int| 0 <= i < rows.len() implies row_ok(#[trigger] rows[i], arms, have, hi2) by {
        assert(row_ok(rows[i], arms, have, hi));
    }
}

/// Some of the rows.
proof fn lemma_some_rows(rows: Seq<RowV>, some: Seq<RowV>, arms: Seq<Arm>, have: Set<Name>, hi: u32)
    requires
        rows_ok(rows, arms, have, hi),
        forall|i: int| 0 <= i < some.len() ==> rows.contains(#[trigger] some[i]),
    ensures
        rows_ok(some, arms, have, hi),
{
    reveal(rows_ok);
    assert forall|i: int| 0 <= i < some.len() implies row_ok(#[trigger] some[i], arms, have, hi) by {
        let k = choose|k: int| 0 <= k < rows.len() && rows[k] == some[i];
        assert(row_ok(rows[k], arms, have, hi));
    }
    assert forall|i: int, j: int| 0 <= i < some.len() && 0 <= j < some.len() implies pair_ok(
        #[trigger] some[i],
        #[trigger] some[j],
    ) by {
        let k = choose|k: int| 0 <= k < rows.len() && rows[k] == some[i];
        let m = choose|m: int| 0 <= m < rows.len() && rows[m] == some[j];
        assert(pair_ok(rows[k], rows[m]));
    }
}

// --- settled rows ---

/// One of the first `n` tests, without its variables.
spec fn was_test(row: RowV, n: nat, x: (Name, Pat)) -> bool {
    exists|u: int|
        0 <= u < n && u < row.tests.len() && (#[trigger] row.tests[u]).0 == x.0 && x.1 == bare(row.tests[u].1)
}

/// A binding there was, or one of a name the first `n` tests are of.
spec fn was_bound(row: RowV, n: nat, x: (Var, Name)) -> bool {
    row.binds.contains(x) || exists|u: int| 0 <= u < n && u < row.tests.len() && (#[trigger] row.tests[u]).0 == x.1
}

/// What settling has kept of the first `n` tests.
spec fn settles(row: RowV, r: RowV, n: nat) -> bool {
    &&& r.arm == row.arm
    &&& forall|t: int|
        0 <= t < r.tests.len() ==> was_test(row, n, #[trigger] r.tests[t]) && !(r.tests[t].1 is Wild) && !(r.tests[t].1 is Var)
            && !(r.tests[t].1 is As)
    &&& forall|b: int| 0 <= b < r.binds.len() ==> was_bound(row, n, #[trigger] r.binds[b])
    &&& forall|v: Var| #[trigger] binds_var(row.binds, v) ==> binds_var(r.binds, v)
    &&& forall|u: int, v: Var|
        0 <= u < n && u < row.tests.len() && #[trigger] pattern_vars(Seq::empty(), row.tests[u].1).contains(v)
            ==> binds_var(r.binds, v) || tests_var(r.tests, v)
}

proof fn lemma_bound_more(binds: Seq<(Var, Name)>, v: Var, x: Name)
    ensures
        binds_var(binds.push((v, x)), v),
        forall|w: Var| #[trigger] binds_var(binds, w) ==> binds_var(binds.push((v, x)), w),
{
    let now = binds.push((v, x));
    assert(now[binds.len() as int].0 == v);
    assert forall|w: Var| #[trigger] binds_var(binds, w) implies binds_var(now, w) by {
        let i = choose|i: int| 0 <= i < binds.len() && (#[trigger] binds[i]).0 == w;
        assert(now[i].0 == w);
    }
}

/// One more test added to a row.
proof fn lemma_add_test(row: RowV, x: Name, p: Pat)
    ensures
        ({
            let r = add_test(row, x, p);
            &&& r.arm == row.arm
            &&& r.tests == row.tests || (r.tests == row.tests.push((x, bare(p))) && !(bare(p) is Wild) && !(bare(p) is Var)
                && !(bare(p) is As))
            &&& forall|b: int| 0 <= b < r.binds.len() ==> (b < row.binds.len() && #[trigger] r.binds[b] == row.binds[b])
                || r.binds[b].1 == x
            &&& row.binds.len() <= r.binds.len()
            &&& forall|w: Var| #[trigger] binds_var(row.binds, w) ==> binds_var(r.binds, w)
            &&& forall|w: Var| #[trigger]
                pattern_vars(Seq::empty(), p).contains(w) ==> binds_var(r.binds, w) || (r.tests == row.tests.push(
                    (x, bare(p)),
                ) && pattern_vars(Seq::empty(), bare(p)).contains(w))
        }),
    decreases p,
{
    match p {
        Pat::Var(v, _) => {
            lemma_bound_more(row.binds, v, x);
            assert forall|w: Var| #[trigger] pattern_vars(Seq::empty(), p).contains(w) implies binds_var(
                row.binds.push((v, x)),
                w,
            ) by {}
        },
        Pat::As(v, _, sub) => {
            let mid = RowV { binds: row.binds.push((v, x)), ..row };
            lemma_bound_more(row.binds, v, x);
            lemma_add_test(mid, x, *sub);
            let r = add_test(mid, x, *sub);
            assert forall|w: Var| #[trigger] pattern_vars(Seq::empty(), p).contains(w) implies binds_var(r.binds, w) || (
            r.tests == row.tests.push((x, bare(p))) && pattern_vars(Seq::empty(), bare(p)).contains(w)) by {
                lemma_pattern_vars(Seq::<Var>::empty().push(v), *sub, w);
                if w == v {
                    assert(binds_var(mid.binds, v));
                } else {
                    assert(!Seq::<Var>::empty().push(v).contains(w));
                    assert(pattern_vars(Seq::empty(), *sub).contains(w));
                }
            }
            assert forall|w: Var| #[trigger] binds_var(row.binds, w) implies binds_var(r.binds, w) by {
                assert(binds_var(mid.binds, w));
            }
            assert forall|b: int| 0 <= b < r.binds.len() implies (b < row.binds.len() && #[trigger] r.binds[b] == row.binds[b])
                || r.binds[b].1 == x by {
                if b < mid.binds.len() && b < row.binds.len() {
                    assert(mid.binds[b] == row.binds[b]);
                }
            }
        },
        _ => {},
    }
}

proof fn lemma_settle_first(row: RowV, n: nat)
    requires
        n <= row.tests.len(),
    ensures
        settles(row, settle_first(row, n), n),
    decreases n,
{
    if n > 0 {
        lemma_settle_first(row, (n - 1) as nat);
        let a = settle_first(row, (n - 1) as nat);
        let (x, p) = row.tests[n - 1];
        lemma_add_test(a, x, p);
        let r = settle_first(row, n);
        assert(r == add_test(a, x, p));
        assert forall|t: int| 0 <= t < r.tests.len() implies was_test(row, n, #[trigger] r.tests[t]) && !(r.tests[t].1 is Wild)
            && !(r.tests[t].1 is Var) && !(r.tests[t].1 is As) by {
            if t < a.tests.len() {
                assert(r.tests[t] == a.tests[t]);
                assert(was_test(row, (n - 1) as nat, a.tests[t]));
                let u = choose|u: int|
                    0 <= u < n - 1 && u < row.tests.len() && (#[trigger] row.tests[u]).0 == a.tests[t].0 && a.tests[t].1
                        == bare(row.tests[u].1);
                assert(row.tests[u].0 == r.tests[t].0);
            } else {
                assert(row.tests[n - 1].0 == r.tests[t].0);
            }
        }
        assert forall|b: int| 0 <= b < r.binds.len() implies was_bound(row, n, #[trigger] r.binds[b]) by {
            if b < a.binds.len() && r.binds[b] == a.binds[b] {
                assert(was_bound(row, (n - 1) as nat, a.binds[b]));
                if !row.binds.contains(a.binds[b]) {
                    let u = choose|u: int|
                        0 <= u < n - 1 && u < row.tests.len() && (#[trigger] row.tests[u]).0 == a.binds[b].1;
                    assert(row.tests[u].0 == r.binds[b].1);
                }
            } else {
                assert(row.tests[n - 1].0 == r.binds[b].1);
            }
        }
        assert forall|v: Var| #[trigger] binds_var(row.binds, v) implies binds_var(r.binds, v) by {
            assert(binds_var(a.binds, v));
        }
        assert forall|u: int, v: Var|
            0 <= u < n && u < row.tests.len() && #[trigger] pattern_vars(Seq::empty(), row.tests[u].1).contains(
                v,
            ) implies binds_var(r.binds, v) || tests_var(r.tests, v) by {
            if u < n - 1 {
                assert(binds_var(a.binds, v) || tests_var(a.tests, v));
                if tests_var(a.tests, v) {
                    let t = choose|t: int|
                        0 <= t < a.tests.len() && pattern_vars(Seq::empty(), (#[trigger] a.tests[t]).1).contains(v);
                    assert(r.tests[t] == a.tests[t]);
                }
            } else if !binds_var(r.binds, v) {
                assert(row.tests[u].1 == p);
                let t = a.tests.len() as int;
                assert(r.tests[t].1 == bare(p));
            }
        }
    }
}

proof fn lemma_settled(rows: Seq<RowV>, arms: Seq<Arm>, have: Set<Name>, hi: u32)
    requires
        rows_ok(rows, arms, have, hi),
    ensures
        rows_ok(Seq::new(rows.len(), |i: int| settled(rows[i])), arms, have, hi),
        forall|i: int, t: int|
            0 <= i < rows.len() && 0 <= t < settled(rows[i]).tests.len() ==> {
                let p = #[trigger] settled(rows[i]).tests[t].1;
                !(p is Wild) && !(p is Var) && !(p is As)
            },
{
    reveal(rows_ok);
    let now = Seq::new(rows.len(), |i: int| settled(rows[i]));
    assert forall|i: int| 0 <= i < rows.len() implies settles(rows[i], #[trigger] settled(rows[i]), rows[i].tests.len()) by {
        lemma_settle_first(rows[i], rows[i].tests.len());
    }
    assert forall|i: int| 0 <= i < now.len() implies row_ok(#[trigger] now[i], arms, have, hi) by {
        let row = rows[i];
        let r = settled(rows[i]);
        assert(row_ok(rows[i], arms, have, hi));
        assert(settles(row, r, row.tests.len()));
        assert forall|t: int| 0 <= t < r.tests.len() implies have.contains((#[trigger] r.tests[t]).0) && r.tests[t].0 < hi
            && tree_takes(r.tests[t].1) by {
            assert(was_test(row, row.tests.len(), r.tests[t]));
            let u = choose|u: int|
                0 <= u < row.tests.len() && (#[trigger] row.tests[u]).0 == r.tests[t].0 && r.tests[t].1 == bare(
                    row.tests[u].1,
                );
            lemma_bare_twice(row.tests[u].1);
            assert(have.contains(row.tests[u].0));
        }
        assert forall|b: int| 0 <= b < r.binds.len() implies have.contains((#[trigger] r.binds[b]).1) by {
            assert(was_bound(row, row.tests.len(), r.binds[b]));
            if row.binds.contains(r.binds[b]) {
                let c = choose|c: int| 0 <= c < row.binds.len() && row.binds[c] == r.binds[b];
                assert(have.contains(row.binds[c].1));
            } else {
                let u = choose|u: int| 0 <= u < row.tests.len() && (#[trigger] row.tests[u]).0 == r.binds[b].1;
                assert(have.contains(row.tests[u].0));
            }
        }
        if r.arm < arms.len() {
            assert forall|v: Var| #[trigger] pattern_vars(Seq::empty(), arms[r.arm as int].pat).contains(
                v,
            ) implies binds_var(r.binds, v) || tests_var(r.tests, v) by {
                if !binds_var(row.binds, v) {
                    assert(tests_var(row.tests, v));
                    let u = choose|u: int|
                        0 <= u < row.tests.len() && pattern_vars(Seq::empty(), (#[trigger] row.tests[u]).1).contains(v);
                    assert(pattern_vars(Seq::empty(), row.tests[u].1).contains(v));
                }
            }
        }
    }
    assert forall|i: int, j: int| 0 <= i < now.len() && 0 <= j < now.len() implies pair_ok(
        #[trigger] now[i],
        #[trigger] now[j],
    ) by {
        let (a, b) = (settled(rows[i]), settled(rows[j]));
        assert(settles(rows[i], a, rows[i].tests.len()));
        assert(settles(rows[j], b, rows[j].tests.len()));
        assert(pair_ok(rows[i], rows[j]));
        assert forall|t: int, u: int|
            0 <= t < a.tests.len() && 0 <= u < b.tests.len() && (#[trigger] a.tests[t]).0 == (#[trigger] b.tests[u]).0 implies alike(
            a.tests[t].1,
            b.tests[u].1,
        ) by {
            assert(was_test(rows[i], rows[i].tests.len(), a.tests[t]));
            assert(was_test(rows[j], rows[j].tests.len(), b.tests[u]));
            let c = choose|c: int|
                0 <= c < rows[i].tests.len() && (#[trigger] rows[i].tests[c]).0 == a.tests[t].0 && a.tests[t].1 == bare(
                    rows[i].tests[c].1,
                );
            let d = choose|d: int|
                0 <= d < rows[j].tests.len() && (#[trigger] rows[j].tests[d]).0 == b.tests[u].0 && b.tests[u].1 == bare(
                    rows[j].tests[d].1,
                );
            assert(alike(rows[i].tests[c].1, rows[j].tests[d].1));
            lemma_bare(rows[i].tests[c].1, rows[j].tests[d].1);
            lemma_bare(bare(rows[i].tests[c].1), rows[j].tests[d].1);
        }
    }
    assert forall|i: int, t: int| 0 <= i < rows.len() && 0 <= t < settled(rows[i]).tests.len() implies {
        let p = #[trigger] settled(rows[i]).tests[t].1;
        !(p is Wild) && !(p is Var) && !(p is As)
    } by {
        assert(settles(rows[i], settled(rows[i]), rows[i].tests.len()));
        let r = settled(rows[i]);
        assert(!(r.tests[t].1 is Wild));
    }
}

// --- fields ---

/// Names taken between `lo` and `hi`, no two the same.
pub open spec fn between(names: Seq<Option<Name>>, lo: u32, hi: u32) -> bool {
    &&& forall|i: int| 0 <= i < names.len() && (#[trigger] names[i]) is Some ==> lo <= names[i]->0 < hi
    &&& forall|i: int, j: int|
        0 <= i < names.len() && 0 <= j < names.len() && i != j && (#[trigger] names[i]) is Some && (#[trigger] names[j]) is Some
            ==> names[i]->0 != names[j]->0
}

proof fn lemma_field_tests(names: Seq<Option<Name>>, subs: Seq<Pat>, n: nat)
    requires
        n <= subs.len(),
    ensures
        forall|t: int|
            0 <= t < field_tests(names, subs, n).len() ==> exists|i: int|
                0 <= i < n && i < names.len() && (#[trigger] names[i]) is Some && #[trigger] field_tests(names, subs, n)[t]
                    == (names[i]->0, subs[i]),
        forall|i: int|
            0 <= i < n && i < names.len() && (#[trigger] names[i]) is Some && !(subs[i] is Wild) ==> exists|t: int|
                0 <= t < field_tests(names, subs, n).len() && #[trigger] field_tests(names, subs, n)[t] == (
                    names[i]->0,
                    subs[i],
                ),
    decreases n,
{
    if n > 0 {
        lemma_field_tests(names, subs, (n - 1) as nat);
        let a = field_tests(names, subs, (n - 1) as nat);
        let b = field_tests(names, subs, n);
        assert forall|t: int| 0 <= t < b.len() implies exists|i: int|
            0 <= i < n && i < names.len() && (#[trigger] names[i]) is Some && #[trigger] b[t] == (names[i]->0, subs[i]) by {
            if t < a.len() {
                assert(b[t] == a[t]);
                let i = choose|i: int|
                    0 <= i < n - 1 && i < names.len() && (#[trigger] names[i]) is Some && a[t] == (names[i]->0, subs[i]);
                assert(names[i] is Some);
            } else {
                assert(names[n - 1] is Some);
            }
        }
        assert forall|i: int| 0 <= i < n && i < names.len() && (#[trigger] names[i]) is Some && !(subs[i] is Wild) implies exists|
            t: int,
        |
            0 <= t < b.len() && #[trigger] b[t] == (names[i]->0, subs[i]) by {
            if i < n - 1 {
                let t = choose|t: int| 0 <= t < a.len() && #[trigger] a[t] == (names[i]->0, subs[i]);
                assert(b[t] == a[t]);
            } else {
                assert(b[a.len() as int] == (names[i]->0, subs[i]));
            }
        }
    }
}

proof fn lemma_subs_vars(out: Seq<Var>, ps: Seq<Pat>, n: nat, v: Var)
    requires
        n <= ps.len(),
        patterns_vars(out, ps, n).contains(v),
    ensures
        out.contains(v) || exists|i: int| 0 <= i < n && pattern_vars(Seq::empty(), #[trigger] ps[i]).contains(v),
    decreases n,
{
    if n > 0 {
        let a = patterns_vars(out, ps, (n - 1) as nat);
        lemma_pattern_vars(a, ps[n - 1], v);
        if a.contains(v) {
            lemma_subs_vars(out, ps, (n - 1) as nat, v);
            if !out.contains(v) {
                let i = choose|i: int| 0 <= i < n - 1 && pattern_vars(Seq::empty(), #[trigger] ps[i]).contains(v);
                assert(pattern_vars(Seq::empty(), ps[i]).contains(v));
            }
        } else {
            assert(pattern_vars(Seq::empty(), ps[n - 1]).contains(v));
        }
    }
}

proof fn lemma_test_of(tests: Seq<(Name, Pat)>, occ: Name, i: nat)
    requires
        i <= tests.len(),
    ensures
        i <= test_of(tests, occ, i) <= tests.len(),
        test_of(tests, occ, i) < tests.len() ==> tests[test_of(tests, occ, i) as int].0 == occ,
    decreases tests.len() - i,
{
    if i < tests.len() && tests[i as int].0 != occ {
        lemma_test_of(tests, occ, i + 1);
    }
}

/// What taking a test apart leaves of a row, where `subs` are the patterns under it.
pub open spec fn opened(row: RowV, r: RowV, occ: Name, names: Seq<Option<Name>>, subs: Seq<Pat>) -> bool {
    let j = test_of(row.tests, occ, 0);
    &&& j < row.tests.len()
    &&& r == replaced(row, j as int, field_tests(names, subs, subs.len()))
    &&& forall|v: Var| #[trigger]
        pattern_vars(Seq::empty(), row.tests[j as int].1).contains(v) ==> exists|i: int|
            0 <= i < subs.len() && pattern_vars(Seq::empty(), #[trigger] subs[i]).contains(v)
    &&& forall|i: int| 0 <= i < subs.len() ==> tree_takes(#[trigger] subs[i])
    &&& forall|i: int|
        0 <= i < subs.len() && !((#[trigger] subs[i]) is Wild) ==> i < names.len() && names[i] is Some
}

/// A test of a row taken apart is one it had, or one of a field.
proof fn lemma_opened_tests(row: RowV, r: RowV, occ: Name, names: Seq<Option<Name>>, subs: Seq<Pat>, t: int)
    requires
        opened(row, r, occ, names, subs),
        0 <= t < r.tests.len(),
    ensures
        (exists|u: int| 0 <= u < row.tests.len() && #[trigger] row.tests[u] == r.tests[t]) || (exists|i: int|
            0 <= i < subs.len() && i < names.len() && (#[trigger] names[i]) is Some && r.tests[t] == (
                names[i]->0,
                subs[i],
            )),
{
    let j = test_of(row.tests, occ, 0) as int;
    let f = field_tests(names, subs, subs.len());
    lemma_field_tests(names, subs, subs.len());
    if t < j {
        assert(r.tests[t] == row.tests[t]);
    } else if t < j + f.len() {
        assert(r.tests[t] == f[t - j]);
        let i = choose|i: int|
            0 <= i < subs.len() && i < names.len() && (#[trigger] names[i]) is Some && f[t - j] == (
                names[i]->0,
                subs[i],
            );
        assert(names[i] is Some);
    } else {
        assert(r.tests[t] == row.tests[t - f.len() + 1]);
    }
}

proof fn lemma_opened_row(
    row: RowV,
    r: RowV,
    occ: Name,
    names: Seq<Option<Name>>,
    subs: Seq<Pat>,
    arms: Seq<Arm>,
    have: Set<Name>,
    hi: u32,
    more: Set<Name>,
    hi2: u32,
)
    requires
        row_ok(row, arms, have, hi),
        opened(row, r, occ, names, subs),
        between(names, hi, hi2),
        hi <= hi2,
        forall|x: Name| #[trigger] have.contains(x) ==> more.contains(x),
        forall|i: int| 0 <= i < names.len() && (#[trigger] names[i]) is Some ==> more.contains(names[i]->0),
    ensures
        row_ok(r, arms, more, hi2),
{
    let j = test_of(row.tests, occ, 0) as int;
    let f = field_tests(names, subs, subs.len());
    lemma_field_tests(names, subs, subs.len());
    assert forall|t: int| 0 <= t < r.tests.len() implies more.contains((#[trigger] r.tests[t]).0) && r.tests[t].0 < hi2
        && tree_takes(r.tests[t].1) by {
        lemma_opened_tests(row, r, occ, names, subs, t);
        if exists|u: int| 0 <= u < row.tests.len() && #[trigger] row.tests[u] == r.tests[t] {
            let u = choose|u: int| 0 <= u < row.tests.len() && #[trigger] row.tests[u] == r.tests[t];
            assert(have.contains(row.tests[u].0));
        } else {
            let i = choose|i: int|
                0 <= i < subs.len() && i < names.len() && (#[trigger] names[i]) is Some && r.tests[t] == (
                    names[i]->0,
                    subs[i],
                );
            assert(more.contains(names[i]->0));
            assert(tree_takes(subs[i]));
        }
    }
    assert forall|b: int| 0 <= b < r.binds.len() implies more.contains((#[trigger] r.binds[b]).1) by {
        assert(have.contains(row.binds[b].1));
    }
    if r.arm < arms.len() {
        assert forall|v: Var| #[trigger] pattern_vars(Seq::empty(), arms[r.arm as int].pat).contains(
            v,
        ) implies binds_var(r.binds, v) || tests_var(r.tests, v) by {
            if !binds_var(row.binds, v) {
                assert(tests_var(row.tests, v));
                let u = choose|u: int|
                    0 <= u < row.tests.len() && pattern_vars(Seq::empty(), (#[trigger] row.tests[u]).1).contains(v);
                if u < j {
                    assert(r.tests[u] == row.tests[u]);
                } else if u > j {
                    assert(r.tests[u - 1 + f.len()] == row.tests[u]);
                } else {
                    let i = choose|i: int|
                        0 <= i < subs.len() && pattern_vars(Seq::empty(), #[trigger] subs[i]).contains(v);
                    assert(!(subs[i] is Wild)) by {
                        if subs[i] is Wild {
                            assert(pattern_vars(Seq::empty(), subs[i]).len() == 0);
                        }
                    }
                    assert(names[i] is Some);
                    let t = choose|t: int| 0 <= t < f.len() && #[trigger] f[t] == (names[i]->0, subs[i]);
                    assert(r.tests[j + t] == f[t]);
                }
            }
        }
    }
}

/// A row that stayed, or was taken apart.
pub open spec fn derived(row: RowV, r: RowV, occ: Name, names: Seq<Option<Name>>, subs: Option<Seq<Pat>>) -> bool {
    match subs {
        None => r == row && test_of(row.tests, occ, 0) >= row.tests.len(),
        Some(subs) => opened(row, r, occ, names, subs),
    }
}

proof fn lemma_derived_pair(
    a: RowV,
    b: RowV,
    r: RowV,
    q: RowV,
    occ: Name,
    names: Seq<Option<Name>>,
    sa: Option<Seq<Pat>>,
    sb: Option<Seq<Pat>>,
    arms: Seq<Arm>,
    have: Set<Name>,
    hi: u32,
    hi2: u32,
)
    requires
        row_ok(a, arms, have, hi),
        row_ok(b, arms, have, hi),
        pair_ok(a, b),
        derived(a, r, occ, names, sa),
        derived(b, q, occ, names, sb),
        between(names, hi, hi2),
        sa is Some && sb is Some ==> (sa->0).len() == (sb->0).len() && forall|i: int|
            0 <= i < (sa->0).len() ==> alike(#[trigger] (sa->0)[i], (sb->0)[i]),
    ensures
        pair_ok(r, q),
{
    assert forall|t: int, u: int|
        0 <= t < r.tests.len() && 0 <= u < q.tests.len() && (#[trigger] r.tests[t]).0 == (#[trigger] q.tests[u]).0 implies alike(
        r.tests[t].1,
        q.tests[u].1,
    ) by {
        if sa is Some {
            lemma_opened_tests(a, r, occ, names, sa->0, t);
        }
        if sb is Some {
            lemma_opened_tests(b, q, occ, names, sb->0, u);
        }
        let old_a = exists|c: int| 0 <= c < a.tests.len() && #[trigger] a.tests[c] == r.tests[t];
        let old_b = exists|d: int| 0 <= d < b.tests.len() && #[trigger] b.tests[d] == q.tests[u];
        assert(sa is None ==> old_a) by {
            if sa is None {
                assert(a.tests[t] == r.tests[t]);
            }
        }
        assert(sb is None ==> old_b) by {
            if sb is None {
                assert(b.tests[u] == q.tests[u]);
            }
        }
        if old_a {
            let c = choose|c: int| 0 <= c < a.tests.len() && #[trigger] a.tests[c] == r.tests[t];
            assert(a.tests[c].0 < hi);
            if old_b {
                let d = choose|d: int| 0 <= d < b.tests.len() && #[trigger] b.tests[d] == q.tests[u];
                assert(alike(a.tests[c].1, b.tests[d].1));
            } else {
                let i = choose|i: int|
                    0 <= i < (sb->0).len() && i < names.len() && (#[trigger] names[i]) is Some && q.tests[u] == (
                        names[i]->0,
                        (sb->0)[i],
                    );
                assert(hi <= names[i]->0);
            }
        } else {
            let i = choose|i: int|
                0 <= i < (sa->0).len() && i < names.len() && (#[trigger] names[i]) is Some && r.tests[t] == (
                    names[i]->0,
                    (sa->0)[i],
                );
            assert(hi <= names[i]->0);
            if old_b {
                let d = choose|d: int| 0 <= d < b.tests.len() && #[trigger] b.tests[d] == q.tests[u];
                assert(b.tests[d].0 < hi);
            } else {
                let k = choose|k: int|
                    0 <= k < (sb->0).len() && k < names.len() && (#[trigger] names[k]) is Some && q.tests[u] == (
                        names[k]->0,
                        (sb->0)[k],
                    );
                assert(i == k);
                assert(alike((sa->0)[i], (sb->0)[i]));
            }
        }
    }
}

// --- names taken ---

proof fn lemma_fields_taken(st: St, types: Option<Seq<Ty>>, subs: Seq<Pat>, n: nat)
    requires
        n <= subs.len(),
    ensures
        ({
            let (st1, names) = name_fields(st, types, subs, n);
            &&& names.len() == n
            &&& st.next_name <= st1.next_name
            &&& st1.next_name < LAST ==> between(all_some(names), st.next_name, st1.next_name)
        }),
    decreases n,
{
    if n > 0 {
        lemma_fields_taken(st, types, subs, (n - 1) as nat);
        let (a, ns) = name_fields(st, types, subs, (n - 1) as nat);
        let (b, names) = name_fields(st, types, subs, n);
        super::stride::lemma_typed(a, super::types::name_type(a, types, subs[n - 1], n - 1));
        if b.next_name < LAST {
            let (was, now) = (all_some(ns), all_some(names));
            assert(between(was, st.next_name, a.next_name));
            assert forall|i: int| 0 <= i < now.len() && (#[trigger] now[i]) is Some implies st.next_name <= now[i]->0
                < b.next_name by {
                if i < n - 1 {
                    assert(was[i] == now[i]);
                }
            }
            assert forall|i: int, j: int|
                0 <= i < now.len() && 0 <= j < now.len() && i != j && (#[trigger] now[i]) is Some && (#[trigger] now[j]) is Some implies now[i]->0
                != now[j]->0 by {
                if i < n - 1 {
                    assert(was[i] == now[i]);
                }
                if j < n - 1 {
                    assert(was[j] == now[j]);
                }
            }
        }
    }
}

proof fn lemma_subs_taken(st: St, of: Option<Ty>, names: Seq<Option<Name>>, subs: Seq<Pat>, n: nat, lo: u32)
    requires
        n <= subs.len(),
        lo <= st.next_name,
        st.next_name < LAST ==> between(names, lo, st.next_name),
    ensures
        ({
            let (st1, ns) = name_subs(st, of, names, subs, n);
            &&& ns.len() == names.len()
            &&& st.next_name <= st1.next_name
            &&& st1.next_name < LAST ==> between(ns, lo, st1.next_name)
            &&& forall|i: int| 0 <= i < names.len() && (#[trigger] names[i]) is Some ==> ns[i] is Some
            &&& forall|i: int| 0 <= i < n && i < ns.len() && !((#[trigger] subs[i]) is Wild) ==> ns[i] is Some
        }),
    decreases n,
{
    if n > 0 {
        lemma_subs_taken(st, of, names, subs, (n - 1) as nat, lo);
        let (a, was) = name_subs(st, of, names, subs, (n - 1) as nat);
        let (b, now) = name_subs(st, of, names, subs, n);
        if n <= was.len() && was[n - 1] is None && !(subs[n - 1] is Wild) {
            assert forall|ty: Option<Ty>| (#[trigger] a.fresh_typed(ty)).next_name == bump(a.next_name) by {
                super::stride::lemma_typed(a, ty);
            }
            assert(b.next_name == bump(a.next_name));
            assert(now == was.update(n - 1, Some(a.next_name)));
        }
    }
}

proof fn lemma_tuple_taken(st: St, of: Option<Ty>, names: Seq<Option<Name>>, rows: Seq<RowV>, occ: Name, n: nat, lo: u32)
    requires
        n <= rows.len(),
        lo <= st.next_name,
        st.next_name < LAST ==> between(names, lo, st.next_name),
    ensures
        ({
            let (st1, ns) = name_tuple(st, of, names, rows, occ, n);
            &&& ns.len() == names.len()
            &&& st.next_name <= st1.next_name
            &&& st1.next_name < LAST ==> between(ns, lo, st1.next_name)
            &&& forall|i: int| 0 <= i < names.len() && (#[trigger] names[i]) is Some ==> ns[i] is Some
            &&& forall|r: int| 0 <= r < n ==> named_for(#[trigger] rows[r], occ, ns)
        }),
    decreases n,
{
    if n > 0 {
        lemma_tuple_taken(st, of, names, rows, occ, (n - 1) as nat, lo);
        let (a, was) = name_tuple(st, of, names, rows, occ, (n - 1) as nat);
        let (b, now) = name_tuple(st, of, names, rows, occ, n);
        match tested(rows[n - 1], occ) {
            Some(Pat::Tuple(subs)) => {
                lemma_subs_taken(a, of, was, subs@, subs@.len(), lo);
            },
            _ => {},
        }
        assert forall|i: int| 0 <= i < names.len() && (#[trigger] names[i]) is Some implies now[i] is Some by {
            assert(was[i] is Some);
        }
        assert forall|r: int| 0 <= r < n implies named_for(#[trigger] rows[r], occ, now) by {
            if r < n - 1 {
                assert(named_for(rows[r], occ, was));
                if let Some(Pat::Tuple(subs)) = tested(rows[r], occ) {
                    assert forall|i: int| 0 <= i < subs@.len() && i < now.len() && !((#[trigger] subs@[i]) is Wild) implies now[i] is Some by {
                        assert(was[i] is Some);
                    }
                }
            }
        }
    }
}

/// Every field a row's test of `occ` looks at has a name.
pub open spec fn named_for(row: RowV, occ: Name, names: Seq<Option<Name>>) -> bool {
    match tested(row, occ) {
        Some(Pat::Tuple(subs)) => forall|i: int|
            0 <= i < subs@.len() && i < names.len() && !((#[trigger] subs@[i]) is Wild) ==> names[i] is Some,
        _ => true,
    }
}

proof fn lemma_places(names: Seq<Option<Name>>, n: nat)
    requires
        n <= names.len(),
    ensures
        forall|i: int| 0 <= i < n && (#[trigger] names[i]) is Some ==> taken_names(named_places(names, n)).contains(names[i]->0),
    decreases n,
{
    if n > 0 {
        lemma_places(names, (n - 1) as nat);
        let a = named_places(names, (n - 1) as nat);
        let b = named_places(names, n);
        assert forall|x: Name| taken_names(a).contains(x) implies #[trigger] taken_names(b).contains(x) by {
            let i = choose|i: int| 0 <= i < a.len() && (#[trigger] a[i]).1 == x;
            assert(b[i] == a[i]);
        }
        if names[n - 1] is Some {
            assert(b[a.len() as int].1 == names[n - 1]->0);
        }
    }
}

// --- rows taken apart ---

/// Which rows there are, each of a row there was.
pub open spec fn all_derived(
    rows: Seq<RowV>,
    some: Seq<RowV>,
    occ: Name,
    names: Seq<Option<Name>>,
    from: Seq<int>,
    subs: Seq<Option<Seq<Pat>>>,
) -> bool {
    &&& from.len() == some.len()
    &&& subs.len() == some.len()
    &&& forall|i: int|
        0 <= i < some.len() ==> 0 <= #[trigger] from[i] < rows.len() && derived(
            rows[from[i]],
            some[i],
            occ,
            names,
            subs[i],
        )
    &&& forall|i: int, j: int|
        0 <= i < some.len() && 0 <= j < some.len() && (#[trigger] subs[i]) is Some && (#[trigger] subs[j]) is Some ==> (
        subs[i]->0).len() == (subs[j]->0).len() && forall|k: int|
            0 <= k < (subs[i]->0).len() ==> alike(#[trigger] (subs[i]->0)[k], (subs[j]->0)[k])
}

proof fn lemma_all_derived(
    rows: Seq<RowV>,
    some: Seq<RowV>,
    occ: Name,
    names: Seq<Option<Name>>,
    from: Seq<int>,
    subs: Seq<Option<Seq<Pat>>>,
    arms: Seq<Arm>,
    have: Set<Name>,
    hi: u32,
    more: Set<Name>,
    hi2: u32,
)
    requires
        rows_ok(rows, arms, have, hi),
        all_derived(rows, some, occ, names, from, subs),
        between(names, hi, hi2),
        hi <= hi2,
        forall|x: Name| #[trigger] have.contains(x) ==> more.contains(x),
        forall|i: int| 0 <= i < names.len() && (#[trigger] names[i]) is Some ==> more.contains(names[i]->0),
    ensures
        rows_ok(some, arms, more, hi2),
{
    reveal(rows_ok);
    assert forall|i: int| 0 <= i < some.len() implies row_ok(#[trigger] some[i], arms, more, hi2) by {
        let row = rows[from[i]];
        assert(row_ok(rows[from[i]], arms, have, hi));
        assert(derived(row, some[i], occ, names, subs[i]));
        if subs[i] is Some {
            lemma_opened_row(row, some[i], occ, names, subs[i]->0, arms, have, hi, more, hi2);
        } else {
            assert forall|t: int| 0 <= t < row.tests.len() implies more.contains((#[trigger] row.tests[t]).0) by {
                assert(have.contains(row.tests[t].0));
            }
            assert forall|b: int| 0 <= b < row.binds.len() implies more.contains((#[trigger] row.binds[b]).1) by {
                assert(have.contains(row.binds[b].1));
            }
        }
    }
    assert forall|i: int, j: int| 0 <= i < some.len() && 0 <= j < some.len() implies pair_ok(
        #[trigger] some[i],
        #[trigger] some[j],
    ) by {
        assert(0 <= from[i] < rows.len() && 0 <= from[j] < rows.len());
        assert(row_ok(rows[from[i]], arms, have, hi));
        assert(row_ok(rows[from[j]], arms, have, hi));
        assert(pair_ok(rows[from[i]], rows[from[j]]));
        lemma_derived_pair(
            rows[from[i]],
            rows[from[j]],
            some[i],
            some[j],
            occ,
            names,
            subs[i],
            subs[j],
            arms,
            have,
            hi,
            hi2,
        );
    }
}

/// The patterns under a row's test of `occ`, if it has one.
pub open spec fn under(row: RowV, occ: Name) -> Option<Seq<Pat>> {
    match tested(row, occ) {
        Some(Pat::Ctor(_, subs)) => Some(subs@),
        Some(Pat::Tuple(subs)) => Some(subs@),
        Some(_) => Some(Seq::empty()),
        None => None,
    }
}

proof fn lemma_tested(row: RowV, occ: Name)
    ensures
        tested(row, occ) is Some ==> ({
            let j = test_of(row.tests, occ, 0);
            j < row.tests.len() && row.tests[j as int] == (occ, tested(row, occ)->0)
        }),
        tested(row, occ) is None ==> test_of(row.tests, occ, 0) >= row.tests.len(),
{
    lemma_test_of(row.tests, occ, 0);
}

/// Two rows' tests of one name.
proof fn lemma_both_tested(rows: Seq<RowV>, arms: Seq<Arm>, have: Set<Name>, hi: u32, i: int, j: int, occ: Name)
    requires
        rows_ok(rows, arms, have, hi),
        0 <= i < rows.len(),
        0 <= j < rows.len(),
        tested(rows[i], occ) is Some,
        tested(rows[j], occ) is Some,
    ensures
        alike(tested(rows[i], occ)->0, tested(rows[j], occ)->0),
{
    reveal(rows_ok);
    lemma_tested(rows[i], occ);
    lemma_tested(rows[j], occ);
    assert(pair_ok(rows[i], rows[j]));
    let (t, u) = (test_of(rows[i].tests, occ, 0) as int, test_of(rows[j].tests, occ, 0) as int);
    assert(rows[i].tests[t].0 == rows[j].tests[u].0);
}

proof fn lemma_takes(rows: Seq<RowV>, arms: Seq<Arm>, have: Set<Name>, hi: u32, i: int, occ: Name)
    requires
        rows_ok(rows, arms, have, hi),
        0 <= i < rows.len(),
        tested(rows[i], occ) is Some,
    ensures
        tree_takes(tested(rows[i], occ)->0),
        have.contains(occ),
{
    reveal(rows_ok);
    lemma_tested(rows[i], occ);
    assert(row_ok(rows[i], arms, have, hi));
    let t = test_of(rows[i].tests, occ, 0) as int;
    assert(have.contains(rows[i].tests[t].0));
}

/// A row whose test is taken apart.
proof fn lemma_opens(row: RowV, occ: Name, names: Seq<Option<Name>>)
    requires
        tested(row, occ) is Some,
        tree_takes(tested(row, occ)->0),
        !(tested(row, occ)->0 is As),
        !(tested(row, occ)->0 is Var),
        forall|i: int|
            0 <= i < (under(row, occ)->0).len() && !((#[trigger] (under(row, occ)->0)[i]) is Wild) ==> i < names.len()
                && names[i] is Some,
    ensures
        ({
            let subs = under(row, occ)->0;
            let j = test_of(row.tests, occ, 0) as int;
            opened(row, replaced(row, j, field_tests(names, subs, subs.len())), occ, names, subs)
        }),
{
    lemma_tested(row, occ);
    let subs = under(row, occ)->0;
    let p = tested(row, occ)->0;
    assert forall|v: Var| #[trigger] pattern_vars(Seq::empty(), p).contains(v) implies exists|i: int|
        0 <= i < subs.len() && pattern_vars(Seq::empty(), #[trigger] subs[i]).contains(v) by {
        match p {
            Pat::Ctor(_, ps) => {
                lemma_subs_vars(Seq::empty(), ps@, ps@.len(), v);
            },
            Pat::Tuple(ps) => {
                lemma_subs_vars(Seq::empty(), ps@, ps@.len(), v);
            },
            _ => {},
        }
    }
}

proof fn lemma_rows_for(rows: Seq<RowV>, occ: Name, c: Sym, fields: Seq<Name>, n: nat)
    requires
        n <= rows.len(),
    ensures
        forall|i: int|
            0 <= i < rows_for(rows, occ, c, fields, n).len() ==> kept_for(
                rows,
                occ,
                c,
                fields,
                #[trigger] rows_for(rows, occ, c, fields, n)[i],
            ),
    decreases n,
{
    if n > 0 {
        lemma_rows_for(rows, occ, c, fields, (n - 1) as nat);
        if specialized(rows[n - 1], occ, c, fields) is Some {
            let r = specialized(rows[n - 1], occ, c, fields)->0;
            assert(specialized(rows[n - 1], occ, c, fields) == Some(r));
        }
        let (a, b) = (rows_for(rows, occ, c, fields, (n - 1) as nat), rows_for(rows, occ, c, fields, n));
        assert forall|i: int| 0 <= i < b.len() implies kept_for(rows, occ, c, fields, #[trigger] b[i]) by {
            if i < a.len() {
                assert(b[i] == a[i]);
            }
        }
    }
}

pub open spec fn kept_for(rows: Seq<RowV>, occ: Name, c: Sym, fields: Seq<Name>, r: RowV) -> bool {
    exists|k: int| 0 <= k < rows.len() && #[trigger] specialized(rows[k], occ, c, fields) == Some(r)
}

proof fn lemma_for_ctor(
    rows: Seq<RowV>,
    arms: Seq<Arm>,
    have: Set<Name>,
    hi: u32,
    occ: Name,
    c: Sym,
    subs: Vec<Pat>,
    fields: Seq<Name>,
    hi2: u32,
    k0: int,
)
    requires
        rows_ok(rows, arms, have, hi),
        0 <= k0 < rows.len(),
        tested(rows[k0], occ) == Some(Pat::Ctor(c, subs)),
        fields.len() == subs@.len(),
        hi <= hi2,
        between(all_some(fields), hi, hi2),
    ensures
        rows_ok(rows_for(rows, occ, c, fields, rows.len()), arms, have.union(fields.to_set()), hi2),
{
    let some = rows_for(rows, occ, c, fields, rows.len());
    let names = all_some(fields);
    lemma_rows_for(rows, occ, c, fields, rows.len());
    let from = Seq::new(
        some.len(),
        |i: int| choose|k: int| 0 <= k < rows.len() && #[trigger] specialized(rows[k], occ, c, fields) == Some(some[i]),
    );
    let under_each = Seq::new(some.len(), |i: int| under(rows[from[i]], occ));
    assert forall|i: int| 0 <= i < some.len() implies 0 <= #[trigger] from[i] < rows.len() && derived(
        rows[from[i]],
        some[i],
        occ,
        names,
        under_each[i],
    ) by {
        assert(kept_for(rows, occ, c, fields, some[i]));
        let row = rows[from[i]];
        lemma_tested(row, occ);
        if tested(row, occ) is Some {
            lemma_takes(rows, arms, have, hi, from[i], occ);
            lemma_both_tested(rows, arms, have, hi, k0, from[i], occ);
            lemma_opens(row, occ, names);
        }
    }
    assert forall|i: int, j: int|
        0 <= i < some.len() && 0 <= j < some.len() && (#[trigger] under_each[i]) is Some && (#[trigger] under_each[j]) is Some implies (
    under_each[i]->0).len() == (under_each[j]->0).len() && forall|k: int|
        0 <= k < (under_each[i]->0).len() ==> alike(#[trigger] (under_each[i]->0)[k], (under_each[j]->0)[k]) by {
        assert(0 <= from[i] < rows.len() && 0 <= from[j] < rows.len());
        assert(kept_for(rows, occ, c, fields, some[i]));
        assert(kept_for(rows, occ, c, fields, some[j]));
        lemma_both_tested(rows, arms, have, hi, from[i], from[j], occ);
    }
    assert forall|i: int| 0 <= i < names.len() && (#[trigger] names[i]) is Some implies have.union(
        fields.to_set(),
    ).contains(names[i]->0) by {
        assert(fields.contains(fields[i]));
    }
    lemma_all_derived(rows, some, occ, names, from, under_each, arms, have, hi, have.union(fields.to_set()), hi2);
}

pub open spec fn kept_for_lit(rows: Seq<RowV>, occ: Name, l: Lit, r: RowV) -> bool {
    exists|k: int| 0 <= k < rows.len() && #[trigger] specialized_lit(rows[k], occ, l) == Some(r)
}

proof fn lemma_rows_for_lit(rows: Seq<RowV>, occ: Name, l: Lit, n: nat)
    requires
        n <= rows.len(),
    ensures
        forall|i: int|
            0 <= i < rows_for_lit(rows, occ, l, n).len() ==> kept_for_lit(
                rows,
                occ,
                l,
                #[trigger] rows_for_lit(rows, occ, l, n)[i],
            ),
    decreases n,
{
    if n > 0 {
        lemma_rows_for_lit(rows, occ, l, (n - 1) as nat);
        if specialized_lit(rows[n - 1], occ, l) is Some {
            let r = specialized_lit(rows[n - 1], occ, l)->0;
            assert(specialized_lit(rows[n - 1], occ, l) == Some(r));
        }
        let (a, b) = (rows_for_lit(rows, occ, l, (n - 1) as nat), rows_for_lit(rows, occ, l, n));
        assert forall|i: int| 0 <= i < b.len() implies kept_for_lit(rows, occ, l, #[trigger] b[i]) by {
            if i < a.len() {
                assert(b[i] == a[i]);
            }
        }
    }
}

proof fn lemma_for_lit(rows: Seq<RowV>, arms: Seq<Arm>, have: Set<Name>, hi: u32, occ: Name, l: Lit)
    requires
        rows_ok(rows, arms, have, hi),
    ensures
        rows_ok(rows_for_lit(rows, occ, l, rows.len()), arms, have, hi),
{
    let some = rows_for_lit(rows, occ, l, rows.len());
    let names = Seq::<Option<Name>>::empty();
    lemma_rows_for_lit(rows, occ, l, rows.len());
    let from = Seq::new(
        some.len(),
        |i: int| choose|k: int| 0 <= k < rows.len() && #[trigger] specialized_lit(rows[k], occ, l) == Some(some[i]),
    );
    let under_each = Seq::new(some.len(), |i: int| under(rows[from[i]], occ));
    assert forall|i: int| 0 <= i < some.len() implies 0 <= #[trigger] from[i] < rows.len() && derived(
        rows[from[i]],
        some[i],
        occ,
        names,
        under_each[i],
    ) && (under_each[i] is Some ==> (under_each[i]->0).len() == 0) by {
        assert(kept_for_lit(rows, occ, l, some[i]));
        let row = rows[from[i]];
        lemma_tested(row, occ);
        if tested(row, occ) is Some {
            lemma_takes(rows, arms, have, hi, from[i], occ);
            lemma_opens(row, occ, names);
        }
    }
    assert forall|i: int, j: int|
        0 <= i < some.len() && 0 <= j < some.len() && (#[trigger] under_each[i]) is Some && (#[trigger] under_each[j]) is Some implies (
    under_each[i]->0).len() == (under_each[j]->0).len() by {
        assert(0 <= from[i] < rows.len() && 0 <= from[j] < rows.len());
    }
    lemma_all_derived(rows, some, occ, names, from, under_each, arms, have, hi, have, hi);
}

proof fn lemma_for_tuple(
    rows: Seq<RowV>,
    arms: Seq<Arm>,
    have: Set<Name>,
    hi: u32,
    occ: Name,
    subs: Vec<Pat>,
    names: Seq<Option<Name>>,
    hi2: u32,
)
    requires
        rows_ok(rows, arms, have, hi),
        rows.len() > 0,
        tested(rows[0], occ) == Some(Pat::Tuple(subs)),
        names.len() == subs@.len(),
        hi <= hi2,
        between(names, hi, hi2),
        forall|r: int| 0 <= r < rows.len() ==> named_for(#[trigger] rows[r], occ, names),
        forall|r: int, t: int|
            0 <= r < rows.len() && 0 <= t < rows[r].tests.len() ==> {
                let p = #[trigger] rows[r].tests[t].1;
                !(p is Wild) && !(p is Var) && !(p is As)
            },
    ensures
        rows_ok(
            Seq::new(rows.len(), |i: int| specialized_tuple(rows[i], occ, names)),
            arms,
            have.union(taken_names(named_places(names, names.len()))),
            hi2,
        ),
{
    let some = Seq::new(rows.len(), |i: int| specialized_tuple(rows[i], occ, names));
    let more = have.union(taken_names(named_places(names, names.len())));
    lemma_places(names, names.len());
    let from = Seq::new(rows.len(), |i: int| i);
    let under_each = Seq::new(rows.len(), |i: int| under(rows[i], occ));
    assert forall|i: int| 0 <= i < some.len() implies 0 <= #[trigger] from[i] < rows.len() && derived(
        rows[from[i]],
        some[i],
        occ,
        names,
        under_each[i],
    ) && (tested(rows[i], occ) is Some ==> tested(rows[i], occ)->0 is Tuple) by {
        let row = rows[i];
        lemma_tested(row, occ);
        if tested(row, occ) is Some {
            let t = test_of(row.tests, occ, 0) as int;
            let p = rows[i].tests[t].1;
            assert(p == tested(row, occ)->0);
            assert(!(p is Wild) && !(p is Var) && !(p is As));
            lemma_takes(rows, arms, have, hi, i, occ);
            lemma_both_tested(rows, arms, have, hi, 0, i, occ);
            assert(alike(Pat::Tuple(subs), p));
            assert(p is Tuple);
            assert(named_for(rows[i], occ, names));
            lemma_opens(row, occ, names);
        }
    }
    assert forall|i: int, j: int|
        0 <= i < some.len() && 0 <= j < some.len() && (#[trigger] under_each[i]) is Some && (#[trigger] under_each[j]) is Some implies (
    under_each[i]->0).len() == (under_each[j]->0).len() && forall|k: int|
        0 <= k < (under_each[i]->0).len() ==> alike(#[trigger] (under_each[i]->0)[k], (under_each[j]->0)[k]) by {
        assert(0 <= from[i] < rows.len() && 0 <= from[j] < rows.len());
        lemma_both_tested(rows, arms, have, hi, i, j, occ);
    }
    lemma_all_derived(rows, some, occ, names, from, under_each, arms, have, hi, more, hi2);
}

proof fn lemma_untested(rows: Seq<RowV>, occ: Name, n: nat)
    requires
        n <= rows.len(),
    ensures
        forall|i: int| 0 <= i < untested(rows, occ, n).len() ==> rows.contains(#[trigger] untested(rows, occ, n)[i]),
    decreases n,
{
    if n > 0 {
        lemma_untested(rows, occ, (n - 1) as nat);
        let (a, b) = (untested(rows, occ, (n - 1) as nat), untested(rows, occ, n));
        assert forall|i: int| 0 <= i < b.len() implies rows.contains(#[trigger] b[i]) by {
            if i < a.len() {
                assert(b[i] == a[i]);
            }
        }
    }
}

/// Every constructor tested is tested by a row.
proof fn lemma_ctors(rows: Seq<RowV>, occ: Name, n: nat)
    requires
        n <= rows.len(),
    ensures
        forall|i: int| 0 <= i < ctors(rows, occ, n).len() ==> tested_by(rows, occ, #[trigger] ctors(rows, occ, n)[i]),
    decreases n,
{
    if n > 0 {
        lemma_ctors(rows, occ, (n - 1) as nat);
        if let Some(Pat::Ctor(c, subs)) = tested(rows[n - 1], occ) {
            assert(tested_by(rows, occ, (c, subs)));
        }
        let (a, b) = (ctors(rows, occ, (n - 1) as nat), ctors(rows, occ, n));
        assert forall|i: int| 0 <= i < b.len() implies tested_by(rows, occ, #[trigger] b[i]) by {
            if i < a.len() {
                assert(b[i] == a[i]);
            }
        }
    }
}

pub open spec fn tested_by(rows: Seq<RowV>, occ: Name, c: (Sym, Vec<Pat>)) -> bool {
    exists|k: int| 0 <= k < rows.len() && #[trigger] tested(rows[k], occ) == Some(Pat::Ctor(c.0, c.1))
}

// --- trees ---

pub open spec fn got_rooted(got: Option<DtV>, arms: Seq<Arm>, have: Set<Name>) -> bool {
    got matches Some(dt) ==> rooted(dt, arms, have)
}

#[verifier::spinoff_prover]
proof fn lemma_build(st: St, rows: Seq<RowV>, arms: Seq<Arm>, budget: nat, have: Set<Name>)
    requires
        st.next_name < LAST ==> rows_ok(rows, arms, have, st.next_name),
    ensures
        build(st, rows, arms, budget).st.next_name < LAST ==> got_rooted(
            build(st, rows, arms, budget).got,
            arms,
            have,
        ),
    decreases budget, 0nat, 0nat,
{
    super::stride::lemma_build(st, rows, arms, budget);
    let out = build(st, rows, arms, budget);
    if budget > 0 && out.st.next_name < LAST {
        let left = (budget - 1) as nat;
        let was = rows;
        lemma_settled(was, arms, have, st.next_name);
        let rows = Seq::new(was.len(), |i: int| settled(was[i]));
        if rows.len() > 0 {
            if rows[0].tests.len() == 0 {
                lemma_some_rows(rows, rows.skip(1), arms, have, st.next_name);
                lemma_build(st, rows.skip(1), arms, left, have);
                assert(row_ok(rows[0], arms, have, st.next_name)) by {
                    reveal(rows_ok);
                }
                assert(!(exists|v: Var| #[trigger] tests_var(rows[0].tests, v)));
            } else {
                let (occ, pat) = rows[0].tests[0];
                let of = st.type_of_name(occ);
                assert(test_of(rows[0].tests, occ, 0) == 0);
                assert(tested(rows[0], occ) == Some(pat));
                lemma_takes(rows, arms, have, st.next_name, 0, occ);
                match pat {
                    Pat::Ctor(_, _) => {
                        let cs = ctors(rows, occ, rows.len());
                        super::stride::lemma_build_cases(st, rows, arms, occ, of, cs, cs.len(), left);
                        let a = build_cases(st, rows, arms, occ, of, cs, cs.len(), left);
                        lemma_ctors(rows, occ, rows.len());
                        lemma_build_cases(st, rows, arms, occ, of, cs, cs.len(), left, have);
                        lemma_untested(rows, occ, rows.len());
                        let rest = untested(rows, occ, rows.len());
                        lemma_some_rows(rows, rest, arms, have, st.next_name);
                        lemma_rows_later(rest, arms, have, st.next_name, a.st.next_name);
                        super::stride::lemma_build(a.st, rest, arms, at_most(a.left, left));
                        lemma_build(a.st, rest, arms, at_most(a.left, left), have);
                    },
                    Pat::Lit(_) => {
                        let ls = lits(rows, occ, rows.len());
                        super::stride::lemma_build_lits(st, rows, arms, occ, ls, ls.len(), left);
                        let a = build_lits(st, rows, arms, occ, ls, ls.len(), left);
                        lemma_build_lits(st, rows, arms, occ, ls, ls.len(), left, have);
                        lemma_untested(rows, occ, rows.len());
                        let rest = untested(rows, occ, rows.len());
                        lemma_some_rows(rows, rest, arms, have, st.next_name);
                        lemma_rows_later(rest, arms, have, st.next_name, a.st.next_name);
                        super::stride::lemma_build(a.st, rest, arms, at_most(a.left, left));
                        lemma_build(a.st, rest, arms, at_most(a.left, left), have);
                    },
                    Pat::Tuple(subs) => {
                        let none = Seq::new(subs@.len(), |i: int| None::<Name>);
                        lemma_tuple_taken(st, of, none, rows, occ, rows.len(), st.next_name);
                        let (st1, names) = name_tuple(st, of, none, rows, occ, rows.len());
                        let rest = Seq::new(rows.len(), |i: int| specialized_tuple(rows[i], occ, names));
                        super::stride::lemma_build(st1, rest, arms, left);
                        let more = have.union(taken_names(named_places(names, names.len())));
                        assert forall|r: int, t: int| 0 <= r < rows.len() && 0 <= t < rows[r].tests.len() implies {
                            let p = #[trigger] rows[r].tests[t].1;
                            !(p is Wild) && !(p is Var) && !(p is As)
                        } by {
                            let p = settled(was[r]).tests[t].1;
                            assert(!(p is Wild) && !(p is Var) && !(p is As));
                        }
                        lemma_for_tuple(rows, arms, have, st.next_name, occ, subs, names, st1.next_name);
                        lemma_build(st1, rest, arms, left, more);
                    },
                    _ => {},
                }
            }
        }
    }
}

proof fn lemma_build_cases(
    st: St,
    rows: Seq<RowV>,
    arms: Seq<Arm>,
    occ: Name,
    of: Option<Ty>,
    cs: Seq<(Sym, Vec<Pat>)>,
    n: nat,
    budget: nat,
    have: Set<Name>,
)
    requires
        n <= cs.len(),
        st.next_name < LAST ==> rows_ok(rows, arms, have, st.next_name),
        forall|i: int| 0 <= i < cs.len() ==> tested_by(rows, occ, #[trigger] cs[i]),
    ensures
        build_cases(st, rows, arms, occ, of, cs, n, budget).st.next_name < LAST ==> (build_cases(
            st,
            rows,
            arms,
            occ,
            of,
            cs,
            n,
            budget,
        ).got matches Some(got) ==> cases_rooted(got, arms, have)),
    decreases budget, 1nat, n,
{
    if n > 0 {
        lemma_build_cases(st, rows, arms, occ, of, cs, (n - 1) as nat, budget, have);
        super::stride::lemma_build_cases(st, rows, arms, occ, of, cs, (n - 1) as nat, budget);
        super::stride::lemma_build_cases(st, rows, arms, occ, of, cs, n, budget);
        let a = build_cases(st, rows, arms, occ, of, cs, (n - 1) as nat, budget);
        let (c, subs) = cs[n - 1];
        lemma_fields_taken(a.st, super::types::field_types(a.st, c, of), subs@, subs@.len());
        let (st1, fields) = field_names(a.st, c, subs@, of);
        let some = rows_for(rows, occ, c, fields, rows.len());
        super::stride::lemma_build(st1, some, arms, at_most(a.left, budget));
        let d = build(st1, some, arms, at_most(a.left, budget));
        let more = have.union(fields.to_set());
        if st1.next_name < LAST {
            lemma_rows_later(rows, arms, have, st.next_name, a.st.next_name);
            assert(tested_by(rows, occ, cs[n - 1]));
            let k0 = choose|k: int| 0 <= k < rows.len() && #[trigger] tested(rows[k], occ) == Some(Pat::Ctor(c, subs));
            lemma_for_ctor(rows, arms, have, a.st.next_name, occ, c, subs, fields, st1.next_name, k0);
        }
        lemma_build(st1, some, arms, at_most(a.left, budget), more);
        if a.got is Some && d.got is Some && d.st.next_name < LAST {
            let was = a.got->0;
            let now = was.push((c, fields, d.got->0));
            assert forall|i: int| 0 <= i < now.len() implies rooted(
                (#[trigger] now[i]).2,
                arms,
                have.union(now[i].1.to_set()),
            ) by {
                if i < was.len() {
                    assert(now[i] == was[i]);
                }
            }
        }
    }
}

proof fn lemma_build_lits(
    st: St,
    rows: Seq<RowV>,
    arms: Seq<Arm>,
    occ: Name,
    ls: Seq<Lit>,
    n: nat,
    budget: nat,
    have: Set<Name>,
)
    requires
        n <= ls.len(),
        st.next_name < LAST ==> rows_ok(rows, arms, have, st.next_name),
    ensures
        build_lits(st, rows, arms, occ, ls, n, budget).st.next_name < LAST ==> (build_lits(
            st,
            rows,
            arms,
            occ,
            ls,
            n,
            budget,
        ).got matches Some(got) ==> lits_rooted(got, arms, have)),
    decreases budget, 1nat, n,
{
    if n > 0 {
        lemma_build_lits(st, rows, arms, occ, ls, (n - 1) as nat, budget, have);
        super::stride::lemma_build_lits(st, rows, arms, occ, ls, (n - 1) as nat, budget);
        super::stride::lemma_build_lits(st, rows, arms, occ, ls, n, budget);
        let a = build_lits(st, rows, arms, occ, ls, (n - 1) as nat, budget);
        let some = rows_for_lit(rows, occ, ls[n - 1], rows.len());
        super::stride::lemma_build(a.st, some, arms, at_most(a.left, budget));
        let d = build(a.st, some, arms, at_most(a.left, budget));
        if a.st.next_name < LAST {
            lemma_rows_later(rows, arms, have, st.next_name, a.st.next_name);
            lemma_for_lit(rows, arms, have, a.st.next_name, occ, ls[n - 1]);
        }
        lemma_build(a.st, some, arms, at_most(a.left, budget), have);
        if a.got is Some && d.got is Some && d.st.next_name < LAST {
            let was = a.got->0;
            let now = was.push((ls[n - 1], d.got->0));
            assert forall|i: int| 0 <= i < now.len() implies rooted((#[trigger] now[i]).1, arms, have) by {
                if i < was.len() {
                    assert(now[i] == was[i]);
                }
            }
        }
    }
}

/// A plan for the arms from `from` on tests `s` and what it takes out of it, and binds
/// the variables of the arms it reaches.
pub proof fn lemma_planned_rooted(kd: Kinds, st: St, s: Name, arms: Seq<Arm>, from: nat, ls: Set<Var>)
    requires
        fit_arms(kd, arms, ls),
        from <= arms.len(),
        st.next_name < LAST ==> s < st.next_name,
        forall|i: int| from <= i < arms.len() ==> tree_takes((#[trigger] arms[i]).pat),
    ensures
        ({
            let p = plan(st, case_rows(s, arms, from), arms, (arms.len() - from) as nat);
            p.st.next_name < LAST ==> (p.got matches Some(dt) ==> rooted(dt, arms, set![s]))
        }),
{
    reveal(plan);
    reveal(fit_arms);
    let rows = case_rows(s, arms, from);
    assert(arms_tidy(kd, arms));
    if st.next_name < LAST {
        assert(rows_ok(rows, arms, set![s], st.next_name)) by {
            reveal(rows_ok);
            assert forall|i: int| 0 <= i < rows.len() implies row_ok(#[trigger] rows[i], arms, set![s], st.next_name) by {
                let row = rows[i];
                assert(row.tests[0] == (s, arms[from + i].pat));
                assert(tree_takes(arms[from + i].pat));
                if row.arm < arms.len() {
                    assert forall|v: Var| #[trigger] pattern_vars(Seq::empty(), arms[row.arm as int].pat).contains(
                        v,
                    ) implies tests_var(row.tests, v) by {
                        lemma_arm_index(arms, (from + i) as nat);
                        assert(pattern_vars(Seq::empty(), row.tests[0].1).contains(v));
                    }
                }
            }
            assert forall|i: int, j: int| 0 <= i < rows.len() && 0 <= j < rows.len() implies pair_ok(
                #[trigger] rows[i],
                #[trigger] rows[j],
            ) by {
                assert(alike(arms[from + i].pat, arms[from + j].pat));
            }
        }
    }
    lemma_build(st, rows, arms, budget_for((arms.len() - from) as nat), set![s]);
}

proof fn lemma_items_taken(st: St, items: Seq<Term>, n: nat)
    requires
        n <= items.len(),
    ensures
        ({
            let (st1, names) = name_first(st, items, n);
            &&& names.len() == n
            &&& st.next_name <= st1.next_name
            &&& st1.next_name < LAST ==> between(all_some(names), st.next_name, st1.next_name)
        }),
    decreases n,
{
    if n > 0 {
        lemma_items_taken(st, items, (n - 1) as nat);
        let (a, ns) = name_first(st, items, (n - 1) as nat);
        let (b, names) = name_first(st, items, n);
        super::stride::lemma_typed(a, super::types::type_of(a, items[n - 1]));
        if b.next_name < LAST {
            let (was, now) = (all_some(ns), all_some(names));
            assert(between(was, st.next_name, a.next_name));
            assert forall|i: int| 0 <= i < now.len() && (#[trigger] now[i]) is Some implies st.next_name <= now[i]->0
                < b.next_name by {
                if i < n - 1 {
                    assert(was[i] == now[i]);
                }
            }
            assert forall|i: int, j: int|
                0 <= i < now.len() && 0 <= j < now.len() && i != j && (#[trigger] now[i]) is Some && (#[trigger] now[j]) is Some implies now[i]->0
                != now[j]->0 by {
                if i < n - 1 {
                    assert(was[i] == now[i]);
                }
                if j < n - 1 {
                    assert(was[j] == now[j]);
                }
            }
        }
    }
}

proof fn lemma_name_items(st: St, t: Term)
    requires
        tuple_size(t) is Some,
    ensures
        ({
            let (st1, names) = name_items(st, t);
            &&& names.len() == tuple_size(t)->0
            &&& st.next_name <= st1.next_name
            &&& st1.next_name < LAST ==> between(all_some(names), st.next_name, st1.next_name)
        }),
    decreases t,
{
    match t {
        Term::Loc(_, inner) => {
            lemma_name_items(st, *inner);
        },
        Term::Tuple(items) => {
            lemma_items_taken(st, items@, items@.len());
        },
        _ => {},
    }
}

/// A plan for the arms of a `match` on a tuple tests names for its items.
pub proof fn lemma_tuple_rooted(kd: Kinds, st: St, t: Term, arms: Seq<Arm>, ls: Set<Var>)
    requires
        fit_arms(kd, arms, ls),
        tuple_size(t) is Some,
        forall|i: int| 0 <= i < arms.len() ==> takes_apart((#[trigger] arms[i]).pat, tuple_size(t)->0),
    ensures
        ({
            let (st1, names) = name_items(st, t);
            let p = plan(st1, tuple_rows(names, arms), arms, arms.len());
            &&& names.len() == tuple_size(t)->0
            &&& p.st.next_name < LAST ==> (p.got matches Some(dt) ==> rooted(dt, arms, names.to_set()))
        }),
{
    reveal(plan);
    reveal(fit_arms);
    lemma_name_items(st, t);
    let (st1, names) = name_items(st, t);
    let rows = tuple_rows(names, arms);
    let have = names.to_set();
    let some = all_some(names);
    assert(arms_tidy(kd, arms));
    if st1.next_name < LAST {
        assert(rows_ok(rows, arms, have, st1.next_name)) by {
            reveal(rows_ok);
            assert forall|i: int| 0 <= i < rows.len() implies row_ok(#[trigger] rows[i], arms, have, st1.next_name) by {
                let row = rows[i];
                assert(takes_apart(arms[i].pat, tuple_size(t)->0));
                if let Pat::Tuple(ps) = arms[i].pat {
                    lemma_field_tests(some, ps@, ps@.len());
                    assert forall|u: int| 0 <= u < row.tests.len() implies have.contains((#[trigger] row.tests[u]).0)
                        && row.tests[u].0 < st1.next_name && tree_takes(row.tests[u].1) by {
                        let k = choose|k: int|
                            0 <= k < ps@.len() && k < some.len() && (#[trigger] some[k]) is Some && row.tests[u] == (
                                some[k]->0,
                                ps@[k],
                            );
                        assert(names.contains(names[k]));
                        assert(some[k] is Some);
                        assert(tree_takes(ps@[k]));
                    }
                }
                if row.arm < arms.len() {
                    assert forall|v: Var| #[trigger] pattern_vars(Seq::empty(), arms[row.arm as int].pat).contains(
                        v,
                    ) implies tests_var(row.tests, v) by {
                        lemma_arm_index(arms, i as nat);
                        if let Pat::Tuple(ps) = arms[i].pat {
                            lemma_subs_vars(Seq::empty(), ps@, ps@.len(), v);
                            let k = choose|k: int|
                                0 <= k < ps@.len() && pattern_vars(Seq::empty(), #[trigger] ps@[k]).contains(v);
                            assert(!(ps@[k] is Wild)) by {
                                if ps@[k] is Wild {
                                    assert(pattern_vars(Seq::empty(), ps@[k]).len() == 0);
                                }
                            }
                            assert(some[k] is Some);
                            let u = choose|u: int| 0 <= u < row.tests.len() && #[trigger] row.tests[u] == (
                                some[k]->0,
                                ps@[k],
                            );
                            assert(pattern_vars(Seq::empty(), row.tests[u].1).contains(v));
                        }
                    }
                }
            }
            assert forall|i: int, j: int| 0 <= i < rows.len() && 0 <= j < rows.len() implies pair_ok(
                #[trigger] rows[i],
                #[trigger] rows[j],
            ) by {
                assert(alike(arms[i].pat, arms[j].pat));
                lemma_tuple_pair(names, arms[i].pat, arms[j].pat, st.next_name, st1.next_name, rows[i], rows[j]);
            }
        }
    }
    lemma_build(st1, rows, arms, budget_for(arms.len()), have);
}

proof fn lemma_tuple_pair(names: Seq<Name>, p: Pat, q: Pat, lo: u32, hi: u32, a: RowV, b: RowV)
    requires
        between(all_some(names), lo, hi),
        alike(p, q),
        a.tests == tuple_tests(names, p),
        b.tests == tuple_tests(names, q),
    ensures
        pair_ok(a, b),
{
    let some = all_some(names);
    assert forall|t: int, u: int|
        0 <= t < a.tests.len() && 0 <= u < b.tests.len() && (#[trigger] a.tests[t]).0 == (#[trigger] b.tests[u]).0 implies alike(
        a.tests[t].1,
        b.tests[u].1,
    ) by {
        if let Pat::Tuple(ps) = p {
            if let Pat::Tuple(qs) = q {
                lemma_field_tests(some, ps@, ps@.len());
                lemma_field_tests(some, qs@, qs@.len());
                let i = choose|i: int|
                    0 <= i < ps@.len() && i < some.len() && (#[trigger] some[i]) is Some && a.tests[t] == (
                        some[i]->0,
                        ps@[i],
                    );
                let j = choose|j: int|
                    0 <= j < qs@.len() && j < some.len() && (#[trigger] some[j]) is Some && b.tests[u] == (
                        some[j]->0,
                        qs@[j],
                    );
                assert(i == j);
                assert(alike(ps@[i], qs@[i]));
            }
        }
    }
}

/// An arm's number is its own.
proof fn lemma_arm_index(arms: Seq<Arm>, i: nat)
    requires
        i < arms.len(),
        arms.len() <= usize::MAX,
    ensures
        i as usize == i,
{
}

} // verus!
