//! What a term binds and what it reaches: the labels it makes, the ones it mentions, and
//! when the two do not get in each other's way.

use super::live::{arm_uses, bound_by, params_of, stands_for, uses};
use super::rooted::alike;
use super::state::St;
use crate::seq::ir::Name;
use crate::terms::term::{fields_vars, pattern_vars, patterns_vars, Arm, HClause, Pat, Term, Var};
use vstd::prelude::*;

verus! {

/// `t` makes `v` a label: a binding of a `letrec`, or a join point.
pub open spec fn makes(t: Term, v: Var) -> bool
    decreases t,
{
    match t {
        Term::Loc(_, b) => makes(*b, v),
        Term::TyLam(_, _, b) => makes(*b, v),
        Term::TyApp(b, _) => makes(*b, v),
        Term::Proj(b, _) => makes(*b, v),
        Term::Sel(b, _, _) => makes(*b, v),
        Term::Perform(_, _, b, _) => makes(*b, v),
        Term::Var(_) => false,
        Term::Lit(_) => false,
        Term::Error => false,
        Term::Lam(_, _, b) => makes(*b, v),
        Term::App(f, a) => makes(*f, v) || makes(*a, v),
        Term::Extend(f, _, a) => makes(*f, v) || makes(*a, v),
        Term::Let(_, _, r, b) => makes(*r, v) || makes(*b, v),
        Term::LetRec(binds, b) => makes(*b, v) || exists|i: int|
            0 <= i < binds@.len() && ((#[trigger] binds@[i]).0 == v || makes(binds@[i].2, v)),
        Term::Join { var, rhs, body, .. } => v == var || makes(*rhs, v) || makes(*body, v),
        Term::Jump(_, xs, _) => exists|i: int| 0 <= i < xs@.len() && makes(#[trigger] xs@[i], v),
        Term::If(a, b, c) => makes(*a, v) || makes(*b, v) || makes(*c, v),
        Term::Tuple(xs) => exists|i: int| 0 <= i < xs@.len() && makes(#[trigger] xs@[i], v),
        Term::Array(xs, _) => exists|i: int| 0 <= i < xs@.len() && makes(#[trigger] xs@[i], v),
        Term::Record(_, xs) => exists|i: int| 0 <= i < xs@.len() && makes(#[trigger] xs@[i], v),
        Term::Ctor(_, _, xs) => exists|i: int| 0 <= i < xs@.len() && makes(#[trigger] xs@[i], v),
        Term::Prim(_, xs, _) => exists|i: int| 0 <= i < xs@.len() && makes(#[trigger] xs@[i], v),
        Term::Case(s, arms, _) => makes(*s, v) || exists|i: int|
            0 <= i < arms@.len() && arm_makes(#[trigger] arms@[i], v),
        Term::Handle { body, clauses, ret, .. } => {
            ||| makes(*body, v)
            ||| exists|i: int| 0 <= i < clauses@.len() && makes((#[trigger] clauses@[i]).body, v)
            ||| ret is Some && makes(*(ret->0).2, v)
        },
    }
}

pub open spec fn arm_makes(arm: Arm, v: Var) -> bool
    decreases arm,
{
    makes(arm.body, v) || (arm.guard is Some && makes(arm.guard->0, v))
}

/// `t` mentions `v`, which it does not make a label around the mention.
pub open spec fn reaches(t: Term, v: Var) -> bool
    decreases t,
{
    match t {
        Term::Loc(_, b) => reaches(*b, v),
        Term::TyLam(_, _, b) => reaches(*b, v),
        Term::TyApp(b, _) => reaches(*b, v),
        Term::Proj(b, _) => reaches(*b, v),
        Term::Sel(b, _, _) => reaches(*b, v),
        Term::Perform(_, _, b, _) => reaches(*b, v),
        Term::Var(x) => x == v,
        Term::Lit(_) => false,
        Term::Error => false,
        Term::Lam(_, _, b) => reaches(*b, v),
        Term::App(f, a) => reaches(*f, v) || reaches(*a, v),
        Term::Extend(f, _, a) => reaches(*f, v) || reaches(*a, v),
        Term::Let(_, _, r, b) => reaches(*r, v) || reaches(*b, v),
        Term::LetRec(binds, b) => {
            &&& !bound_by(binds@).contains(v)
            &&& reaches(*b, v) || exists|i: int| 0 <= i < binds@.len() && reaches((#[trigger] binds@[i]).2, v)
        },
        Term::Join { var, rhs, body, .. } => reaches(*rhs, v) || (v != var && reaches(*body, v)),
        Term::Jump(j, xs, _) => j == v || exists|i: int| 0 <= i < xs@.len() && reaches(#[trigger] xs@[i], v),
        Term::If(a, b, c) => reaches(*a, v) || reaches(*b, v) || reaches(*c, v),
        Term::Tuple(xs) => exists|i: int| 0 <= i < xs@.len() && reaches(#[trigger] xs@[i], v),
        Term::Array(xs, _) => exists|i: int| 0 <= i < xs@.len() && reaches(#[trigger] xs@[i], v),
        Term::Record(_, xs) => exists|i: int| 0 <= i < xs@.len() && reaches(#[trigger] xs@[i], v),
        Term::Ctor(_, _, xs) => exists|i: int| 0 <= i < xs@.len() && reaches(#[trigger] xs@[i], v),
        Term::Prim(_, xs, _) => exists|i: int| 0 <= i < xs@.len() && reaches(#[trigger] xs@[i], v),
        Term::Case(s, arms, _) => reaches(*s, v) || exists|i: int|
            0 <= i < arms@.len() && arm_reaches(#[trigger] arms@[i], v),
        Term::Handle { body, clauses, ret, .. } => {
            ||| reaches(*body, v)
            ||| exists|i: int| 0 <= i < clauses@.len() && reaches((#[trigger] clauses@[i]).body, v)
            ||| ret is Some && reaches(*(ret->0).2, v)
        },
    }
}

pub open spec fn arm_reaches(arm: Arm, v: Var) -> bool
    decreases arm,
{
    reaches(arm.body, v) || (arm.guard is Some && reaches(arm.guard->0, v))
}

/// No label `a` makes is one `b` mentions.
pub open spec fn apart(a: Term, b: Term) -> bool {
    forall|v: Var| #[trigger] makes(a, v) ==> !reaches(b, v)
}

/// The same of both ways round.
pub open spec fn parted(a: Term, b: Term) -> bool {
    apart(a, b) && apart(b, a)
}

/// Of any two of some terms.
pub open spec fn all_apart(xs: Seq<Term>) -> bool {
    forall|i: int, j: int| 0 <= i < xs.len() && 0 <= j < xs.len() && i != j ==> apart(#[trigger] xs[i], #[trigger] xs[j])
}

pub open spec fn arm_apart(a: Arm, b: Arm) -> bool {
    forall|v: Var| #[trigger] arm_makes(a, v) ==> !arm_reaches(b, v)
}

/// An arm and a term, both ways round.
pub open spec fn arm_parted(arm: Arm, t: Term) -> bool {
    &&& forall|v: Var| #[trigger] makes(t, v) ==> !arm_reaches(arm, v)
    &&& forall|v: Var| #[trigger] arm_makes(arm, v) ==> !reaches(t, v)
}

/// Which variables are labels: definitions and the bindings of a `letrec`, and join
/// points. Every variable is below `lo`, and every name that is invented is not.
pub struct Kinds {
    pub g: Set<Var>,
    pub j: Set<Var>,
    pub lo: u32,
}

impl Kinds {
    pub open spec fn plain(self, v: Var) -> bool {
        v < self.lo && !self.g.contains(v) && !self.j.contains(v)
    }

    pub open spec fn apart(self) -> bool {
        forall|v: Var| #[trigger] self.g.contains(v) ==> !self.j.contains(v)
    }
}

/// Every variable is of one kind wherever it is bound, and no label is mentioned where it
/// is not the one that was made.
pub open spec fn tidy(kd: Kinds, t: Term) -> bool
    decreases t,
{
    match t {
        Term::Loc(_, b) => tidy(kd, *b),
        Term::TyLam(_, _, b) => tidy(kd, *b),
        Term::TyApp(b, _) => tidy(kd, *b),
        Term::Proj(b, _) => tidy(kd, *b),
        Term::Sel(b, _, _) => tidy(kd, *b),
        Term::Perform(_, _, b, _) => tidy(kd, *b),
        Term::Var(x) => x < kd.lo,
        Term::Lit(_) => true,
        Term::Error => true,
        Term::Lam(p, _, b) => kd.plain(p) && tidy(kd, *b),
        Term::App(f, a) => tidy(kd, *f) && tidy(kd, *a) && parted(*f, *a),
        Term::Extend(f, _, a) => tidy(kd, *f) && tidy(kd, *a) && parted(*f, *a),
        Term::Let(x, _, r, b) => kd.plain(x) && tidy(kd, *r) && tidy(kd, *b) && parted(*r, *b),
        Term::LetRec(binds, b) => {
            &&& tidy(kd, *b)
            &&& forall|i: int|
                0 <= i < binds@.len() ==> kd.g.contains((#[trigger] binds@[i]).0) && binds@[i].0 < kd.lo && tidy(
                    kd,
                    binds@[i].2,
                ) && parted(binds@[i].2, *b)
            &&& forall|i: int, j: int|
                0 <= i < binds@.len() && 0 <= j < binds@.len() && i != j ==> apart(
                    (#[trigger] binds@[i]).2,
                    (#[trigger] binds@[j]).2,
                )
        },
        Term::Join { var, params, rhs, body, .. } => {
            &&& kd.j.contains(var) && var < kd.lo
            &&& forall|i: int| 0 <= i < params@.len() ==> kd.plain((#[trigger] params@[i]).0)
            &&& tidy(kd, *rhs) && tidy(kd, *body) && parted(*rhs, *body)
            &&& !reaches(*rhs, var)
        },
        Term::Jump(j, xs, _) => j < kd.lo && all_tidy(kd, xs@) && forall|i: int|
            0 <= i < xs@.len() ==> !makes(#[trigger] xs@[i], j),
        Term::If(a, b, c) => tidy(kd, *a) && tidy(kd, *b) && tidy(kd, *c) && parted(*a, *b) && parted(*a, *c) && parted(
            *b,
            *c,
        ),
        Term::Tuple(xs) => all_tidy(kd, xs@),
        Term::Array(xs, _) => all_tidy(kd, xs@),
        Term::Record(_, xs) => all_tidy(kd, xs@),
        Term::Ctor(_, _, xs) => all_tidy(kd, xs@),
        Term::Prim(_, xs, _) => all_tidy(kd, xs@),
        Term::Case(s, arms, _) => {
            &&& tidy(kd, *s)
            &&& arms_tidy(kd, arms@)
            &&& forall|i: int| 0 <= i < arms@.len() ==> arm_parted(#[trigger] arms@[i], *s)
        },
        Term::Handle { body, clauses, ret, .. } => {
            &&& tidy(kd, *body)
            &&& clauses_tidy(kd, clauses@)
            &&& forall|i: int| 0 <= i < clauses@.len() ==> parted((#[trigger] clauses@[i]).body, *body)
            &&& ret is Some ==> kd.plain((ret->0).0) && tidy(kd, *(ret->0).2) && parted(*(ret->0).2, *body)
                && forall|i: int| 0 <= i < clauses@.len() ==> parted((#[trigger] clauses@[i]).body, *(ret->0).2)
        },
    }
}

pub open spec fn all_tidy(kd: Kinds, xs: Seq<Term>) -> bool
    decreases xs,
{
    all_apart(xs) && forall|i: int| 0 <= i < xs.len() ==> tidy(kd, #[trigger] xs[i])
}

pub open spec fn arm_tidy(kd: Kinds, arm: Arm) -> bool
    decreases arm,
{
    &&& tidy(kd, arm.body)
    &&& forall|v: Var| #[trigger] pattern_vars(Seq::empty(), arm.pat).contains(v) ==> kd.plain(v)
    &&& arm.guard is Some ==> tidy(kd, arm.guard->0) && parted(arm.guard->0, arm.body)
}

pub open spec fn arms_tidy(kd: Kinds, arms: Seq<Arm>) -> bool
    decreases arms,
{
    &&& arms.len() <= usize::MAX
    &&& forall|i: int| 0 <= i < arms.len() ==> arm_tidy(kd, #[trigger] arms[i])
    &&& forall|i: int, j: int|
        0 <= i < arms.len() && 0 <= j < arms.len() && i != j ==> arm_apart(#[trigger] arms[i], #[trigger] arms[j])
    &&& forall|i: int, j: int|
        0 <= i < arms.len() && 0 <= j < arms.len() ==> alike((#[trigger] arms[i]).pat, (#[trigger] arms[j]).pat)
}

pub open spec fn clauses_tidy(kd: Kinds, cs: Seq<HClause>) -> bool
    decreases cs,
{
    &&& forall|i: int|
        0 <= i < cs.len() ==> kd.plain((#[trigger] cs[i]).param) && kd.plain(cs[i].resume) && tidy(kd, cs[i].body)
    &&& forall|i: int, j: int|
        0 <= i < cs.len() && 0 <= j < cs.len() && i != j ==> apart((#[trigger] cs[i]).body, (#[trigger] cs[j]).body)
}

// --- no label is both made and mentioned ---

pub proof fn lemma_made_apart(kd: Kinds, t: Term, v: Var)
    requires
        tidy(kd, t),
        makes(t, v),
    ensures
        !reaches(t, v),
    decreases t, 0nat,
{
    match t {
        Term::Loc(_, b) => {
            lemma_made_apart(kd, *b, v);
        },
        Term::TyLam(_, _, b) => {
            lemma_made_apart(kd, *b, v);
        },
        Term::TyApp(b, _) => {
            lemma_made_apart(kd, *b, v);
        },
        Term::Proj(b, _) => {
            lemma_made_apart(kd, *b, v);
        },
        Term::Sel(b, _, _) => {
            lemma_made_apart(kd, *b, v);
        },
        Term::Perform(_, _, b, _) => {
            lemma_made_apart(kd, *b, v);
        },
        Term::Lam(_, _, b) => {
            lemma_made_apart(kd, *b, v);
        },
        Term::App(f, a) => {
            if makes(*f, v) {
                lemma_made_apart(kd, *f, v);
            }
            if makes(*a, v) {
                lemma_made_apart(kd, *a, v);
            }
        },
        Term::Extend(f, _, a) => {
            if makes(*f, v) {
                lemma_made_apart(kd, *f, v);
            }
            if makes(*a, v) {
                lemma_made_apart(kd, *a, v);
            }
        },
        Term::Let(_, _, f, a) => {
            if makes(*f, v) {
                lemma_made_apart(kd, *f, v);
            }
            if makes(*a, v) {
                lemma_made_apart(kd, *a, v);
            }
        },
        Term::LetRec(binds, b) => {
            if !bound_by(binds@).contains(v) {
                assert forall|i: int| 0 <= i < binds@.len() implies (#[trigger] binds@[i]).0 != v by {
                    assert(bound_by(binds@)[i] == binds@[i].0);
                }
                if makes(*b, v) {
                    lemma_made_apart(kd, *b, v);
                    assert forall|i: int| 0 <= i < binds@.len() implies !reaches((#[trigger] binds@[i]).2, v) by {}
                } else {
                    let k = choose|i: int| 0 <= i < binds@.len() && makes((#[trigger] binds@[i]).2, v);
                    assert(decreases_to!(t => binds@));
                    assert(decreases_to!(binds@ => binds@[k]));
                    lemma_made_apart(kd, binds@[k].2, v);
                    assert(parted(binds@[k].2, *b));
                    assert forall|i: int| 0 <= i < binds@.len() implies !reaches((#[trigger] binds@[i]).2, v) by {
                        if i != k {
                            assert(apart(binds@[k].2, binds@[i].2));
                        }
                    }
                }
            }
        },
        Term::Join { var, rhs, body, .. } => {
            if v == var {
            } else {
                if makes(*rhs, v) {
                    lemma_made_apart(kd, *rhs, v);
                }
                if makes(*body, v) {
                    lemma_made_apart(kd, *body, v);
                }
            }
        },
        Term::Jump(j, xs, _) => {
            assert(decreases_to!(t => xs@));
            lemma_list_apart(kd, xs@, v);
            let k = choose|i: int| 0 <= i < xs@.len() && makes(#[trigger] xs@[i], v);
            assert(!makes(xs@[k], j));
        },
        Term::If(a, b, c) => {
            if makes(*a, v) {
                lemma_made_apart(kd, *a, v);
            }
            if makes(*b, v) {
                lemma_made_apart(kd, *b, v);
            }
            if makes(*c, v) {
                lemma_made_apart(kd, *c, v);
            }
        },
        Term::Tuple(xs) => {
            assert(decreases_to!(t => xs@));
            lemma_list_apart(kd, xs@, v);
        },
        Term::Array(xs, _) => {
            assert(decreases_to!(t => xs@));
            lemma_list_apart(kd, xs@, v);
        },
        Term::Record(_, xs) => {
            assert(decreases_to!(t => xs@));
            lemma_list_apart(kd, xs@, v);
        },
        Term::Ctor(_, _, xs) => {
            assert(decreases_to!(t => xs@));
            lemma_list_apart(kd, xs@, v);
        },
        Term::Prim(_, xs, _) => {
            assert(decreases_to!(t => xs@));
            lemma_list_apart(kd, xs@, v);
        },
        Term::Case(s, arms, _) => {
            if makes(*s, v) {
                lemma_made_apart(kd, *s, v);
                assert forall|i: int| 0 <= i < arms@.len() implies !arm_reaches(#[trigger] arms@[i], v) by {
                    assert(arm_parted(arms@[i], *s));
                }
            } else {
                let k = choose|i: int| 0 <= i < arms@.len() && arm_makes(#[trigger] arms@[i], v);
                assert(decreases_to!(t => arms@));
                assert(decreases_to!(arms@ => arms@[k]));
                assert(arms_tidy(kd, arms@));
                lemma_arm_made_apart(kd, arms@[k], v);
                assert(arm_parted(arms@[k], *s));
                assert forall|i: int| 0 <= i < arms@.len() implies !arm_reaches(#[trigger] arms@[i], v) by {
                    if i != k {
                        assert(arm_apart(arms@[k], arms@[i]));
                    }
                }
            }
        },
        Term::Handle { body, clauses, ret, .. } => {
            if makes(*body, v) {
                lemma_made_apart(kd, *body, v);
                assert forall|i: int| 0 <= i < clauses@.len() implies !reaches((#[trigger] clauses@[i]).body, v) by {
                    assert(parted(clauses@[i].body, *body));
                }
            } else if ret is Some && makes(*(ret->0).2, v) {
                lemma_made_apart(kd, *(ret->0).2, v);
                assert forall|i: int| 0 <= i < clauses@.len() implies !reaches((#[trigger] clauses@[i]).body, v) by {
                    assert(parted(clauses@[i].body, *(ret->0).2));
                }
            } else {
                let k = choose|i: int| 0 <= i < clauses@.len() && makes((#[trigger] clauses@[i]).body, v);
                assert(decreases_to!(t => clauses@));
                assert(decreases_to!(clauses@ => clauses@[k]));
                assert(clauses_tidy(kd, clauses@));
                lemma_made_apart(kd, clauses@[k].body, v);
                assert(parted(clauses@[k].body, *body));
                assert forall|i: int| 0 <= i < clauses@.len() implies !reaches((#[trigger] clauses@[i]).body, v) by {
                    if i != k {
                        assert(apart(clauses@[k].body, clauses@[i].body));
                    }
                }
            }
        },
        _ => {},
    }
}

proof fn lemma_list_apart(kd: Kinds, xs: Seq<Term>, v: Var)
    requires
        all_tidy(kd, xs),
        exists|i: int| 0 <= i < xs.len() && makes(#[trigger] xs[i], v),
    ensures
        forall|i: int| 0 <= i < xs.len() ==> !reaches(#[trigger] xs[i], v),
    decreases xs, 0nat,
{
    let k = choose|i: int| 0 <= i < xs.len() && makes(#[trigger] xs[i], v);
    assert(decreases_to!(xs => xs[k]));
    lemma_made_apart(kd, xs[k], v);
    assert forall|i: int| 0 <= i < xs.len() implies !reaches(#[trigger] xs[i], v) by {
        if i != k {
            assert(apart(xs[k], xs[i]));
        }
    }
}

pub proof fn lemma_arm_made_apart(kd: Kinds, arm: Arm, v: Var)
    requires
        arm_tidy(kd, arm),
        arm_makes(arm, v),
    ensures
        !arm_reaches(arm, v),
    decreases arm, 0nat,
{
    assert(decreases_to!(arm => arm.body));
    if makes(arm.body, v) {
        lemma_made_apart(kd, arm.body, v);
    }
    if arm.guard is Some && makes(arm.guard->0, v) {
        assert(decreases_to!(arm => arm.guard->0));
        lemma_made_apart(kd, arm.guard->0, v);
    }
}

// --- what is mentioned is wanted ---

/// `v` is a label that stands for `n` among others.
pub open spec fn label_for(st: St, v: Var, n: Name) -> bool {
    ||| st.globals.contains_key(v) && st.globals[v].1.contains(n)
    ||| st.joins.contains_key(v) && st.joins[v].1.contains(n)
}

/// What is known of labels fits their kinds.
pub open spec fn sorted(kd: Kinds, st: St) -> bool {
    &&& kd.apart()
    &&& forall|v: Var| #[trigger] st.globals.contains_key(v) ==> kd.g.contains(v) && forall|n: Name| #[trigger]
        st.globals[v].1.contains(n) ==> n < kd.lo
    &&& forall|v: Var| #[trigger] st.joins.contains_key(v) ==> kd.j.contains(v) && forall|n: Name| #[trigger]
        st.joins[v].1.contains(n) ==> n < kd.lo
}

pub proof fn lemma_pattern_vars(out: Seq<Var>, p: Pat, v: Var)
    requires
        pattern_vars(out, p).contains(v),
    ensures
        out.contains(v) || pattern_vars(Seq::empty(), p).contains(v),
{
    lemma_pattern_split(out, p);
    let more = pattern_vars(Seq::empty(), p);
    let i = pattern_vars(out, p).index_of(v);
    if i < out.len() {
        assert(out[i] == v);
    } else {
        assert(more[i - out.len()] == v);
    }
}

proof fn lemma_pattern_split(out: Seq<Var>, p: Pat)
    ensures
        pattern_vars(out, p) == out + pattern_vars(Seq::empty(), p),
    decreases p, 0nat,
{
    let none = Seq::<Var>::empty();
    match p {
        Pat::Wild | Pat::Lit(_) => {
            assert(out + none =~= out);
        },
        Pat::Var(x, _) => {
            assert(out.push(x) =~= out + none.push(x));
        },
        Pat::As(x, _, sub) => {
            lemma_pattern_split(out.push(x), *sub);
            lemma_pattern_split(none.push(x), *sub);
            assert(out.push(x) + pattern_vars(none, *sub) =~= out + (none.push(x) + pattern_vars(none, *sub)));
        },
        Pat::Ctor(_, ps) => {
            assert(decreases_to!(p => ps@));
            lemma_patterns_split(out, ps@, ps@.len());
        },
        Pat::Tuple(ps) => {
            assert(decreases_to!(p => ps@));
            lemma_patterns_split(out, ps@, ps@.len());
        },
        Pat::Array(ps) => {
            assert(decreases_to!(p => ps@));
            lemma_patterns_split(out, ps@, ps@.len());
        },
        Pat::Record(fs) => {
            assert(decreases_to!(p => fs@));
            lemma_fields_split(out, fs@, fs@.len());
        },
    }
}

proof fn lemma_patterns_split(out: Seq<Var>, ps: Seq<Pat>, n: nat)
    ensures
        patterns_vars(out, ps, n) == out + patterns_vars(Seq::empty(), ps, n),
    decreases ps, n,
{
    let none = Seq::<Var>::empty();
    if n == 0 || n > ps.len() {
        assert(out + none =~= out);
    } else {
        lemma_patterns_split(out, ps, (n - 1) as nat);
        assert(decreases_to!(ps => ps[n - 1]));
        let was = patterns_vars(none, ps, (n - 1) as nat);
        lemma_pattern_split(out + was, ps[n - 1]);
        lemma_pattern_split(was, ps[n - 1]);
        assert((out + was) + pattern_vars(none, ps[n - 1]) =~= out + (was + pattern_vars(none, ps[n - 1])));
    }
}

proof fn lemma_fields_split(out: Seq<Var>, fs: Seq<(crate::terms::symbol::Sym, Pat)>, n: nat)
    ensures
        fields_vars(out, fs, n) == out + fields_vars(Seq::empty(), fs, n),
    decreases fs, n,
{
    let none = Seq::<Var>::empty();
    if n == 0 || n > fs.len() {
        assert(out + none =~= out);
    } else {
        lemma_fields_split(out, fs, (n - 1) as nat);
        assert(decreases_to!(fs => fs[n - 1]));
        let was = fields_vars(none, fs, (n - 1) as nat);
        lemma_pattern_split(out + was, fs[n - 1].1);
        lemma_pattern_split(was, fs[n - 1].1);
        assert((out + was) + pattern_vars(none, fs[n - 1].1) =~= out + (was + pattern_vars(none, fs[n - 1].1)));
    }
}

/// What a label that is mentioned stands for is wanted.
pub proof fn lemma_wanted(kd: Kinds, st: St, t: Term, scope: Seq<Var>, v: Var, n: Name)
    requires
        sorted(kd, st),
        tidy(kd, t),
        reaches(t, v),
        label_for(st, v, n),
        !scope.contains(v),
    ensures
        uses(st, t, scope, n),
    decreases t, 1nat,
{
    assert(kd.g.contains(v) || kd.j.contains(v));
    match t {
        Term::Loc(_, b) => {
            lemma_wanted(kd, st, *b, scope, v, n);
        },
        Term::TyLam(_, _, b) => {
            lemma_wanted(kd, st, *b, scope, v, n);
        },
        Term::TyApp(b, _) => {
            lemma_wanted(kd, st, *b, scope, v, n);
        },
        Term::Proj(b, _) => {
            lemma_wanted(kd, st, *b, scope, v, n);
        },
        Term::Sel(b, _, _) => {
            lemma_wanted(kd, st, *b, scope, v, n);
        },
        Term::Perform(_, _, b, _) => {
            lemma_wanted(kd, st, *b, scope, v, n);
        },
        Term::Lam(p, _, b) => {
            lemma_outside(scope, p, v);
            lemma_wanted(kd, st, *b, scope.push(p), v, n);
        },
        Term::App(f, a) => {
            if reaches(*f, v) {
                lemma_wanted(kd, st, *f, scope, v, n);
            } else {
                lemma_wanted(kd, st, *a, scope, v, n);
            }
        },
        Term::Extend(f, _, a) => {
            if reaches(*f, v) {
                lemma_wanted(kd, st, *f, scope, v, n);
            } else {
                lemma_wanted(kd, st, *a, scope, v, n);
            }
        },
        Term::Let(x, _, r, b) => {
            if reaches(*r, v) {
                lemma_wanted(kd, st, *r, scope, v, n);
            } else {
                lemma_outside(scope, x, v);
                lemma_wanted(kd, st, *b, scope.push(x), v, n);
            }
        },
        Term::LetRec(binds, b) => {
            let inner = scope + bound_by(binds@);
            assert(!inner.contains(v)) by {
                if inner.contains(v) {
                    let i = inner.index_of(v);
                    if i < scope.len() {
                        assert(scope[i] == v);
                    } else {
                        assert(bound_by(binds@)[i - scope.len()] == v);
                    }
                }
            }
            if reaches(*b, v) {
                lemma_wanted(kd, st, *b, inner, v, n);
            } else {
                let k = choose|i: int| 0 <= i < binds@.len() && reaches((#[trigger] binds@[i]).2, v);
                assert(decreases_to!(t => binds@));
                assert(decreases_to!(binds@ => binds@[k]));
                lemma_wanted(kd, st, binds@[k].2, inner, v, n);
                assert(uses(st, binds@[k].2, inner, n));
            }
        },
        Term::Join { var, params, rhs, body, .. } => {
            if reaches(*rhs, v) {
                let inner = scope + params_of(params@);
                assert(!inner.contains(v)) by {
                    if inner.contains(v) {
                        let i = inner.index_of(v);
                        if i < scope.len() {
                            assert(scope[i] == v);
                        } else {
                            assert(kd.plain(params@[i - scope.len()].0));
                        }
                    }
                }
                lemma_wanted(kd, st, *rhs, inner, v, n);
            } else {
                lemma_outside(scope, var, v);
                lemma_wanted(kd, st, *body, scope.push(var), v, n);
            }
        },
        Term::Jump(j, xs, _) => {
            if j == v {
                assert(stands_for(st, j, n));
            } else {
                lemma_list_wanted(kd, st, t, xs@, scope, v, n);
            }
        },
        Term::If(a, b, c) => {
            if reaches(*a, v) {
                lemma_wanted(kd, st, *a, scope, v, n);
            } else if reaches(*b, v) {
                lemma_wanted(kd, st, *b, scope, v, n);
            } else {
                lemma_wanted(kd, st, *c, scope, v, n);
            }
        },
        Term::Tuple(xs) => {
            lemma_list_wanted(kd, st, t, xs@, scope, v, n);
        },
        Term::Array(xs, _) => {
            lemma_list_wanted(kd, st, t, xs@, scope, v, n);
        },
        Term::Record(_, xs) => {
            lemma_list_wanted(kd, st, t, xs@, scope, v, n);
        },
        Term::Ctor(_, _, xs) => {
            lemma_list_wanted(kd, st, t, xs@, scope, v, n);
        },
        Term::Prim(_, xs, _) => {
            lemma_list_wanted(kd, st, t, xs@, scope, v, n);
        },
        Term::Case(s, arms, _) => {
            if reaches(*s, v) {
                lemma_wanted(kd, st, *s, scope, v, n);
            } else {
                let k = choose|i: int| 0 <= i < arms@.len() && arm_reaches(#[trigger] arms@[i], v);
                assert(decreases_to!(t => arms@));
                assert(decreases_to!(arms@ => arms@[k]));
                assert(arms_tidy(kd, arms@));
                lemma_arm_wanted(kd, st, arms@[k], scope, v, n);
                assert(arm_uses(st, arms@[k], scope, n));
            }
        },
        Term::Handle { body, clauses, ret, .. } => {
            if reaches(*body, v) {
                lemma_wanted(kd, st, *body, scope, v, n);
            } else if ret is Some && reaches(*(ret->0).2, v) {
                lemma_outside(scope, (ret->0).0, v);
                lemma_wanted(kd, st, *(ret->0).2, scope.push((ret->0).0), v, n);
            } else {
                let k = choose|i: int| 0 <= i < clauses@.len() && reaches((#[trigger] clauses@[i]).body, v);
                let c = clauses@[k];
                assert(decreases_to!(t => clauses@));
                assert(decreases_to!(clauses@ => clauses@[k]));
                assert(clauses_tidy(kd, clauses@));
                assert(kd.plain(c.param) && kd.plain(c.resume));
                lemma_outside(scope, c.param, v);
                lemma_outside(scope.push(c.param), c.resume, v);
                lemma_wanted(kd, st, c.body, scope.push(c.param).push(c.resume), v, n);
                assert(uses(st, clauses@[k].body, scope.push(clauses@[k].param).push(clauses@[k].resume), n));
            }
        },
        _ => {},
    }
}

proof fn lemma_outside(scope: Seq<Var>, x: Var, v: Var)
    requires
        !scope.contains(v),
        x != v,
    ensures
        !scope.push(x).contains(v),
{
    if scope.push(x).contains(v) {
        let i = scope.push(x).index_of(v);
        assert(scope[i] == v);
    }
}

proof fn lemma_list_wanted(kd: Kinds, st: St, t: Term, xs: Seq<Term>, scope: Seq<Var>, v: Var, n: Name)
    requires
        sorted(kd, st),
        all_tidy(kd, xs),
        exists|i: int| 0 <= i < xs.len() && reaches(#[trigger] xs[i], v),
        label_for(st, v, n),
        !scope.contains(v),
        decreases_to!(t => xs),
    ensures
        exists|i: int| 0 <= i < xs.len() && uses(st, #[trigger] xs[i], scope, n),
    decreases t, 0nat,
{
    let k = choose|i: int| 0 <= i < xs.len() && reaches(#[trigger] xs[i], v);
    assert(decreases_to!(xs => xs[k]));
    lemma_wanted(kd, st, xs[k], scope, v, n);
}

/// The same of an arm.
pub proof fn lemma_arm_wanted(kd: Kinds, st: St, arm: Arm, scope: Seq<Var>, v: Var, n: Name)
    requires
        sorted(kd, st),
        arm_tidy(kd, arm),
        arm_reaches(arm, v),
        label_for(st, v, n),
        !scope.contains(v),
    ensures
        arm_uses(st, arm, scope, n),
    decreases arm, 0nat,
{
    let inner = pattern_vars(scope, arm.pat);
    assert(kd.g.contains(v) || kd.j.contains(v));
    if inner.contains(v) {
        lemma_pattern_vars(scope, arm.pat, v);
        assert(kd.plain(v));
    }
    assert(decreases_to!(arm => arm.body));
    if reaches(arm.body, v) {
        lemma_wanted(kd, st, arm.body, inner, v, n);
    } else {
        assert(decreases_to!(arm => arm.guard->0));
        lemma_wanted(kd, st, arm.guard->0, inner, v, n);
    }
}

} // verus!
