//! Decision trees: a `match` planned whole before anything is emitted, so that an
//! arm reached from more than one leaf is known to be.

use super::state::{Lower, St};
use super::types::{choose_field_type, field_names, field_type, variants_of};
use crate::seq::ir::Name;
use crate::terms::prim::Lit;
use crate::terms::symbol::Sym;
use crate::terms::term::{Arm, Pat, Var};
use crate::terms::ty::Ty;
use vstd::prelude::*;

verus! {

/// A row of a `match`'s pattern matrix: what is still to be tested of one arm, and
/// what its variables have been bound to so far.
pub struct Row<'t> {
    pub tests: Vec<(Name, &'t Pat)>,
    pub binds: Vec<(Var, Name)>,
    pub arm: usize,
}

pub struct RowV {
    pub tests: Seq<(Name, Pat)>,
    pub binds: Seq<(Var, Name)>,
    pub arm: usize,
}

pub open spec fn tests_view(ts: Seq<(Name, &Pat)>) -> Seq<(Name, Pat)> {
    Seq::new(ts.len(), |i: int| (ts[i].0, *ts[i].1))
}

impl<'t> View for Row<'t> {
    type V = RowV;

    open spec fn view(&self) -> RowV {
        RowV { tests: tests_view(self.tests@), binds: self.binds@, arm: self.arm }
    }
}

pub open spec fn rows_view(rs: Seq<Row>) -> Seq<RowV> {
    Seq::new(rs.len(), |i: int| rs[i]@)
}

/// A decision tree over a `match`'s arms.
pub enum Dt {
    Fail,
    /// Arm `arm` matched. `otherwise` is what is left to try when its guard is
    /// false.
    Leaf { arm: usize, binds: Vec<(Var, Name)>, otherwise: Option<Box<Dt>> },
    /// A case per constructor some row names, each binding its fields; `default`
    /// for the others, unless there are none.
    Switch { occ: Name, cases: Vec<(Sym, Vec<Name>, Dt)>, default: Option<Box<Dt>> },
    Lits { occ: Name, lits: Vec<(Lit, Dt)>, rest: Box<Dt> },
    /// Take the fields of tuple `occ` that some row looks at.
    Tuple { occ: Name, fields: Vec<(usize, Name)>, next: Box<Dt> },
}

pub enum DtV {
    Fail,
    Leaf { arm: usize, binds: Seq<(Var, Name)>, otherwise: Option<Box<DtV>> },
    Switch { occ: Name, cases: Seq<(Sym, Seq<Name>, DtV)>, default: Option<Box<DtV>> },
    Lits { occ: Name, lits: Seq<(Lit, DtV)>, rest: Box<DtV> },
    Tuple { occ: Name, fields: Seq<(usize, Name)>, next: Box<DtV> },
}

pub open spec fn dt_view(d: Dt) -> DtV
    decreases d,
{
    match d {
        Dt::Fail => DtV::Fail,
        Dt::Leaf { arm, binds, otherwise } => DtV::Leaf {
            arm,
            binds: binds@,
            otherwise: match otherwise {
                Some(o) => Some(Box::new(dt_view(*o))),
                None => None,
            },
        },
        Dt::Switch { occ, cases, default } => DtV::Switch {
            occ,
            cases: Seq::new(
                cases@.len(),
                |i: int|
                    if 0 <= i < cases@.len() {
                        (cases@[i].0, cases@[i].1@, dt_view(cases@[i].2))
                    } else {
                        arbitrary()
                    },
            ),
            default: match default {
                Some(o) => Some(Box::new(dt_view(*o))),
                None => None,
            },
        },
        Dt::Lits { occ, lits, rest } => DtV::Lits {
            occ,
            lits: Seq::new(
                lits@.len(),
                |i: int|
                    if 0 <= i < lits@.len() {
                        (lits@[i].0, dt_view(lits@[i].1))
                    } else {
                        arbitrary()
                    },
            ),
            rest: Box::new(dt_view(*rest)),
        },
        Dt::Tuple { occ, fields, next } => DtV::Tuple { occ, fields: fields@, next: Box::new(dt_view(*next)) },
    }
}

pub open spec fn cases_view(cs: Seq<(Sym, Vec<Name>, Dt)>) -> Seq<(Sym, Seq<Name>, DtV)> {
    Seq::new(cs.len(), |i: int| (cs[i].0, cs[i].1@, dt_view(cs[i].2)))
}

pub open spec fn lits_view(cs: Seq<(Lit, Dt)>) -> Seq<(Lit, DtV)> {
    Seq::new(cs.len(), |i: int| (cs[i].0, dt_view(cs[i].1)))
}

/// A row with a test added: a variable is bound, and a wildcard is nothing to test.
pub open spec fn add_test(row: RowV, x: Name, p: Pat) -> RowV
    decreases p,
{
    match p {
        Pat::Wild => row,
        Pat::Var(v, _) => RowV { binds: row.binds.push((v, x)), ..row },
        Pat::As(v, _, sub) => add_test(RowV { binds: row.binds.push((v, x)), ..row }, x, *sub),
        p => RowV { tests: row.tests.push((x, p)), ..row },
    }
}

/// A row with the first `n` of its tests settled, and the others gone.
pub open spec fn settle_first(row: RowV, n: nat) -> RowV
    decreases n,
{
    if n == 0 || n > row.tests.len() {
        RowV { tests: Seq::empty(), ..row }
    } else {
        add_test(settle_first(row, (n - 1) as nat), row.tests[n - 1].0, row.tests[n - 1].1)
    }
}

/// A row with its variables bound and its wildcards gone: what is left are tests
/// that can fail, or take a tuple apart.
pub open spec fn settled(row: RowV) -> RowV {
    settle_first(row, row.tests.len())
}

/// The first test of `occ`, from `i` on, and how many tests there are if none is.
pub open spec fn test_of(tests: Seq<(Name, Pat)>, occ: Name, i: nat) -> nat
    decreases tests.len() - i,
{
    if i >= tests.len() || tests[i as int].0 == occ {
        i
    } else {
        test_of(tests, occ, i + 1)
    }
}

/// The pattern a row tests `occ` against.
pub open spec fn tested(row: RowV, occ: Name) -> Option<Pat> {
    let j = test_of(row.tests, occ, 0);
    if j < row.tests.len() {
        Some(row.tests[j as int].1)
    } else {
        None
    }
}

/// The rows, of the first `n`, that do not look at `occ`.
pub open spec fn untested(rows: Seq<RowV>, occ: Name, n: nat) -> Seq<RowV>
    decreases n,
{
    if n == 0 || n > rows.len() {
        Seq::empty()
    } else if tested(rows[n - 1], occ) is None {
        untested(rows, occ, (n - 1) as nat).push(rows[n - 1])
    } else {
        untested(rows, occ, (n - 1) as nat)
    }
}

/// Is constructor `c` among these?
pub open spec fn among(cs: Seq<(Sym, Vec<Pat>)>, c: Sym) -> bool {
    exists|i: int| 0 <= i < cs.len() && (#[trigger] cs[i]).0 == c
}

/// The constructors the first `n` rows test `occ` for, each once, in order.
pub open spec fn ctors(rows: Seq<RowV>, occ: Name, n: nat) -> Seq<(Sym, Vec<Pat>)>
    decreases n,
{
    if n == 0 || n > rows.len() {
        Seq::empty()
    } else {
        let cs = ctors(rows, occ, (n - 1) as nat);
        match tested(rows[n - 1], occ) {
            Some(Pat::Ctor(c, subs)) => if among(cs, c) {
                cs
            } else {
                cs.push((c, subs))
            },
            _ => cs,
        }
    }
}

/// The literals the first `n` rows test `occ` for, each once, in order.
pub open spec fn lits(rows: Seq<RowV>, occ: Name, n: nat) -> Seq<Lit>
    decreases n,
{
    if n == 0 || n > rows.len() {
        Seq::empty()
    } else {
        let ls = lits(rows, occ, (n - 1) as nat);
        match tested(rows[n - 1], occ) {
            Some(Pat::Lit(l)) => if ls.contains(l) {
                ls
            } else {
                ls.push(l)
            },
            _ => ls,
        }
    }
}

/// Tests of the first `n` fields that are looked at.
pub open spec fn field_tests(fields: Seq<Option<Name>>, subs: Seq<Pat>, n: nat) -> Seq<(Name, Pat)>
    decreases n,
{
    if n == 0 || n > subs.len() {
        Seq::empty()
    } else {
        let ts = field_tests(fields, subs, (n - 1) as nat);
        if !(subs[n - 1] is Wild) && n <= fields.len() && fields[n - 1] is Some {
            ts.push((fields[n - 1]->0, subs[n - 1]))
        } else {
            ts
        }
    }
}

/// All of these names.
pub open spec fn all_some(names: Seq<Name>) -> Seq<Option<Name>> {
    Seq::new(names.len(), |i: int| Some(names[i]))
}

/// A row with its test at `j` replaced by others, in its place.
pub open spec fn replaced(row: RowV, j: int, ts: Seq<(Name, Pat)>) -> RowV {
    RowV { tests: row.tests.take(j) + ts + row.tests.skip(j + 1), ..row }
}

/// A row where `occ` is known to be built by `c`: its test of `occ` becomes tests of
/// the fields, and a row that wanted another constructor there is gone.
pub open spec fn specialized(row: RowV, occ: Name, c: Sym, fields: Seq<Name>) -> Option<RowV> {
    let j = test_of(row.tests, occ, 0);
    if j >= row.tests.len() {
        Some(row)
    } else {
        match row.tests[j as int].1 {
            Pat::Ctor(d, subs) => if c == d {
                Some(replaced(row, j as int, field_tests(all_some(fields), subs@, subs@.len())))
            } else {
                None
            },
            _ => None,
        }
    }
}

/// A row where `occ` is known to be literal `l`.
pub open spec fn specialized_lit(row: RowV, occ: Name, l: Lit) -> Option<RowV> {
    let j = test_of(row.tests, occ, 0);
    if j >= row.tests.len() {
        Some(row)
    } else {
        match row.tests[j as int].1 {
            Pat::Lit(m) => if m == l {
                Some(replaced(row, j as int, Seq::empty()))
            } else {
                None
            },
            _ => None,
        }
    }
}

/// A row where tuple `occ`'s fields have been taken.
pub open spec fn specialized_tuple(row: RowV, occ: Name, names: Seq<Option<Name>>) -> RowV {
    let j = test_of(row.tests, occ, 0);
    if j >= row.tests.len() {
        row
    } else {
        match row.tests[j as int].1 {
            Pat::Tuple(subs) => replaced(row, j as int, field_tests(names, subs@, subs@.len())),
            _ => replaced(row, j as int, Seq::empty()),
        }
    }
}

/// What is left of the first `n` rows where `occ` is built by `c`.
pub open spec fn rows_for(rows: Seq<RowV>, occ: Name, c: Sym, fields: Seq<Name>, n: nat) -> Seq<RowV>
    decreases n,
{
    if n == 0 || n > rows.len() {
        Seq::empty()
    } else {
        let rs = rows_for(rows, occ, c, fields, (n - 1) as nat);
        match specialized(rows[n - 1], occ, c, fields) {
            Some(r) => rs.push(r),
            None => rs,
        }
    }
}

/// What is left of the first `n` rows where `occ` is literal `l`.
pub open spec fn rows_for_lit(rows: Seq<RowV>, occ: Name, l: Lit, n: nat) -> Seq<RowV>
    decreases n,
{
    if n == 0 || n > rows.len() {
        Seq::empty()
    } else {
        let rs = rows_for_lit(rows, occ, l, (n - 1) as nat);
        match specialized_lit(rows[n - 1], occ, l) {
            Some(r) => rs.push(r),
            None => rs,
        }
    }
}

/// With names taken for the tuple fields the first `n` patterns look at.
pub open spec fn name_subs(
    st: St,
    of: Option<Ty>,
    names: Seq<Option<Name>>,
    subs: Seq<Pat>,
    n: nat,
) -> (St, Seq<Option<Name>>)
    decreases n,
{
    if n == 0 || n > subs.len() {
        (st, names)
    } else {
        let (st1, ns) = name_subs(st, of, names, subs, (n - 1) as nat);
        if n <= ns.len() && ns[n - 1] is None && !(subs[n - 1] is Wild) {
            let ty = match of {
                Some(Ty::Tuple(items)) => items.at((n - 1) as nat),
                _ => None,
            };
            (st1.fresh_typed(field_type(ty, subs[n - 1])), ns.update(n - 1, Some(st1.next_name)))
        } else {
            (st1, ns)
        }
    }
}

/// With names taken for the tuple fields the first `n` rows look at.
pub open spec fn name_tuple(
    st: St,
    of: Option<Ty>,
    names: Seq<Option<Name>>,
    rows: Seq<RowV>,
    occ: Name,
    n: nat,
) -> (St, Seq<Option<Name>>)
    decreases n,
{
    if n == 0 || n > rows.len() {
        (st, names)
    } else {
        let (st1, ns) = name_tuple(st, of, names, rows, occ, (n - 1) as nat);
        match tested(rows[n - 1], occ) {
            Some(Pat::Tuple(subs)) => name_subs(st1, of, ns, subs@, subs@.len()),
            _ => (st1, ns),
        }
    }
}

/// The places, of the first `n`, that have a name, each with it.
pub open spec fn named_places(names: Seq<Option<Name>>, n: nat) -> Seq<(usize, Name)>
    decreases n,
{
    if n == 0 || n > names.len() {
        Seq::empty()
    } else {
        match names[n - 1] {
            Some(x) => named_places(names, (n - 1) as nat).push(((n - 1) as usize, x)),
            None => named_places(names, (n - 1) as nat),
        }
    }
}

/// How many constructors the type of `occ` has, where that is known.
pub open spec fn constructors(st: St, of: Option<Ty>) -> Option<nat> {
    match of {
        Some(Ty::Con(name, _)) => match variants_of(st.variants, name, 0) {
            Some(vs) => Some(vs.len()),
            None => None,
        },
        _ => None,
    }
}

/// A planned tree, the state planning it leaves, and what is left of the budget.
pub struct Planned<T> {
    pub st: St,
    pub left: nat,
    pub got: Option<T>,
}

/// The smaller: planning a part never leaves more than it was given.
pub open spec fn at_most(a: nat, b: nat) -> nat {
    if a < b {
        a
    } else {
        b
    }
}

/// The most nodes a tree over `n` arms may take.
pub open spec fn budget_for(n: nat) -> nat {
    if n < 0x400_0000_0000_0000 {
        256 + 32 * n
    } else {
        0xffff_ffff_ffff_ffff
    }
}

pub fn plan_budget(n: usize) -> (r: u64)
    ensures
        r == budget_for(n as nat),
{
    if (n as u64) < 0x400_0000_0000_0000 {
        256 + 32 * (n as u64)
    } else {
        0xffff_ffff_ffff_ffff
    }
}

/// The tree for `rows`, unless it would take more than `budget` nodes.
pub open spec fn build(st: St, rows: Seq<RowV>, arms: Seq<Arm>, budget: nat) -> Planned<DtV>
    decreases budget, 0nat, 0nat,
{
    if budget == 0 {
        Planned { st, left: 0, got: None }
    } else {
        let left = (budget - 1) as nat;
        let rows = Seq::new(rows.len(), |i: int| settled(rows[i]));
        if rows.len() == 0 {
            Planned { st, left, got: Some(DtV::Fail) }
        } else if rows[0].tests.len() == 0 {
            let row = rows[0];
            if row.arm < arms.len() && arms[row.arm as int].guard is Some {
                let o = build(st, rows.skip(1), arms, left);
                Planned {
                    st: o.st,
                    left: o.left,
                    got: match o.got {
                        Some(d) => Some(
                            DtV::Leaf { arm: row.arm, binds: row.binds, otherwise: Some(Box::new(d)) },
                        ),
                        None => None,
                    },
                }
            } else {
                Planned { st, left, got: Some(DtV::Leaf { arm: row.arm, binds: row.binds, otherwise: None }) }
            }
        } else {
            let (occ, pat) = rows[0].tests[0];
            let of = st.type_of_name(occ);
            match pat {
                Pat::Ctor(_, _) => {
                    let cs = ctors(rows, occ, rows.len());
                    let a = build_cases(st, rows, arms, occ, of, cs, cs.len(), left);
                    if a.got is None {
                        Planned { st: a.st, left: a.left, got: None }
                    } else if constructors(a.st, of) == Some(cs.len()) {
                        Planned {
                            st: a.st,
                            left: a.left,
                            got: Some(DtV::Switch { occ, cases: a.got->0, default: None }),
                        }
                    } else {
                        let d = build(a.st, untested(rows, occ, rows.len()), arms, at_most(a.left, left));
                        Planned {
                            st: d.st,
                            left: d.left,
                            got: match d.got {
                                Some(d) => Some(
                                    DtV::Switch { occ, cases: a.got->0, default: Some(Box::new(d)) },
                                ),
                                None => None,
                            },
                        }
                    }
                },
                Pat::Lit(_) => {
                    let ls = lits(rows, occ, rows.len());
                    let a = build_lits(st, rows, arms, occ, ls, ls.len(), left);
                    if a.got is None {
                        Planned { st: a.st, left: a.left, got: None }
                    } else {
                        let d = build(a.st, untested(rows, occ, rows.len()), arms, at_most(a.left, left));
                        Planned {
                            st: d.st,
                            left: d.left,
                            got: match d.got {
                                Some(d) => Some(DtV::Lits { occ, lits: a.got->0, rest: Box::new(d) }),
                                None => None,
                            },
                        }
                    }
                },
                Pat::Tuple(subs) => {
                    let none = Seq::new(subs@.len(), |i: int| None::<Name>);
                    let (st1, names) = name_tuple(st, of, none, rows, occ, rows.len());
                    let rest = Seq::new(rows.len(), |i: int| specialized_tuple(rows[i], occ, names));
                    let d = build(st1, rest, arms, left);
                    Planned {
                        st: d.st,
                        left: d.left,
                        got: match d.got {
                            Some(d) => Some(
                                DtV::Tuple { occ, fields: named_places(names, names.len()), next: Box::new(d) },
                            ),
                            None => None,
                        },
                    }
                },
                _ => Planned { st, left, got: None },
            }
        }
    }
}

/// The tree for `rows`, unless it would be too big to be worth it for `n` arms.
#[verifier::opaque]
pub open spec fn plan(st: St, rows: Seq<RowV>, arms: Seq<Arm>, n: nat) -> Planned<DtV> {
    build(st, rows, arms, budget_for(n))
}

/// A case for each of the first `n` constructors.
pub open spec fn build_cases(
    st: St,
    rows: Seq<RowV>,
    arms: Seq<Arm>,
    occ: Name,
    of: Option<Ty>,
    cs: Seq<(Sym, Vec<Pat>)>,
    n: nat,
    budget: nat,
) -> Planned<Seq<(Sym, Seq<Name>, DtV)>>
    decreases budget, 1nat, n,
{
    if n == 0 || n > cs.len() {
        Planned { st, left: budget, got: Some(Seq::empty()) }
    } else {
        let a = build_cases(st, rows, arms, occ, of, cs, (n - 1) as nat, budget);
        if a.got is None {
            a
        } else {
            let (c, subs) = cs[n - 1];
            let (st1, fields) = field_names(a.st, c, subs@, of);
            let d = build(st1, rows_for(rows, occ, c, fields, rows.len()), arms, at_most(a.left, budget));
            Planned {
                st: d.st,
                left: d.left,
                got: match d.got {
                    Some(d) => Some((a.got->0).push((c, fields, d))),
                    None => None,
                },
            }
        }
    }
}

/// A case for each of the first `n` literals.
pub open spec fn build_lits(
    st: St,
    rows: Seq<RowV>,
    arms: Seq<Arm>,
    occ: Name,
    ls: Seq<Lit>,
    n: nat,
    budget: nat,
) -> Planned<Seq<(Lit, DtV)>>
    decreases budget, 1nat, n,
{
    if n == 0 || n > ls.len() {
        Planned { st, left: budget, got: Some(Seq::empty()) }
    } else {
        let a = build_lits(st, rows, arms, occ, ls, (n - 1) as nat, budget);
        if a.got is None {
            a
        } else {
            let l = ls[n - 1];
            let d = build(a.st, rows_for_lit(rows, occ, l, rows.len()), arms, at_most(a.left, budget));
            Planned {
                st: d.st,
                left: d.left,
                got: match d.got {
                    Some(d) => Some((a.got->0).push((l, d))),
                    None => None,
                },
            }
        }
    }
}

/// How many leaves of the tree are arm `arm`.
pub open spec fn leaves(d: DtV, arm: usize) -> nat
    decreases d, 0nat,
{
    match d {
        DtV::Fail => 0,
        DtV::Leaf { arm: a, otherwise, .. } => (if a == arm {
            1nat
        } else {
            0nat
        }) + (match otherwise {
            Some(o) => leaves(*o, arm),
            None => 0,
        }),
        DtV::Switch { cases, default, .. } => case_leaves(cases, cases.len(), arm) + (match default {
            Some(o) => leaves(*o, arm),
            None => 0,
        }),
        DtV::Lits { lits, rest, .. } => lit_leaves(lits, lits.len(), arm) + leaves(*rest, arm),
        DtV::Tuple { next, .. } => leaves(*next, arm),
    }
}

pub open spec fn case_leaves(cs: Seq<(Sym, Seq<Name>, DtV)>, n: nat, arm: usize) -> nat
    decreases cs, n,
{
    if n == 0 || n > cs.len() {
        0
    } else {
        case_leaves(cs, (n - 1) as nat, arm) + leaves(cs[n - 1].2, arm)
    }
}

pub open spec fn lit_leaves(cs: Seq<(Lit, DtV)>, n: nat, arm: usize) -> nat
    decreases cs, n,
{
    if n == 0 || n > cs.len() {
        0
    } else {
        lit_leaves(cs, (n - 1) as nat, arm) + leaves(cs[n - 1].1, arm)
    }
}

fn copy_binds(v: &Vec<(Var, Name)>) -> (r: Vec<(Var, Name)>)
    ensures
        r@ == v@,
{
    super::scan::copy_pairs(v)
}

impl<'t> Row<'t> {
    /// Add a test: a variable is bound, and a wildcard is nothing to test.
    fn add_test(&mut self, x: Name, p: &'t Pat)
        ensures
            final(self)@ == add_test(old(self)@, x, *p),
        decreases p,
    {
        match p {
            Pat::Wild => {},
            Pat::Var(v, _) => {
                self.binds.push((*v, x));
            },
            Pat::As(v, _, sub) => {
                self.binds.push((*v, x));
                self.add_test(x, sub);
            },
            _ => {
                let ghost was = self.tests@;
                self.tests.push((x, p));
                proof {
                    assert(tests_view(self.tests@) =~= tests_view(was).push((x, *p)));
                }
            },
        }
    }

    /// The row with its variables bound and its wildcards gone.
    fn settle(&self) -> (r: Row<'t>)
        ensures
            r@ == settled(self@),
    {
        let mut r: Row<'t> = Row { tests: Vec::new(), binds: copy_binds(&self.binds), arm: self.arm };
        proof {
            assert(tests_view(r.tests@) =~= Seq::<(Name, Pat)>::empty());
        }
        let mut i: usize = 0;
        while i < self.tests.len()
            invariant
                i <= self.tests@.len(),
                r@ == settle_first(self@, i as nat),
            decreases self.tests@.len() - i,
        {
            let (x, p) = self.tests[i];
            r.add_test(x, p);
            i = i + 1;
        }
        r
    }

    fn test_of(&self, occ: Name) -> (r: usize)
        ensures
            r == test_of(self@.tests, occ, 0),
            r <= self.tests@.len(),
    {
        let mut i: usize = 0;
        while i < self.tests.len()
            invariant
                i <= self.tests@.len(),
                test_of(self@.tests, occ, 0) == test_of(self@.tests, occ, i as nat),
            decreases self.tests@.len() - i,
        {
            if self.tests[i].0 == occ {
                return i;
            }
            i = i + 1;
        }
        i
    }

    /// The pattern the row tests `occ` against.
    fn tested(&self, occ: Name) -> (r: Option<&'t Pat>)
        ensures
            match r {
                Some(p) => tested(self@, occ) == Some(*p),
                None => tested(self@, occ) is None,
            },
    {
        let j: usize = self.test_of(occ);
        if j < self.tests.len() {
            Some(self.tests[j].1)
        } else {
            None
        }
    }

    /// The row with its test at `j` replaced by others, in its place.
    fn replace(&self, j: usize, ts: Vec<(Name, &'t Pat)>) -> (r: Row<'t>)
        requires
            j < self.tests@.len(),
        ensures
            r@ == replaced(self@, j as int, tests_view(ts@)),
    {
        let n: usize = self.tests.len();
        let mut tests: Vec<(Name, &'t Pat)> = Vec::new();
        let mut i: usize = 0;
        while i < j
            invariant
                i <= j,
                j < self.tests@.len(),
                tests@ == self.tests@.take(i as int),
            decreases j - i,
        {
            tests.push(self.tests[i]);
            i = i + 1;
            proof {
                assert(self.tests@.take(i as int) =~= self.tests@.take(i - 1).push(self.tests@[i - 1]));
            }
        }
        let mut ts2: Vec<(Name, &'t Pat)> = ts;
        tests.append(&mut ts2);
        let ghost mid = tests@;
        i = j + 1;
        while i < n
            invariant
                j < i <= n,
                n == self.tests@.len(),
                tests@ == mid + self.tests@.subrange(j + 1, i as int),
            decreases self.tests@.len() - i,
        {
            tests.push(self.tests[i]);
            i = i + 1;
            proof {
                assert(self.tests@.subrange(j + 1, i as int) =~= self.tests@.subrange(j + 1, i - 1).push(
                    self.tests@[i - 1],
                ));
            }
        }
        let r: Row<'t> = Row { tests, binds: copy_binds(&self.binds), arm: self.arm };
        proof {
            assert(r@.tests =~= self@.tests.take(j as int) + tests_view(ts@) + self@.tests.skip(j + 1));
        }
        r
    }

    fn copy(&self) -> (r: Row<'t>)
        ensures
            r@ == self@,
    {
        let mut tests: Vec<(Name, &'t Pat)> = Vec::new();
        let mut i: usize = 0;
        while i < self.tests.len()
            invariant
                i <= self.tests@.len(),
                tests@ == self.tests@.take(i as int),
            decreases self.tests@.len() - i,
        {
            tests.push(self.tests[i]);
            i = i + 1;
            proof {
                assert(self.tests@.take(i as int) =~= self.tests@.take(i - 1).push(self.tests@[i - 1]));
            }
        }
        proof {
            assert(self.tests@.take(i as int) =~= self.tests@);
        }
        Row { tests, binds: copy_binds(&self.binds), arm: self.arm }
    }

    /// The row where `occ` is known to be built by `c`.
    fn specialize(&self, occ: Name, c: Sym, fields: &Vec<Name>) -> (r: Option<Row<'t>>)
        ensures
            match r {
                Some(r) => specialized(self@, occ, c, fields@) == Some(r@),
                None => specialized(self@, occ, c, fields@) is None,
            },
    {
        let j: usize = self.test_of(occ);
        if j >= self.tests.len() {
            return Some(self.copy());
        }
        match self.tests[j].1 {
            Pat::Ctor(d, subs) => if c == *d {
                let some: Vec<Option<Name>> = somes(fields);
                Some(self.replace(j, field_tests_of(&some, subs)))
            } else {
                None
            },
            _ => None,
        }
    }

    fn specialize_lit(&self, occ: Name, l: Lit) -> (r: Option<Row<'t>>)
        ensures
            match r {
                Some(r) => specialized_lit(self@, occ, l) == Some(r@),
                None => specialized_lit(self@, occ, l) is None,
            },
    {
        let j: usize = self.test_of(occ);
        if j >= self.tests.len() {
            return Some(self.copy());
        }
        match self.tests[j].1 {
            Pat::Lit(m) => if *m == l {
                Some(self.replace(j, no_tests()))
            } else {
                None
            },
            _ => None,
        }
    }

    fn specialize_tuple(&self, occ: Name, names: &Vec<Option<Name>>) -> (r: Row<'t>)
        ensures
            r@ == specialized_tuple(self@, occ, names@),
    {
        let j: usize = self.test_of(occ);
        if j >= self.tests.len() {
            return self.copy();
        }
        match self.tests[j].1 {
            Pat::Tuple(subs) => self.replace(j, field_tests_of(names, subs)),
            _ => self.replace(j, no_tests()),
        }
    }
}

pub fn no_tests<'t>() -> (r: Vec<(Name, &'t Pat)>)
    ensures
        tests_view(r@) == Seq::<(Name, Pat)>::empty(),
{
    let r: Vec<(Name, &'t Pat)> = Vec::new();
    proof {
        assert(tests_view(r@) =~= Seq::<(Name, Pat)>::empty());
    }
    r
}

pub fn somes(names: &Vec<Name>) -> (r: Vec<Option<Name>>)
    ensures
        r@ == all_some(names@),
{
    let mut r: Vec<Option<Name>> = Vec::new();
    let mut i: usize = 0;
    while i < names.len()
        invariant
            i <= names@.len(),
            r@ == all_some(names@).take(i as int),
        decreases names@.len() - i,
    {
        r.push(Some(names[i]));
        i = i + 1;
        proof {
            let all = all_some(names@);
            assert(all.take(i as int) =~= all.take(i - 1).push(all[i - 1]));
        }
    }
    proof {
        assert(all_some(names@).take(i as int) =~= all_some(names@));
    }
    r
}

pub fn field_tests_of<'t>(fields: &Vec<Option<Name>>, subs: &'t Vec<Pat>) -> (r: Vec<(Name, &'t Pat)>)
    ensures
        tests_view(r@) == field_tests(fields@, subs@, subs@.len()),
{
    let mut r: Vec<(Name, &'t Pat)> = no_tests();
    let mut i: usize = 0;
    while i < subs.len()
        invariant
            i <= subs@.len(),
            tests_view(r@) == field_tests(fields@, subs@, i as nat),
        decreases subs@.len() - i,
    {
        let wild: bool = match &subs[i] {
            Pat::Wild => true,
            _ => false,
        };
        if !wild && i < fields.len() {
            if let Some(x) = fields[i] {
                let ghost was = r@;
                r.push((x, &subs[i]));
                proof {
                    assert(tests_view(r@) =~= tests_view(was).push((x, subs@[i as int])));
                }
            }
        }
        i = i + 1;
    }
    r
}

/// Add a row behind the others.
pub fn add_row<'t>(rs: &mut Vec<Row<'t>>, r: Row<'t>)
    ensures
        rows_view(final(rs)@) == rows_view(old(rs)@).push(r@),
{
    let ghost was = rs@;
    rs.push(r);
    proof {
        assert(rows_view(rs@) =~= rows_view(was).push(r@));
    }
}

pub fn no_rows<'t>() -> (r: Vec<Row<'t>>)
    ensures
        rows_view(r@) == Seq::<RowV>::empty(),
{
    let r: Vec<Row<'t>> = Vec::new();
    proof {
        assert(rows_view(r@) =~= Seq::<RowV>::empty());
    }
    r
}

fn untested_rows<'t>(rows: &Vec<Row<'t>>, occ: Name) -> (r: Vec<Row<'t>>)
    ensures
        rows_view(r@) == untested(rows_view(rows@), occ, rows@.len()),
{
    let mut r: Vec<Row<'t>> = no_rows();
    let mut i: usize = 0;
    while i < rows.len()
        invariant
            i <= rows@.len(),
            rows_view(r@) == untested(rows_view(rows@), occ, i as nat),
        decreases rows@.len() - i,
    {
        if rows[i].tested(occ).is_none() {
            add_row(&mut r, rows[i].copy());
        }
        i = i + 1;
    }
    r
}

fn rows_of_ctor<'t>(rows: &Vec<Row<'t>>, occ: Name, c: Sym, fields: &Vec<Name>) -> (r: Vec<Row<'t>>)
    ensures
        rows_view(r@) == rows_for(rows_view(rows@), occ, c, fields@, rows@.len()),
{
    let mut r: Vec<Row<'t>> = no_rows();
    let mut i: usize = 0;
    while i < rows.len()
        invariant
            i <= rows@.len(),
            rows_view(r@) == rows_for(rows_view(rows@), occ, c, fields@, i as nat),
        decreases rows@.len() - i,
    {
        if let Some(row) = rows[i].specialize(occ, c, fields) {
            add_row(&mut r, row);
        }
        i = i + 1;
    }
    r
}

fn rows_of_lit<'t>(rows: &Vec<Row<'t>>, occ: Name, l: Lit) -> (r: Vec<Row<'t>>)
    ensures
        rows_view(r@) == rows_for_lit(rows_view(rows@), occ, l, rows@.len()),
{
    let mut r: Vec<Row<'t>> = no_rows();
    let mut i: usize = 0;
    while i < rows.len()
        invariant
            i <= rows@.len(),
            rows_view(r@) == rows_for_lit(rows_view(rows@), occ, l, i as nat),
        decreases rows@.len() - i,
    {
        if let Some(row) = rows[i].specialize_lit(occ, l) {
            add_row(&mut r, row);
        }
        i = i + 1;
    }
    r
}

/// Constructors, seen through pointers, are these.
pub open spec fn these_ctors(rs: Seq<(Sym, &Vec<Pat>)>, cs: Seq<(Sym, Vec<Pat>)>) -> bool {
    &&& rs.len() == cs.len()
    &&& forall|i: int| 0 <= i < cs.len() ==> (#[trigger] rs[i]).0 == cs[i].0 && *rs[i].1 == cs[i].1
}

fn ctors_of<'t>(rows: &Vec<Row<'t>>, occ: Name) -> (r: Vec<(Sym, &'t Vec<Pat>)>)
    ensures
        these_ctors(r@, ctors(rows_view(rows@), occ, rows@.len())),
{
    let mut r: Vec<(Sym, &'t Vec<Pat>)> = Vec::new();
    let mut i: usize = 0;
    while i < rows.len()
        invariant
            i <= rows@.len(),
            these_ctors(r@, ctors(rows_view(rows@), occ, i as nat)),
        decreases rows@.len() - i,
    {
        if let Some(Pat::Ctor(c, subs)) = rows[i].tested(occ) {
            let ghost cs = ctors(rows_view(rows@), occ, i as nat);
            let mut found: bool = false;
            let mut j: usize = 0;
            while j < r.len()
                invariant
                    j <= r@.len(),
                    these_ctors(r@, cs),
                    found == (exists|m: int| 0 <= m < j && (#[trigger] cs[m]).0 == *c),
                decreases r@.len() - j,
            {
                assert(r@[j as int].0 == cs[j as int].0);
                if r[j].0 == *c {
                    found = true;
                }
                j = j + 1;
            }
            if !found {
                r.push((*c, subs));
            }
        }
        i = i + 1;
    }
    r
}

fn lits_of(rows: &Vec<Row>, occ: Name) -> (r: Vec<Lit>)
    ensures
        r@ == lits(rows_view(rows@), occ, rows@.len()),
{
    let mut r: Vec<Lit> = Vec::new();
    let mut i: usize = 0;
    while i < rows.len()
        invariant
            i <= rows@.len(),
            r@ == lits(rows_view(rows@), occ, i as nat),
        decreases rows@.len() - i,
    {
        if let Some(Pat::Lit(l)) = rows[i].tested(occ) {
            let mut found: bool = false;
            let mut j: usize = 0;
            while j < r.len()
                invariant
                    j <= r@.len(),
                    found == (exists|m: int| 0 <= m < j && r@[m] == *l),
                decreases r@.len() - j,
            {
                if r[j] == *l {
                    found = true;
                }
                j = j + 1;
            }
            if !found {
                r.push(*l);
            }
        }
        i = i + 1;
    }
    r
}

fn places_of(names: &Vec<Option<Name>>) -> (r: Vec<(usize, Name)>)
    ensures
        r@ == named_places(names@, names@.len()),
{
    let mut r: Vec<(usize, Name)> = Vec::new();
    let mut i: usize = 0;
    while i < names.len()
        invariant
            i <= names@.len(),
            r@ == named_places(names@, i as nat),
        decreases names@.len() - i,
    {
        if let Some(x) = names[i] {
            r.push((i, x));
        }
        i = i + 1;
    }
    r
}

fn smaller(a: u64, b: u64) -> (r: u64)
    ensures
        r == at_most(a as nat, b as nat),
{
    if a < b {
        a
    } else {
        b
    }
}

/// Is a planned part what was planned?
pub open spec fn planned(r: (u64, Option<Dt>), p: Planned<DtV>, st: St) -> bool {
    &&& p.st == st
    &&& p.left == r.0
    &&& match r.1 {
        Some(d) => p.got == Some(dt_view(d)),
        None => p.got is None,
    }
}

impl Lower {
    pub fn constructors(&self, of: &Option<Ty>) -> (r: Option<usize>)
        ensures
            match r {
                Some(n) => constructors(self@, *of) == Some(n as nat),
                None => constructors(self@, *of) is None,
            },
    {
        match of {
            Some(Ty::Con(name, _)) => match self.variants_of(*name) {
                Some(vs) => Some(vs.len()),
                None => None,
            },
            _ => None,
        }
    }

    fn name_subs(&mut self, of: &Option<Ty>, names: &mut Vec<Option<Name>>, subs: &Vec<Pat>)
        ensures
            (final(self)@, final(names)@) == name_subs(old(self)@, *of, old(names)@, subs@, subs@.len()),
    {
        let ghost st0 = self@;
        let ghost n0 = names@;
        let mut i: usize = 0;
        while i < subs.len()
            invariant
                i <= subs@.len(),
                (self@, names@) == name_subs(st0, *of, n0, subs@, i as nat),
            decreases subs@.len() - i,
        {
            let wild: bool = match &subs[i] {
                Pat::Wild => true,
                _ => false,
            };
            if i < names.len() && names[i].is_none() && !wild {
                let ty: Option<Ty> = match of {
                    Some(Ty::Tuple(items)) => items.get(i),
                    _ => None,
                };
                let x: Name = self.fresh_typed(choose_field_type(ty, &subs[i]));
                names.set(i, Some(x));
            }
            i = i + 1;
        }
    }

    fn name_tuple(&mut self, of: &Option<Ty>, n: usize, rows: &Vec<Row>, occ: Name) -> (r: Vec<Option<Name>>)
        ensures
            final(self)@ == name_tuple(
                old(self)@,
                *of,
                Seq::new(n as nat, |i: int| None::<Name>),
                rows_view(rows@),
                occ,
                rows@.len(),
            ).0,
            r@ == name_tuple(
                old(self)@,
                *of,
                Seq::new(n as nat, |i: int| None::<Name>),
                rows_view(rows@),
                occ,
                rows@.len(),
            ).1,
    {
        let ghost st0 = self@;
        let mut names: Vec<Option<Name>> = Vec::new();
        let ghost none = Seq::new(n as nat, |i: int| None::<Name>);
        let mut i: usize = 0;
        while i < n
            invariant
                i <= n,
                none == Seq::new(n as nat, |i: int| None::<Name>),
                names@ == none.take(i as int),
            decreases n - i,
        {
            names.push(None);
            i = i + 1;
            proof {
                assert(none.take(i as int) =~= none.take(i - 1).push(none[i - 1]));
            }
        }
        proof {
            assert(none.take(i as int) =~= none);
        }
        i = 0;
        while i < rows.len()
            invariant
                i <= rows@.len(),
                (self@, names@) == name_tuple(st0, *of, none, rows_view(rows@), occ, i as nat),
            decreases rows@.len() - i,
        {
            if let Some(Pat::Tuple(subs)) = rows[i].tested(occ) {
                self.name_subs(of, &mut names, subs);
            }
            i = i + 1;
        }
        names
    }

    /// The tree for `rows`, unless it would take more than `budget` nodes.
    pub fn build_tree<'t>(&mut self, rows: &Vec<Row<'t>>, arms: &'t Vec<Arm>, budget: u64) -> (r: (
        u64,
        Option<Dt>,
    ))
        ensures
            planned(r, build(old(self)@, rows_view(rows@), arms@, budget as nat), final(self)@),
        decreases budget, 0nat,
    {
        if budget == 0 {
            return (0, None);
        }
        let left: u64 = budget - 1;
        let mut settled_rows: Vec<Row<'t>> = no_rows();
        let ghost goal = Seq::new(rows@.len(), |i: int| settled(rows_view(rows@)[i]));
        let mut i: usize = 0;
        while i < rows.len()
            invariant
                i <= rows@.len(),
                goal == Seq::new(rows@.len(), |i: int| settled(rows_view(rows@)[i])),
                rows_view(settled_rows@) == goal.take(i as int),
            decreases rows@.len() - i,
        {
            add_row(&mut settled_rows, rows[i].settle());
            i = i + 1;
            proof {
                assert(goal.take(i as int) =~= goal.take(i - 1).push(goal[i - 1]));
            }
        }
        proof {
            assert(goal.take(i as int) =~= goal);
            assert(goal =~= Seq::new(rows_view(rows@).len(), |i: int| settled(rows_view(rows@)[i])));
        }
        let rows: Vec<Row<'t>> = settled_rows;
        if rows.len() == 0 {
            return (left, Some(Dt::Fail));
        }
        if rows[0].tests.len() == 0 {
            let arm: usize = rows[0].arm;
            let binds: Vec<(Var, Name)> = copy_binds(&rows[0].binds);
            let guarded: bool = arm < arms.len() && arms[arm].guard.is_some();
            if guarded {
                let rest: Vec<Row<'t>> = later_rows(&rows);
                let (left, got) = self.build_tree(&rest, arms, left);
                return match got {
                    Some(d) => (left, Some(Dt::Leaf { arm, binds, otherwise: Some(Box::new(d)) })),
                    None => (left, None),
                };
            }
            return (left, Some(Dt::Leaf { arm, binds, otherwise: None }));
        }
        let (occ, pat) = rows[0].tests[0];
        let of: Option<Ty> = self.type_of_name(occ);
        match pat {
            Pat::Ctor(_, _) => self.build_switch(&rows, arms, occ, &of, left),
            Pat::Lit(_) => self.build_lits(&rows, arms, occ, left),
            Pat::Tuple(subs) => {
                let names: Vec<Option<Name>> = self.name_tuple(&of, subs.len(), &rows, occ);
                let mut rest: Vec<Row<'t>> = no_rows();
                let ghost all = Seq::new(
                    rows_view(rows@).len(),
                    |i: int| specialized_tuple(rows_view(rows@)[i], occ, names@),
                );
                let mut j: usize = 0;
                while j < rows.len()
                    invariant
                        j <= rows@.len(),
                        all == Seq::new(
                            rows_view(rows@).len(),
                            |i: int| specialized_tuple(rows_view(rows@)[i], occ, names@),
                        ),
                        rows_view(rest@) == all.take(j as int),
                    decreases rows@.len() - j,
                {
                    add_row(&mut rest, rows[j].specialize_tuple(occ, &names));
                    j = j + 1;
                    proof {
                        assert(all.take(j as int) =~= all.take(j - 1).push(all[j - 1]));
                    }
                }
                proof {
                    assert(all.take(j as int) =~= all);
                }
                let (left, got) = self.build_tree(&rest, arms, left);
                match got {
                    Some(d) => (
                        left,
                        Some(Dt::Tuple { occ, fields: places_of(&names), next: Box::new(d) }),
                    ),
                    None => (left, None),
                }
            },
            _ => (left, None),
        }
    }

    /// The tree for `rows`, unless it would be too big to be worth it for `n` arms.
    pub fn plan<'t>(&mut self, rows: &Vec<Row<'t>>, arms: &'t Vec<Arm>, n: usize) -> (r: Option<Dt>)
        ensures
            final(self)@ == plan(old(self)@, rows_view(rows@), arms@, n as nat).st,
            match r {
                Some(d) => plan(old(self)@, rows_view(rows@), arms@, n as nat).got == Some(dt_view(d)),
                None => plan(old(self)@, rows_view(rows@), arms@, n as nat).got is None,
            },
    {
        proof {
            reveal(plan);
        }
        let (_, got) = self.build_tree(rows, arms, plan_budget(n));
        got
    }

    fn build_switch<'t>(
        &mut self,
        rows: &Vec<Row<'t>>,
        arms: &'t Vec<Arm>,
        occ: Name,
        of: &Option<Ty>,
        left: u64,
    ) -> (r: (u64, Option<Dt>))
        ensures
            ({
                let rs = rows_view(rows@);
                let cs = ctors(rs, occ, rs.len());
                let a = build_cases(old(self)@, rs, arms@, occ, *of, cs, cs.len(), left as nat);
                let whole = if a.got is None {
                    Planned { st: a.st, left: a.left, got: None }
                } else if constructors(a.st, *of) == Some(cs.len()) {
                    Planned {
                        st: a.st,
                        left: a.left,
                        got: Some(DtV::Switch { occ, cases: a.got->0, default: None }),
                    }
                } else {
                    let d = build(a.st, untested(rs, occ, rs.len()), arms@, at_most(a.left, left as nat));
                    Planned {
                        st: d.st,
                        left: d.left,
                        got: match d.got {
                            Some(d) => Some(DtV::Switch { occ, cases: a.got->0, default: Some(Box::new(d)) }),
                            None => None,
                        },
                    }
                };
                planned(r, whole, final(self)@)
            }),
        decreases left, 2nat,
    {
        let cs: Vec<(Sym, &'t Vec<Pat>)> = ctors_of(rows, occ);
        let ghost rs = rows_view(rows@);
        let ghost gs = ctors(rs, occ, rs.len());
        let ghost start = self@;
        let mut cases: Vec<(Sym, Vec<Name>, Dt)> = Vec::new();
        let mut have: u64 = left;
        proof {
            assert(cases_view(cases@) =~= Seq::<(Sym, Seq<Name>, DtV)>::empty());
        }
        let mut i: usize = 0;
        while i < cs.len()
            invariant
                i <= cs@.len(),
                rs == rows_view(rows@),
                gs == ctors(rs, occ, rs.len()),
                start == old(self)@,
                these_ctors(cs@, gs),
                build_cases(start, rs, arms@, occ, *of, gs, i as nat, left as nat) == (Planned {
                    st: self@,
                    left: have as nat,
                    got: Some(cases_view(cases@)),
                }),
            decreases cs@.len() - i,
        {
            let (c, subs) = cs[i];
            assert(c == gs[i as int].0 && *subs == gs[i as int].1);
            let fields: Vec<Name> = self.field_names(c, subs, of);
            let spec_rows: Vec<Row<'t>> = rows_of_ctor(rows, occ, c, &fields);
            let (more, got) = self.build_tree(&spec_rows, arms, smaller(have, left));
            match got {
                None => {
                    proof {
                        lemma_cases_stop(start, rs, arms@, occ, *of, gs, (i + 1) as nat, gs.len(), left as nat);
                    }
                    return (more, None);
                },
                Some(d) => {
                    have = more;
                    let ghost was = cases@;
                    cases.push((c, fields, d));
                    proof {
                        assert(cases_view(cases@) =~= cases_view(was).push((c, fields@, dt_view(d))));
                    }
                },
            }
            i = i + 1;
        }
        let covered: bool = match self.constructors(of) {
            Some(n) => n == cs.len(),
            None => false,
        };
        if covered {
            let ghost view = cases_view(cases@);
            let d: Dt = Dt::Switch { occ, cases, default: None };
            proof {
                assert(dt_view(d)->cases =~= view);
            }
            return (have, Some(d));
        }
        let others: Vec<Row<'t>> = untested_rows(rows, occ);
        let (more, got) = self.build_tree(&others, arms, smaller(have, left));
        match got {
            Some(o) => {
                let ghost view = cases_view(cases@);
                let d: Dt = Dt::Switch { occ, cases, default: Some(Box::new(o)) };
                proof {
                    assert(dt_view(d)->cases =~= view);
                }
                (more, Some(d))
            },
            None => (more, None),
        }
    }

    fn build_lits<'t>(&mut self, rows: &Vec<Row<'t>>, arms: &'t Vec<Arm>, occ: Name, left: u64) -> (r: (
        u64,
        Option<Dt>,
    ))
        ensures
            ({
                let rs = rows_view(rows@);
                let ls = lits(rs, occ, rs.len());
                let a = build_lits(old(self)@, rs, arms@, occ, ls, ls.len(), left as nat);
                let whole = if a.got is None {
                    Planned { st: a.st, left: a.left, got: None }
                } else {
                    let d = build(a.st, untested(rs, occ, rs.len()), arms@, at_most(a.left, left as nat));
                    Planned {
                        st: d.st,
                        left: d.left,
                        got: match d.got {
                            Some(d) => Some(DtV::Lits { occ, lits: a.got->0, rest: Box::new(d) }),
                            None => None,
                        },
                    }
                };
                planned(r, whole, final(self)@)
            }),
        decreases left, 2nat,
    {
        let ls: Vec<Lit> = lits_of(rows, occ);
        let ghost rs = rows_view(rows@);
        let ghost start = self@;
        let mut cases: Vec<(Lit, Dt)> = Vec::new();
        let mut have: u64 = left;
        proof {
            assert(lits_view(cases@) =~= Seq::<(Lit, DtV)>::empty());
        }
        let mut i: usize = 0;
        while i < ls.len()
            invariant
                i <= ls@.len(),
                rs == rows_view(rows@),
                build_lits(start, rs, arms@, occ, ls@, i as nat, left as nat) == (Planned {
                    st: self@,
                    left: have as nat,
                    got: Some(lits_view(cases@)),
                }),
                ls@ == lits(rs, occ, rs.len()),
                start == old(self)@,
            decreases ls@.len() - i,
        {
            let spec_rows: Vec<Row<'t>> = rows_of_lit(rows, occ, ls[i]);
            let (more, got) = self.build_tree(&spec_rows, arms, smaller(have, left));
            match got {
                None => {
                    proof {
                        lemma_lits_stop(start, rs, arms@, occ, ls@, (i + 1) as nat, ls@.len(), left as nat);
                    }
                    return (more, None);
                },
                Some(d) => {
                    have = more;
                    let ghost was = cases@;
                    cases.push((ls[i], d));
                    proof {
                        assert(lits_view(cases@) =~= lits_view(was).push((ls@[i as int], dt_view(d))));
                    }
                },
            }
            i = i + 1;
        }
        let others: Vec<Row<'t>> = untested_rows(rows, occ);
        let (more, got) = self.build_tree(&others, arms, smaller(have, left));
        match got {
            Some(o) => {
                let ghost view = lits_view(cases@);
                let d: Dt = Dt::Lits { occ, lits: cases, rest: Box::new(o) };
                proof {
                    assert(dt_view(d)->lits =~= view);
                }
                (more, Some(d))
            },
            None => (more, None),
        }
    }
}

fn later_rows<'t>(rows: &Vec<Row<'t>>) -> (r: Vec<Row<'t>>)
    requires
        rows@.len() > 0,
    ensures
        rows_view(r@) == rows_view(rows@).skip(1),
{
    let mut r: Vec<Row<'t>> = no_rows();
    let ghost all = rows_view(rows@).skip(1);
    let mut i: usize = 1;
    while i < rows.len()
        invariant
            1 <= i <= rows@.len(),
            all == rows_view(rows@).skip(1),
            rows_view(r@) == all.take(i - 1),
        decreases rows@.len() - i,
    {
        add_row(&mut r, rows[i].copy());
        i = i + 1;
        proof {
            assert(all.take(i - 1) =~= all.take(i - 2).push(all[i - 2]));
        }
    }
    proof {
        assert(all.take(i - 1) =~= all);
    }
    r
}

/// Once planning a case fails, the cases after it change nothing.
proof fn lemma_cases_stop(
    st: St,
    rows: Seq<RowV>,
    arms: Seq<Arm>,
    occ: Name,
    of: Option<Ty>,
    cs: Seq<(Sym, Vec<Pat>)>,
    m: nat,
    n: nat,
    budget: nat,
)
    requires
        m <= n <= cs.len(),
        build_cases(st, rows, arms, occ, of, cs, m, budget).got is None,
    ensures
        build_cases(st, rows, arms, occ, of, cs, n, budget) == build_cases(st, rows, arms, occ, of, cs, m, budget),
    decreases n - m,
{
    if m < n {
        lemma_cases_stop(st, rows, arms, occ, of, cs, m, (n - 1) as nat, budget);
    }
}

proof fn lemma_lits_stop(
    st: St,
    rows: Seq<RowV>,
    arms: Seq<Arm>,
    occ: Name,
    ls: Seq<Lit>,
    m: nat,
    n: nat,
    budget: nat,
)
    requires
        m <= n <= ls.len(),
        build_lits(st, rows, arms, occ, ls, m, budget).got is None,
    ensures
        build_lits(st, rows, arms, occ, ls, n, budget) == build_lits(st, rows, arms, occ, ls, m, budget),
    decreases n - m,
{
    if m < n {
        lemma_lits_stop(st, rows, arms, occ, ls, m, (n - 1) as nat, budget);
    }
}

/// The leaves of the tree that are arm `arm`, on top of `so_far`, counted no further
/// than two.
pub fn count_leaves(d: &Dt, arm: usize, so_far: u8) -> (r: u8)
    requires
        so_far <= 2,
    ensures
        r == at_most((so_far + leaves(dt_view(*d), arm)) as nat, 2),
    decreases d,
{
    match d {
        Dt::Fail => so_far,
        Dt::Leaf { arm: a, otherwise, .. } => {
            let here: u8 = if *a == arm && so_far < 2 {
                so_far + 1
            } else {
                so_far
            };
            match otherwise {
                Some(o) => count_leaves(o, arm, here),
                None => here,
            }
        },
        Dt::Switch { cases, default, .. } => {
            let ghost vs = dt_view(*d)->cases;
            let mut n: u8 = so_far;
            let mut i: usize = 0;
            while i < cases.len()
                invariant
                    i <= cases@.len(),
                    decreases_to!(d => cases),
                    n <= 2,
                    vs.len() == cases@.len(),
                    forall|j: int| 0 <= j < vs.len() ==> (#[trigger] vs[j]).2 == dt_view(cases@[j].2),
                    n == at_most((so_far + case_leaves(vs, i as nat, arm)) as nat, 2),
                decreases cases@.len() - i,
            {
                assert(decreases_to!(cases => cases@[i as int]));
                assert(vs[i as int].2 == dt_view(cases@[i as int].2));
                n = count_leaves(&cases[i].2, arm, n);
                i = i + 1;
            }
            match default {
                Some(o) => count_leaves(o, arm, n),
                None => n,
            }
        },
        Dt::Lits { lits: cases, rest, .. } => {
            let ghost vs = dt_view(*d)->lits;
            let mut n: u8 = so_far;
            let mut i: usize = 0;
            while i < cases.len()
                invariant
                    i <= cases@.len(),
                    decreases_to!(d => cases),
                    n <= 2,
                    vs.len() == cases@.len(),
                    forall|j: int| 0 <= j < vs.len() ==> (#[trigger] vs[j]).1 == dt_view(cases@[j].1),
                    n == at_most((so_far + lit_leaves(vs, i as nat, arm)) as nat, 2),
                decreases cases@.len() - i,
            {
                assert(decreases_to!(cases => cases@[i as int]));
                assert(vs[i as int].1 == dt_view(cases@[i as int].1));
                n = count_leaves(&cases[i].1, arm, n);
                i = i + 1;
            }
            count_leaves(rest, arm, n)
        },
        Dt::Tuple { next, .. } => count_leaves(next, arm, so_far),
    }
}

} // verus!
