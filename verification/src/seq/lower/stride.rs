//! How far lowering takes its state: names and labels only go up, what is known of a label
//! changes only where a term makes it, and a name keeps how it is represented.

use super::frame::{built, made, produced, FrameV};
use super::pattern::{arm_tests, match_all, match_labels, match_pat, paired, positional, read_fields, tried};
use super::scheme::{begin, started, take_refs, waiting, with_descs};
use super::state::{bump, rep_of, St};
use super::tree::{
    at_most, budget_for, build, build_cases, build_lits, ctors, lits, name_subs, name_tuple, plan, rows_for,
    rows_for_lit, settled, specialized_tuple, tested, untested, RowV,
};
use super::types::{field_names, field_type, field_types, label_type, name_fields, name_type, type_of};
use crate::seq::ir::{Name, Rep, Tag, NO_DESC};
use crate::seq::view::{BlockV, ExternV};
use crate::terms::desc;
use crate::terms::prim::{Lit, Prim};
use crate::terms::symbol::{self, Sym};
use crate::terms::term::{Arm, Pat, Term, Var};
use crate::terms::ty::{desc_of, named, Ty};
use vstd::prelude::*;

verus! {

pub const LAST: u32 = 0xffff_ffff;

/// Nothing is known otherwise of label `v`.
pub open spec fn same_at(a: St, b: St, v: Var) -> bool {
    &&& a.globals.contains_key(v) == b.globals.contains_key(v)
    &&& a.globals.contains_key(v) ==> a.globals[v] == b.globals[v]
    &&& a.joins.contains_key(v) == b.joins.contains_key(v)
    &&& a.joins.contains_key(v) ==> a.joins[v] == b.joins[v]
    &&& a.letrecs.contains(v) == b.letrecs.contains(v)
}

/// The definitions from `n` on have labels from `lo` up to `hi`, or among `also`, no two
/// the same.
pub open spec fn newly(defs: Seq<crate::seq::view::DefV>, n: nat, lo: u32, hi: u32, also: Set<u32>) -> bool {
    &&& forall|i: int|
        n <= i < defs.len() ==> lo <= (#[trigger] defs[i]).label.0 < hi || also.contains(defs[i].label.0)
    &&& forall|i: int, j: int|
        n <= i < j < defs.len() ==> (#[trigger] defs[i]).label.0 != (#[trigger] defs[j]).label.0
}

pub open spec fn longer(a: St, b: St) -> bool {
    a.defs.len() <= b.defs.len() && forall|i: int| 0 <= i < a.defs.len() ==> #[trigger] b.defs[i] == a.defs[i]
}

/// A representation a name may have, where these descriptors are in scope.
pub open spec fn fine_rep(ts: Seq<(u32, Name)>, rep: Rep) -> bool {
    match rep {
        Rep::Var(d) => d == NO_DESC || exists|i: int| 0 <= i < ts.len() && (#[trigger] ts[i]).1 == d,
        _ => true,
    }
}

/// Names keep how they are represented.
pub open spec fn reps_from(a: St, b: St) -> bool {
    &&& forall|n: Name| #[trigger] a.reps.contains_key(n) ==> b.reps.contains_key(n)
    &&& forall|n: Name| #[trigger]
        b.reps.contains_key(n) ==> (a.reps.contains_key(n) && b.reps[n] == a.reps[n]) || (n >= a.next_name && fine_rep(
            a.tscope,
            b.reps[n],
        ))
}

/// Every constructor that has a tag keeps it.
pub open spec fn tags_kept(a: St, b: St) -> bool {
    forall|c: u32| #[trigger] a.tags.contains_key(c) ==> b.tags.contains_key(c) && b.tags[c] == a.tags[c]
}

/// Only names were taken.
pub open spec fn quiet(a: St, b: St) -> bool {
    &&& tags_kept(a, b)
    &&& a.globals == b.globals
    &&& a.joins == b.joins
    &&& a.letrecs == b.letrecs
    &&& a.workers == b.workers
    &&& a.worker_ev == b.worker_ev
    &&& a.tylams == b.tylams
    &&& a.tyabs == b.tyabs
    &&& a.descs == b.descs
    &&& a.defs == b.defs
    &&& a.opt == b.opt
    &&& a.ev == b.ev
    &&& a.tscope == b.tscope
    &&& a.next_label == b.next_label
    &&& a.next_name <= b.next_name
    &&& a.binder_reps == b.binder_reps
    &&& a.bound == b.bound
    &&& a.polys == b.polys
    &&& reps_from(a, b)
}

pub proof fn lemma_quiet_on(a: St, b: St, c: St)
    requires
        quiet(a, b),
        quiet(b, c),
    ensures
        quiet(a, c),
{
}

pub proof fn lemma_fresh_as(st: St, rep: Rep)
    requires
        !(rep is Var),
    ensures
        quiet(st, st.fresh_as(rep)),
{
}

pub proof fn lemma_still(st: St)
    ensures
        quiet(st, st),
{
}

pub proof fn lemma_among(ts: Seq<(u32, Name)>, v: u32, n: nat)
    requires
        n <= ts.len(),
    ensures
        super::state::desc_among(ts, v, n) is Some ==> exists|i: int|
            0 <= i < ts.len() && (#[trigger] ts[i]).1 == super::state::desc_among(ts, v, n)->0,
    decreases n,
{
    if n > 0 {
        lemma_among(ts, v, (n - 1) as nat);
        assert(ts[n - 1].1 == ts[n - 1].1);
    }
}

proof fn lemma_resolved(st: St, rep: Rep)
    ensures
        fine_rep(st.tscope, st.resolve(rep)),
{
    if let Rep::Var(v) = rep {
        lemma_among(st.tscope, v, st.tscope.len());
    }
}

pub proof fn lemma_typed(st: St, ty: Option<Ty>)
    ensures
        quiet(st, st.fresh_typed(ty)),
        st.fresh_typed(ty).next_name == bump(st.next_name),
{
    reveal(St::fresh_typed);
    reveal(St::set_type);
    reveal(St::note_thread);
    if let Some(t) = ty {
        lemma_resolved(st.fresh(), rep_of(t));
    }
}

pub proof fn lemma_produced(
    st: St,
    frames: Seq<FrameV>,
    op: ExternV,
    args: Seq<Name>,
    env: Seq<Name>,
    ty: Option<Ty>,
    name: Option<Name>,
)
    ensures
        quiet(st, produced(st, frames, op, args, env, ty, name).st),
{
    reveal(produced);
    lemma_typed(st, ty);
}

pub proof fn lemma_built(
    st: St,
    frames: Seq<FrameV>,
    ctor: Sym,
    tag: Tag,
    fields: Seq<Name>,
    env: Seq<Name>,
    ty: Option<Ty>,
    name: Option<Name>,
)
    ensures
        quiet(st, built(st, frames, ctor, tag, fields, env, ty, name).st),
{
    reveal(built);
    lemma_typed(st, ty);
}

pub proof fn lemma_made(st: St, captures: Seq<Name>, method: BlockV, env: Seq<Name>, name: Option<Name>)
    ensures
        quiet(st, made(st, captures, method, env, name).st),
{
    reveal(made);
}

pub proof fn lemma_with_descs(st: St, tys: Seq<Ty>, n: nat, env: Seq<Name>)
    ensures
        quiet(st, with_descs(st, tys, n, env).st),
    decreases n,
{
    reveal_with_fuel(with_descs, 2);
    if n > 0 && n <= tys.len() {
        lemma_with_descs(st, tys, (n - 1) as nat, env);
        let a = with_descs(st, tys, (n - 1) as nat, env);
        let d: u8 = match desc_of(tys[n - 1]) {
            Some(d) => d,
            None => desc::ANY,
        };
        let op = ExternV::Lit(Lit::Int(d as i64));
        lemma_produced(a.st, a.frames, op, Seq::empty(), a.env, Some(named(symbol::INT)), None);
        let p = produced(a.st, a.frames, op, Seq::empty(), a.env, Some(named(symbol::INT)), None);
        lemma_quiet_on(st, a.st, p.st);
    }
}

pub proof fn lemma_take_refs(st: St, n: nat)
    ensures
        quiet(st, take_refs(st, n).0),
        take_refs(st, n).1.len() == n,
    decreases n,
{
    reveal_with_fuel(take_refs, 2);
    if n > 0 {
        lemma_take_refs(st, (n - 1) as nat);
        let m = take_refs(st, (n - 1) as nat).0;
        lemma_fresh_as(m, Rep::Ref);
        lemma_quiet_on(st, m, m.fresh_ref());
    }
}

pub proof fn lemma_name_first(st: St, items: Seq<Term>, n: nat)
    ensures
        quiet(st, super::scheme::name_first(st, items, n).0),
    decreases n,
{
    if n > 0 && n <= items.len() {
        lemma_name_first(st, items, (n - 1) as nat);
        let m = super::scheme::name_first(st, items, (n - 1) as nat).0;
        lemma_typed(m, type_of(m, items[n - 1]));
        lemma_quiet_on(st, m, m.fresh_typed(type_of(m, items[n - 1])));
    }
}

pub proof fn lemma_name_items(st: St, t: Term)
    ensures
        quiet(st, super::scheme::name_items(st, t).0),
    decreases t,
{
    match t {
        Term::Loc(_, inner) => {
            lemma_name_items(st, *inner);
        },
        Term::Tuple(items) => {
            lemma_name_first(st, items@, items@.len());
        },
        _ => {},
    }
}

// --- patterns and plans ---

proof fn lemma_name_fields(st: St, types: Option<Seq<Ty>>, subs: Seq<Pat>, n: nat)
    ensures
        quiet(st, name_fields(st, types, subs, n).0),
    decreases n,
{
    if n > 0 && n <= subs.len() {
        lemma_name_fields(st, types, subs, (n - 1) as nat);
        let m = name_fields(st, types, subs, (n - 1) as nat).0;
        let ty = name_type(m, types, subs[n - 1], n - 1);
        lemma_typed(m, ty);
        lemma_quiet_on(st, m, m.fresh_typed(ty));
    }
}

pub proof fn lemma_field_names(st: St, c: Sym, subs: Seq<Pat>, of: Option<Ty>)
    ensures
        quiet(st, field_names(st, c, subs, of).0),
{
    lemma_name_fields(st, field_types(st, c, of), subs, subs.len());
}

proof fn lemma_read_fields(st: St, subs: Seq<Pat>, subject: Name, n: nat, env: Seq<Name>)
    ensures
        quiet(st, read_fields(st, subs, subject, n, env).0.st),
    decreases n,
{
    if n > 0 && n <= subs.len() {
        lemma_read_fields(st, subs, subject, (n - 1) as nat, env);
        let (m, got) = read_fields(st, subs, subject, (n - 1) as nat, env);
        let ty = field_type(positional(m.st.type_of_name(subject), (n - 1) as nat), subs[n - 1]);
        let op = ExternV::Field((n - 1) as usize);
        lemma_produced(m.st, m.frames, op, seq![subject], m.env, ty, None);
        let p = produced(m.st, m.frames, op, seq![subject], m.env, ty, None);
        lemma_quiet_on(st, m.st, p.st);
    }
}

proof fn lemma_match_pat(st: St, p: Pat, subject: Name, env: Seq<Name>, fail: Name)
    ensures
        quiet(st, match_pat(st, p, subject, env, fail).st),
    decreases p, 0nat,
{
    match p {
        Pat::As(v, _, sub) => {
            lemma_match_pat(st, *sub, subject, env.push(v), fail);
        },
        Pat::Ctor(c, subs) => {
            let st1 = st.tagged(c);
            let of = st1.type_of_name(subject);
            lemma_field_names(st1, c, subs@, of);
            let (st2, names) = field_names(st1, c, subs@, of);
            assert(decreases_to!(p => subs@));
            lemma_match_all(st2, subs@, paired(names, subs@.len()), names.len(), names + env, fail);
            let m = match_all(st2, subs@, paired(names, subs@.len()), names.len(), names + env, fail);
            assert(quiet(st, st1));
            lemma_quiet_on(st, st1, st2);
            lemma_quiet_on(st, st2, m.st);
        },
        Pat::Tuple(subs) => {
            lemma_read_fields(st, subs@, subject, subs@.len(), env);
            let (r, got) = read_fields(st, subs@, subject, subs@.len(), env);
            assert(decreases_to!(p => subs@));
            lemma_match_all(r.st, subs@, got, got.len(), r.env, fail);
            lemma_quiet_on(st, r.st, match_all(r.st, subs@, got, got.len(), r.env, fail).st);
        },
        Pat::Array(subs) => {
            let op = ExternV::Prim(Prim::ArrayLen);
            lemma_produced(st, Seq::empty(), op, seq![subject], env, Some(named(symbol::INT)), None);
            let n = produced(st, Seq::empty(), op, seq![subject], env, Some(named(symbol::INT)), None);
            lemma_read_fields(n.st, subs@, subject, subs@.len(), n.env);
            let (r, got) = read_fields(n.st, subs@, subject, subs@.len(), n.env);
            assert(decreases_to!(p => subs@));
            lemma_match_all(r.st, subs@, got, got.len(), r.env, fail);
            lemma_quiet_on(st, n.st, r.st);
            lemma_quiet_on(st, r.st, match_all(r.st, subs@, got, got.len(), r.env, fail).st);
        },
        Pat::Record(fs) => {
            assert(decreases_to!(p => fs@));
            lemma_match_labels(st, fs@, fs@.len(), subject, env, fail);
        },
        _ => {},
    }
}

pub proof fn lemma_match_all(st: St, subs: Seq<Pat>, got: Seq<(usize, Name)>, n: nat, env: Seq<Name>, fail: Name)
    ensures
        quiet(st, match_all(st, subs, got, n, env, fail).st),
    decreases subs, n,
{
    if n > 0 && n <= got.len() {
        lemma_match_all(st, subs, got, (n - 1) as nat, env, fail);
        let a = match_all(st, subs, got, (n - 1) as nat, env, fail);
        let (j, x) = got[n - 1];
        if j < subs.len() {
            assert(decreases_to!(subs => subs[j as int]));
            lemma_match_pat(a.st, subs[j as int], x, a.env, fail);
            lemma_quiet_on(st, a.st, match_pat(a.st, subs[j as int], x, a.env, fail).st);
        }
    }
}

proof fn lemma_match_labels(st: St, fs: Seq<(Sym, Pat)>, n: nat, subject: Name, env: Seq<Name>, fail: Name)
    ensures
        quiet(st, match_labels(st, fs, n, subject, env, fail).st),
    decreases fs, n,
{
    if n > 0 && n <= fs.len() {
        lemma_match_labels(st, fs, (n - 1) as nat, subject, env, fail);
        let a = match_labels(st, fs, (n - 1) as nat, subject, env, fail);
        let ty = field_type(label_type(a.st.type_of_name(subject), fs[n - 1].0), fs[n - 1].1);
        let op = ExternV::Select(fs[n - 1].0);
        lemma_produced(a.st, a.frames, op, seq![subject], a.env, ty, None);
        let p = produced(a.st, a.frames, op, seq![subject], a.env, ty, None);
        assert(decreases_to!(fs => fs[n - 1]));
        lemma_match_pat(p.st, fs[n - 1].1, p.x, p.env, fail);
        lemma_quiet_on(st, a.st, p.st);
        lemma_quiet_on(st, p.st, match_pat(p.st, fs[n - 1].1, p.x, p.env, fail).st);
    }
}

pub proof fn lemma_tried(st: St, p: Pat, subject: Name, env: Seq<Name>, fail: Name)
    ensures
        quiet(st, tried(st, p, subject, env, fail).st),
{
    reveal(tried);
    lemma_match_pat(st, p, subject, env, fail);
}

pub proof fn lemma_arm_tests(st: St, c: Sym, subs: Seq<Pat>, of: Option<Ty>, env: Seq<Name>, fail: Name)
    ensures
        quiet(st, arm_tests(st, c, subs, of, env, fail).m.st),
{
    reveal(arm_tests);
    let st1 = st.tagged(c);
    assert(quiet(st, st1));
    lemma_field_names(st1, c, subs, of);
    let (st2, fields) = field_names(st1, c, subs, of);
    lemma_match_all(st2, subs, paired(fields, subs.len()), fields.len(), fields + env, fail);
    lemma_quiet_on(st, st1, st2);
    lemma_quiet_on(
        st,
        st2,
        match_all(st2, subs, paired(fields, subs.len()), fields.len(), fields + env, fail).st,
    );
}

proof fn lemma_name_subs(st: St, of: Option<Ty>, names: Seq<Option<Name>>, subs: Seq<Pat>, n: nat)
    ensures
        quiet(st, name_subs(st, of, names, subs, n).0),
    decreases n,
{
    if n > 0 && n <= subs.len() {
        lemma_name_subs(st, of, names, subs, (n - 1) as nat);
        let m = name_subs(st, of, names, subs, (n - 1) as nat).0;
        assert forall|ty: Option<Ty>| quiet(st, #[trigger] m.fresh_typed(ty)) by {
            lemma_typed(m, ty);
            lemma_quiet_on(st, m, m.fresh_typed(ty));
        }
    }
}

pub proof fn lemma_name_tuple(st: St, of: Option<Ty>, names: Seq<Option<Name>>, rows: Seq<RowV>, occ: Name, n: nat)
    ensures
        quiet(st, name_tuple(st, of, names, rows, occ, n).0),
    decreases n,
{
    if n > 0 && n <= rows.len() {
        lemma_name_tuple(st, of, names, rows, occ, (n - 1) as nat);
        let (m, ns) = name_tuple(st, of, names, rows, occ, (n - 1) as nat);
        if let Some(Pat::Tuple(subs)) = tested(rows[n - 1], occ) {
            lemma_name_subs(m, of, ns, subs@, subs@.len());
            lemma_quiet_on(st, m, name_subs(m, of, ns, subs@, subs@.len()).0);
        }
    }
}

pub proof fn lemma_build(st: St, rows: Seq<RowV>, arms: Seq<Arm>, budget: nat)
    ensures
        quiet(st, build(st, rows, arms, budget).st),
    decreases budget, 0nat, 0nat,
{
    if budget > 0 {
        let left = (budget - 1) as nat;
        let rows = Seq::new(rows.len(), |i: int| settled(rows[i]));
        if rows.len() > 0 {
            if rows[0].tests.len() == 0 {
                lemma_build(st, rows.skip(1), arms, left);
            } else {
                let (occ, pat) = rows[0].tests[0];
                let of = st.type_of_name(occ);
                let rest = untested(rows, occ, rows.len());
                match pat {
                    Pat::Ctor(_, _) => {
                        let cs = ctors(rows, occ, rows.len());
                        lemma_build_cases(st, rows, arms, occ, of, cs, cs.len(), left);
                        let a = build_cases(st, rows, arms, occ, of, cs, cs.len(), left);
                        lemma_build(a.st, rest, arms, at_most(a.left, left));
                        lemma_quiet_on(st, a.st, build(a.st, rest, arms, at_most(a.left, left)).st);
                    },
                    Pat::Lit(_) => {
                        let ls = lits(rows, occ, rows.len());
                        lemma_build_lits(st, rows, arms, occ, ls, ls.len(), left);
                        let a = build_lits(st, rows, arms, occ, ls, ls.len(), left);
                        lemma_build(a.st, rest, arms, at_most(a.left, left));
                        lemma_quiet_on(st, a.st, build(a.st, rest, arms, at_most(a.left, left)).st);
                    },
                    Pat::Tuple(subs) => {
                        let none = Seq::new(subs@.len(), |i: int| None::<Name>);
                        lemma_name_tuple(st, of, none, rows, occ, rows.len());
                        let (st1, names) = name_tuple(st, of, none, rows, occ, rows.len());
                        let next = Seq::new(rows.len(), |i: int| specialized_tuple(rows[i], occ, names));
                        lemma_build(st1, next, arms, left);
                        lemma_quiet_on(st, st1, build(st1, next, arms, left).st);
                    },
                    _ => {},
                }
            }
        }
    }
}

pub proof fn lemma_build_cases(
    st: St,
    rows: Seq<RowV>,
    arms: Seq<Arm>,
    occ: Name,
    of: Option<Ty>,
    cs: Seq<(Sym, Vec<Pat>)>,
    n: nat,
    budget: nat,
)
    ensures
        quiet(st, build_cases(st, rows, arms, occ, of, cs, n, budget).st),
    decreases budget, 1nat, n,
{
    if n > 0 && n <= cs.len() {
        lemma_build_cases(st, rows, arms, occ, of, cs, (n - 1) as nat, budget);
        let a = build_cases(st, rows, arms, occ, of, cs, (n - 1) as nat, budget);
        let (c, subs) = cs[n - 1];
        lemma_field_names(a.st, c, subs@, of);
        let (st1, fields) = field_names(a.st, c, subs@, of);
        let next = rows_for(rows, occ, c, fields, rows.len());
        lemma_build(st1, next, arms, at_most(a.left, budget));
        lemma_quiet_on(st, a.st, st1);
        lemma_quiet_on(st, st1, build(st1, next, arms, at_most(a.left, budget)).st);
    }
}

pub proof fn lemma_build_lits(st: St, rows: Seq<RowV>, arms: Seq<Arm>, occ: Name, ls: Seq<Lit>, n: nat, budget: nat)
    ensures
        quiet(st, build_lits(st, rows, arms, occ, ls, n, budget).st),
    decreases budget, 1nat, n,
{
    if n > 0 && n <= ls.len() {
        lemma_build_lits(st, rows, arms, occ, ls, (n - 1) as nat, budget);
        let a = build_lits(st, rows, arms, occ, ls, (n - 1) as nat, budget);
        let next = rows_for_lit(rows, occ, ls[n - 1], rows.len());
        lemma_build(a.st, next, arms, at_most(a.left, budget));
        lemma_quiet_on(st, a.st, build(a.st, next, arms, at_most(a.left, budget)).st);
    }
}

pub proof fn lemma_plan(st: St, rows: Seq<RowV>, arms: Seq<Arm>, n: nat)
    ensures
        quiet(st, plan(st, rows, arms, n).st),
{
    reveal(plan);
    lemma_build(st, rows, arms, budget_for(n));
}

pub proof fn lemma_begin(st: St, e: Term, env: Seq<Name>, keep: Seq<Name>, name: Option<Name>, p: super::frame::PreV)
    ensures
        begin(st, e, env, keep, name, p).1.simple ==> begin(st, e, env, keep, name, p).0 == p.st,
        !begin(st, e, env, keep, name, p).1.simple ==> quiet(st, begin(st, e, env, keep, name, p).0),
{
    reveal(begin);
    reveal(started);
    reveal(waiting);
    let st1 = st.fresh_ref().framed(st.next_name);
    lemma_fresh_as(st, Rep::Ref);
    assert(quiet(st, st1));
    lemma_typed(st1, type_of(st1, e));
    lemma_quiet_on(st, st1, st1.fresh_typed(type_of(st1, e)));
}

} // verus!
