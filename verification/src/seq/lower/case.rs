//! Lowering `match`, as the scheme says.

use super::expr::{All, Bound};
use super::frame::{frames_view, no_frames, plug, rename, then_frame, Frame};
use super::live::{also, restrict};
use super::pattern::only;
use super::scheme::{
    arm_wants, arms_want, bind_vars, case, case_of, case_rows, covers, ctor_arms, ctor_of, emit_planned,
    finish_items, literal_arms, lower_case, name_first, name_items, start_items, take_fields, takes_apart,
    tuple_rows, tuple_size, zipped, SharedV,
};
use super::shape::{all_irrefutable, never_fails, size, tree_pat, tree_takes};
use super::state::Lower;
use super::tree::{add_row, field_tests_of, no_rows, no_tests, rows_view, somes, tests_view, Dt, Row};
use super::types::type_of;
use crate::seq::ir::{Block, Extern, Name, Statement, Tag};
use crate::seq::view::{after, arms_view, before, copy_names, BlockV};
use crate::terms::prim::Lit;
use crate::terms::symbol::Sym;
use crate::terms::term::{pat_vars, Arm, Pat, Term, Var};
use crate::terms::ty::Ty;
use std::collections::HashSet;
use vstd::prelude::*;

verus! {

broadcast use vstd::std_specs::hash::group_hash_axioms;

/// An arm reached from more than one leaf and too big to copy to each.
pub struct Shared {
    pub label: u32,
    pub fvs: Vec<Name>,
    pub vars: Vec<Var>,
    pub ev: bool,
}

impl View for Shared {
    type V = SharedV;

    open spec fn view(&self) -> SharedV {
        SharedV { label: self.label, fvs: self.fvs@, vars: self.vars@, ev: self.ev }
    }
}

pub open spec fn shared_view(s: Option<Shared>) -> Option<SharedV> {
    match s {
        Some(s) => Some(s@),
        None => None,
    }
}

pub open spec fn all_shared(ss: Seq<Option<Shared>>) -> Seq<Option<SharedV>> {
    Seq::new(ss.len(), |i: int| shared_view(ss[i]))
}

/// How many items the tuple `t` is.
pub fn size_of_tuple(t: &Term) -> (r: Option<usize>)
    ensures
        match r {
            Some(n) => tuple_size(*t) == Some(n as nat),
            None => tuple_size(*t) is None,
        },
    decreases t,
{
    match t {
        Term::Loc(_, inner) => size_of_tuple(inner),
        Term::Tuple(items) => Some(items.len()),
        _ => None,
    }
}

pub fn all_take_apart(arms: &Vec<Arm>, n: usize) -> (r: bool)
    ensures
        r == (forall|i: int| 0 <= i < arms@.len() ==> takes_apart((#[trigger] arms@[i]).pat, n as nat)),
{
    let mut i: usize = 0;
    while i < arms.len()
        invariant
            i <= arms@.len(),
            forall|j: int| 0 <= j < i ==> takes_apart((#[trigger] arms@[j]).pat, n as nat),
        decreases arms@.len() - i,
    {
        let ok: bool = match &arms[i].pat {
            Pat::Wild => true,
            Pat::Tuple(ps) => ps.len() == n && tree_pat(&arms[i].pat),
            _ => false,
        };
        if !ok {
            assert(!takes_apart(arms@[i as int].pat, n as nat));
            return false;
        }
        i = i + 1;
    }
    true
}

pub fn all_tree_pats(arms: &Vec<Arm>, from: usize) -> (r: bool)
    ensures
        r == (forall|i: int| from <= i < arms@.len() ==> tree_takes((#[trigger] arms@[i]).pat)),
{
    let mut i: usize = from;
    while i < arms.len()
        invariant
            from <= i,
            forall|j: int| from <= j < i && j < arms@.len() ==> tree_takes((#[trigger] arms@[j]).pat),
        decreases arms@.len() - i,
    {
        if !tree_pat(&arms[i].pat) {
            assert(!tree_takes(arms@[i as int].pat));
            return false;
        }
        i = i + 1;
    }
    true
}

/// A row per arm, over names for a tuple's items.
pub fn rows_of_tuple<'t>(names: &Vec<Name>, arms: &'t Vec<Arm>) -> (r: Vec<Row<'t>>)
    ensures
        rows_view(r@) == tuple_rows(names@, arms@),
{
    let some: Vec<Option<Name>> = somes(names);
    let ghost all = tuple_rows(names@, arms@);
    let mut r: Vec<Row<'t>> = no_rows();
    let mut i: usize = 0;
    while i < arms.len()
        invariant
            i <= arms@.len(),
            some@ == super::tree::all_some(names@),
            all == tuple_rows(names@, arms@),
            rows_view(r@) == all.take(i as int),
        decreases arms@.len() - i,
    {
        let tests: Vec<(Name, &'t Pat)> = match &arms[i].pat {
            Pat::Tuple(ps) => field_tests_of(&some, ps),
            _ => no_tests(),
        };
        add_row(&mut r, Row { tests, binds: Vec::new(), arm: i });
        i = i + 1;
        proof {
            assert(all.take(i as int) =~= all.take(i - 1).push(all[i - 1]));
        }
    }
    proof {
        assert(all.take(i as int) =~= all);
    }
    r
}

/// The rows of the arms from `from` on, each testing `s`.
pub fn rows_of_case<'t>(s: Name, arms: &'t Vec<Arm>, from: usize) -> (r: Vec<Row<'t>>)
    requires
        from <= arms@.len(),
    ensures
        rows_view(r@) == case_rows(s, arms@, from as nat),
{
    let ghost all = case_rows(s, arms@, from as nat);
    let mut r: Vec<Row<'t>> = no_rows();
    let mut i: usize = from;
    while i < arms.len()
        invariant
            from <= i <= arms@.len(),
            all == case_rows(s, arms@, from as nat),
            rows_view(r@) == all.take(i - from),
        decreases arms@.len() - i,
    {
        let mut tests: Vec<(Name, &'t Pat)> = Vec::new();
        tests.push((s, &arms[i].pat));
        proof {
            assert(tests_view(tests@) =~= seq![(s, arms@[i as int].pat)]);
        }
        add_row(&mut r, Row { tests, binds: Vec::new(), arm: i });
        i = i + 1;
        proof {
            assert(all.take(i - from) =~= all.take(i - from - 1).push(all[i - from - 1]));
        }
    }
    proof {
        assert(all.take(i - from) =~= all);
    }
    r
}

/// Frames that give each variable the value it is bound to.
pub fn binding(binds: &Vec<(Var, Name)>, env: &Vec<Name>) -> (r: (Vec<Frame>, Vec<Name>))
    ensures
        frames_view(r.0@) == bind_vars(binds@, binds@.len(), env@).0,
        r.1@ == bind_vars(binds@, binds@.len(), env@).1,
{
    let mut frames: Vec<Frame> = no_frames();
    let mut cur: Vec<Name> = copy_names(env);
    let mut i: usize = 0;
    while i < binds.len()
        invariant
            i <= binds@.len(),
            frames_view(frames@) == bind_vars(binds@, i as nat, env@).0,
            cur@ == bind_vars(binds@, i as nat, env@).1,
        decreases binds@.len() - i,
    {
        frames = then_frame(frames, rename(binds[i].1, binds[i].0, &cur));
        cur = after(&cur, binds[i].0);
        i = i + 1;
    }
    (frames, cur)
}

/// Each name with the value in the same position.
pub fn zip(names: &Vec<Name>, got: &Vec<Name>) -> (r: Vec<(Var, Name)>)
    ensures
        r@ == zipped(names@, got@),
{
    let ghost all = zipped(names@, got@);
    let mut r: Vec<(Var, Name)> = Vec::new();
    let mut i: usize = 0;
    while i < names.len() && i < got.len()
        invariant
            i <= all.len(),
            all == zipped(names@, got@),
            r@ == all.take(i as int),
        decreases names@.len() - i,
    {
        r.push((names[i], got[i]));
        i = i + 1;
        proof {
            assert(all.take(i as int) =~= all.take(i - 1).push(all[i - 1]));
        }
    }
    proof {
        assert(all.take(i as int) =~= all);
    }
    r
}

/// How many arms from `from` on test a literal and have no guard.
pub fn count_literal_arms(arms: &Vec<Arm>, from: usize) -> (r: usize)
    requires
        from <= arms@.len(),
    ensures
        r == literal_arms(arms@, from as nat),
        from + r <= arms@.len(),
{
    proof {
        reveal(literal_arms);
    }
    let mut i: usize = from;
    while i < arms.len()
        invariant
            from <= i <= arms@.len(),
            literal_arms(arms@, from as nat) == (i - from) + literal_arms(arms@, i as nat),
        decreases arms@.len() - i,
    {
        proof {
            reveal(literal_arms);
        }
        let lit: bool = match &arms[i].pat {
            Pat::Lit(_) => true,
            _ => false,
        };
        if !lit || arms[i].guard.is_some() {
            return i - from;
        }
        i = i + 1;
    }
    i - from
}

pub fn ctor_name(arm: &Arm) -> (r: Option<Sym>)
    ensures
        r == ctor_of(*arm),
{
    match &arm.pat {
        Pat::Ctor(c, _) => Some(*c),
        _ => None,
    }
}

/// Do none of the arms from `first` to `i` name the same constructor as arm `i`?
pub fn first_named(arms: &Vec<Arm>, first: usize, i: usize) -> (r: bool)
    requires
        first <= i < arms@.len(),
    ensures
        r == (forall|j: int| first <= j < i ==> ctor_of(#[trigger] arms@[j]) != ctor_of(arms@[i as int])),
{
    let c: Option<Sym> = ctor_name(&arms[i]);
    let mut j: usize = first;
    while j < i
        invariant
            first <= j <= i < arms@.len(),
            c == ctor_of(arms@[i as int]),
            forall|m: int| first <= m < j ==> ctor_of(#[trigger] arms@[m]) != c,
        decreases i - j,
    {
        let d: Option<Sym> = ctor_name(&arms[j]);
        let same: bool = match (c, d) {
            (Some(a), Some(b)) => a == b,
            (None, None) => true,
            _ => false,
        };
        if same {
            return false;
        }
        j = j + 1;
    }
    true
}

/// How many arms from `from` on are for constructors, each different from the
/// others.
pub fn count_ctor_arms(arms: &Vec<Arm>, from: usize) -> (r: usize)
    requires
        from <= arms@.len(),
    ensures
        r == ctor_arms(arms@, from as nat, from as nat),
        from + r <= arms@.len() <= usize::MAX,
{
    proof {
        reveal(ctor_arms);
    }
    let len: usize = arms.len();
    let mut i: usize = from;
    while i < arms.len()
        invariant
            from <= i <= arms@.len(),
            ctor_arms(arms@, from as nat, from as nat) == (i - from) + ctor_arms(arms@, from as nat, i as nat),
        decreases arms@.len() - i,
    {
        proof {
            reveal(ctor_arms);
        }
        let named: bool = ctor_name(&arms[i]).is_some();
        let new: bool = first_named(arms, from, i);
        if !named || !new {
            return i - from;
        }
        i = i + 1;
    }
    i - from
}

/// Does each arm from `from` on name a constructor of its own, unguarded, and match
/// all of its fields?
pub fn covers_all(arms: &Vec<Arm>, from: usize) -> (r: bool)
    requires
        from <= arms@.len(),
    ensures
        r == covers(arms@, from as nat),
{
    proof {
        reveal(covers);
    }
    let mut i: usize = from;
    while i < arms.len()
        invariant
            from <= i <= arms@.len(),
            forall|j: int|
                from <= j < i ==> (#[trigger] arms@[j]).guard is None && match arms@[j].pat {
                    Pat::Ctor(_, subs) => forall|m: int| 0 <= m < subs@.len() ==> never_fails(#[trigger] subs@[m]),
                    _ => false,
                },
            forall|a: int, b: int|
                from <= a < b < i ==> ctor_of(#[trigger] arms@[a]) != ctor_of(#[trigger] arms@[b]),
        decreases arms@.len() - i,
    {
        proof {
            reveal(covers);
        }
        let whole: bool = match &arms[i].pat {
            Pat::Ctor(_, subs) => all_irrefutable(subs),
            _ => false,
        };
        if !whole || arms[i].guard.is_some() {
            assert(!(arms@[i as int].guard is None && match arms@[i as int].pat {
                Pat::Ctor(_, subs) => forall|m: int| 0 <= m < subs@.len() ==> never_fails(#[trigger] subs@[m]),
                _ => false,
            }));
            return false;
        }
        if !first_named(arms, from, i) {
            return false;
        }
        i = i + 1;
    }
    true
}

pub fn add_arm(cs: &mut Vec<(Tag, Block)>, tag: Tag, params: Vec<Name>, body: Statement)
    ensures
        arms_view(final(cs)@) == arms_view(old(cs)@).push((tag, BlockV { params: params@, body: body@ })),
{
    let ghost was = cs@;
    cs.push((tag, Block { params, body }));
    proof {
        assert(arms_view(cs@) =~= arms_view(was).push((tag, BlockV { params: params@, body: body@ })));
    }
}

pub fn no_arms() -> (r: Vec<(Tag, Block)>)
    ensures
        arms_view(r@) == Seq::<(Tag, BlockV)>::empty(),
{
    let r: Vec<(Tag, Block)> = Vec::new();
    proof {
        assert(arms_view(r@) =~= Seq::<(Tag, BlockV)>::empty());
    }
    r
}

/// Frames that take fields of a tuple.
pub fn taking(occ: Name, fields: &Vec<(usize, Name)>, env: &Vec<Name>) -> (r: (Vec<Frame>, Vec<Name>))
    ensures
        frames_view(r.0@) == take_fields(occ, fields@, fields@.len(), env@).0,
        r.1@ == take_fields(occ, fields@, fields@.len(), env@).1,
{
    let mut frames: Vec<Frame> = no_frames();
    let mut cur: Vec<Name> = copy_names(env);
    let mut i: usize = 0;
    while i < fields.len()
        invariant
            i <= fields@.len(),
            frames_view(frames@) == take_fields(occ, fields@, i as nat, env@).0,
            cur@ == take_fields(occ, fields@, i as nat, env@).1,
        decreases fields@.len() - i,
    {
        let (place, x) = fields[i];
        let params: Vec<Name> = before(x, &cur);
        frames = then_frame(frames, Frame::Bind { op: Extern::Field(place), args: only(occ), params });
        cur = before(x, &cur);
        i = i + 1;
    }
    (frames, cur)
}

impl Lower {
    pub fn arms_want(&self, arms: &Vec<Arm>) -> (r: HashSet<Name>)
        ensures
            r@ == arms_want(self@, arms@),
    {
        let mut out: HashSet<Name> = HashSet::new();
        let mut i: usize = 0;
        while i < arms.len()
            invariant
                i <= arms@.len(),
                forall|n: Name| #[trigger]
                    out@.contains(n) <==> exists|j: int|
                        0 <= j < i && arm_wants(self@, #[trigger] arms@[j]).contains(n),
            decreases arms@.len() - i,
        {
            let ghost was = out@;
            let mut bound: Vec<Var> = Vec::new();
            pat_vars(&arms[i].pat, &mut bound);
            self.want(&mut out, &arms[i].body, &bound);
            if let Some(g) = &arms[i].guard {
                self.want(&mut out, g, &bound);
            }
            i = i + 1;
            proof {
                assert forall|n: Name| #[trigger]
                    out@.contains(n) <==> exists|j: int|
                        0 <= j < i && arm_wants(self@, #[trigger] arms@[j]).contains(n) by {
                    assert(out@.contains(n) <==> was.contains(n) || arm_wants(self@, arms@[i - 1]).contains(n));
                }
            }
        }
        proof {
            assert(out@ =~= arms_want(self@, arms@));
        }
        out
    }

    pub fn name_items(&mut self, t: &Term) -> (r: Vec<Name>)
        ensures
            final(self)@ == name_items(old(self)@, *t).0,
            r@ == name_items(old(self)@, *t).1,
        decreases t,
    {
        match t {
            Term::Loc(_, inner) => self.name_items(inner),
            Term::Tuple(items) => {
                let ghost start_st = self@;
                let mut r: Vec<Name> = Vec::new();
                let mut i: usize = 0;
                while i < items.len()
                    invariant
                        i <= items@.len(),
                        self@ == name_first(start_st, items@, i as nat).0,
                        r@ == name_first(start_st, items@, i as nat).1,
                    decreases items@.len() - i,
                {
                    let ty: Option<Ty> = self.type_of(&items[i]);
                    let x: Name = self.fresh_typed(ty);
                    r.push(x);
                    i = i + 1;
                }
                r
            },
            _ => Vec::new(),
        }
    }

    pub fn start_items(&mut self, t: &Term, env: &Vec<Name>, base: &HashSet<Name>) -> (r: All)
        ensures
            r.with(final(self)@) == start_items(old(self)@, *t, env@, base@),
            tuple_size(*t) is Some ==> r.bs@.len() == tuple_size(*t)->0,
        decreases t, 0nat, 4nat, Dt::Fail, 0nat,
    {
        match t {
            Term::Loc(_, inner) => self.start_items(inner, env, base),
            Term::Tuple(items) => self.start_all(items, env, base),
            _ => All { bs: super::expr::no_bounds(), done: Vec::new(), env: copy_names(env) },
        }
    }

    pub fn finish_items(&mut self, t: &Term, bs: Vec<Bound>, body: Statement) -> (r: Statement)
        requires
            tuple_size(*t) is Some ==> bs@.len() == tuple_size(*t)->0,
        ensures
            final(self)@ == finish_items(old(self)@, *t, super::expr::bounds_view(bs@), body@).0,
            r@ == finish_items(old(self)@, *t, super::expr::bounds_view(bs@), body@).1,
        decreases t, 0nat, 4nat, Dt::Fail, 0nat,
    {
        match t {
            Term::Loc(_, inner) => self.finish_items(inner, bs, body),
            Term::Tuple(items) => self.finish_all(items, bs, body),
            _ => body,
        }
    }

    /// A `match`. One on a tuple that every arm takes apart never builds it.
    pub fn lower_case(&mut self, e: &Term, env: &Vec<Name>, k: Name) -> (r: Statement)
        requires
            e is Case,
        ensures
            final(self)@ == lower_case(old(self)@, *e, env@, k).0,
            r@ == lower_case(old(self)@, *e, env@, k).1,
        decreases e, 0nat, 1nat, Dt::Fail, 0nat,
    {
        match e {
            Term::Case(scrutinee, arms, _) => {
                assert(decreases_to!(e => scrutinee));
                assert(decreases_to!(e => arms));
                let mut want: HashSet<Name> = self.arms_want(arms);
                also(&mut want, k);
                let size: Option<usize> = if self.opt.case_trees() {
                    size_of_tuple(scrutinee)
                } else {
                    None
                };
                let apart: bool = match size {
                    Some(n) => all_take_apart(arms, n),
                    None => false,
                };
                if !apart {
                    return self.case_of(e, env, &want, k);
                }
                let names: Vec<Name> = self.name_items(scrutinee);
                let rows: Vec<Row> = rows_of_tuple(&names, arms);
                let got: Option<Dt> = self.plan(&rows, arms, arms.len());
                match got {
                    Some(dt) => {
                        let a: All = self.start_items(scrutinee, env, &want);
                        let binds: Vec<(Var, Name)> = zip(&names, &a.done);
                        let (frames, env2) = binding(&binds, &a.env);
                        let s: Statement = self.emit_planned(&dt, arms, &env2, k);
                        let body: Statement = plug(frames, s);
                        self.finish_items(scrutinee, a.bs, body)
                    },
                    None => self.case_of(e, env, &want, k),
                }
            },
            _ => Statement::Error(""),
        }
    }

    pub fn case_of(&mut self, e: &Term, env: &Vec<Name>, want: &HashSet<Name>, k: Name) -> (r: Statement)
        requires
            e is Case,
        ensures
            final(self)@ == case_of(old(self)@, *e, env@, want@, k).0,
            r@ == case_of(old(self)@, *e, env@, want@, k).1,
        decreases e, 0nat, 0nat, Dt::Fail, 0nat,
    {
        match e {
            Term::Case(scrutinee, arms, _) => {
                assert(decreases_to!(e => scrutinee));
                assert(decreases_to!(e => arms));
                let keep: Vec<Name> = restrict(env, want);
                let b: Bound = self.start(scrutinee, env, keep, None);
                let s: Statement = self.case(b.x, arms, 0, &b.env, k);
                self.finish(scrutinee, b, s)
            },
            _ => Statement::Error(""),
        }
    }

}

} // verus!
