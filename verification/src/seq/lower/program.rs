//! Lowering a whole program.
//!
//! Each definition is a block of one parameter, the continuation to answer with,
//! behind the descriptors it takes. One that is a lambda gets a second entry point,
//! taking its arguments directly.

use super::expr::second_of;
use super::frame::{plug, plugged, Several};
use super::live::needs_ev;
use super::scan::scan;
use super::scheme::{expr, seconds, with_descs};
use super::shape::{
    abs_binders, abs_id, abstracts, highest, lam_params, lam_spine, max_var, ty_abs, under_abs, under_lams,
};
use super::state::{bump, rep_of, Lower, OptLevel, St};
use super::types::{described_args, type_of};
use crate::seq::describe::{close, closed, settled, Known, MOST};
use crate::seq::ir::{Block, Def, Label, Name, Program, Rep, Statement, Tag, NO_DESC};
use crate::seq::table::Table;
use crate::seq::view::{after, before, both, defs_view, jump_s, jump_v, let_s, let_v, BlockV, DefV};
use crate::terms::symbol;
use crate::terms::term::{CoreDef, CoreProgram, Term, Var};
use std::collections::{HashMap, HashSet};
use vstd::prelude::*;

verus! {

broadcast use vstd::std_specs::hash::group_hash_axioms;

/// A construct lowering does not translate.
#[derive(Debug, Clone, Copy, PartialEq, Eq, Structural, Hash, PartialOrd, Ord)]
pub enum Unsupported {
    /// A variable that is neither in scope nor a definition.
    UnboundVar,
}

pub struct Lowered {
    pub program: Program,
    /// Empty means the program is fully covered.
    pub unsupported: Vec<Unsupported>,
}

/// The highest variable the first `n` definitions mention.
pub open spec fn highest_of(defs: Seq<CoreDef>, n: nat) -> Var
    decreases n,
{
    if n == 0 || n > defs.len() {
        0
    } else {
        highest(super::shape::higher(highest_of(defs, (n - 1) as nat), defs[n - 1].var), defs[n - 1].term)
    }
}

/// The first `n` definitions, by their labels.
pub open spec fn labelled(defs: Seq<CoreDef>, n: nat) -> Map<u32, (u32, Seq<Name>)>
    decreases n,
{
    if n == 0 || n > defs.len() {
        Map::empty()
    } else {
        labelled(defs, (n - 1) as nat).insert(defs[n - 1].var, ((n - 1) as u32, Seq::empty()))
    }
}

/// The first `n` of some pairs, as a map.
pub open spec fn mapped(ps: Seq<(Var, Var)>, n: nat) -> Map<Var, Var>
    decreases n,
{
    if n == 0 || n > ps.len() {
        Map::empty()
    } else {
        mapped(ps, (n - 1) as nat).insert(ps[n - 1].0, ps[n - 1].1)
    }
}

/// Where lowering starts.
pub open spec fn begun(p: CoreProgram, opt: OptLevel) -> St {
    St {
        symbols: p.symbols@,
        next_name: bump(highest_of(p.defs@, p.defs@.len())),
        next_label: p.defs@.len() as u32,
        globals: labelled(p.defs@, p.defs@.len()),
        workers: Map::empty(),
        joins: Map::empty(),
        defs: Seq::empty(),
        tags: Map::empty(),
        next_tag: 0,
        opt,
        unbound: false,
        returns: Set::empty(),
        continuations: Seq::empty(),
        frames: Set::empty(),
        ev: 0,
        letrecs: Set::empty(),
        worker_ev: Set::empty(),
        polys: Map::empty(),
        bound: Seq::empty(),
        types: Map::empty(),
        reps: Map::empty(),
        variants: p.variants@,
        tscope: Seq::empty(),
        tylams: Map::empty(),
        tyabs: Map::empty(),
        descs: Set::empty(),
        binder_reps: Map::empty(),
        origins: mapped(p.origins@, p.origins@.len()),
        results: Map::empty(),
        threads: Map::empty(),
    }
}

/// What is known once the first `n` definitions have been walked.
pub open spec fn scan_defs(st: St, defs: Seq<CoreDef>, n: nat) -> St
    decreases n,
{
    if n == 0 || n > defs.len() {
        st
    } else {
        let d = defs[n - 1];
        let st0 = scan_defs(st, defs, (n - 1) as nat);
        let st1 = St { polys: st0.polys.insert(d.var, d.poly@), bound: st0.bound.push(d.var), ..st0 };
        let st2 = if abstracts(d.term) {
            st1.abstraction(d.var, abs_binders(d.term))
        } else {
            st1
        };
        scan(st2, d.term)
    }
}

/// With a second entry point registered for each of the first `n` definitions that
/// is a lambda.
pub open spec fn name_workers(st: St, defs: Seq<CoreDef>, n: nat) -> St
    decreases n,
{
    if n == 0 || n > defs.len() {
        st
    } else {
        let st0 = name_workers(st, defs, (n - 1) as nat);
        let params = lam_params(defs[n - 1].term);
        if params.len() == 0 {
            st0
        } else {
            let st1 = st0.fresh_label();
            St { workers: st1.workers.insert(defs[n - 1].var, (st0.next_label, params.len() as usize)), ..st1 }
        }
    }
}

/// Is definition `d`'s direct entry point one that needs the evidence, and not known
/// to be?
pub open spec fn wants_ev(st: St, d: CoreDef) -> bool {
    st.workers.contains_key(d.var) && !st.worker_ev.contains(d.var) && needs_ev(st, under_lams(d.term))
}

/// One pass over the first `n` definitions: the direct entry points that need the
/// evidence, given the ones found so far.
pub open spec fn ev_round(st: St, defs: Seq<CoreDef>, n: nat) -> St
    decreases n,
{
    if n == 0 || n > defs.len() {
        st
    } else {
        let st0 = ev_round(st, defs, (n - 1) as nat);
        if wants_ev(st0, defs[n - 1]) {
            St { worker_ev: st0.worker_ev.insert(defs[n - 1].var), ..st0 }
        } else {
            st0
        }
    }
}

/// Does a pass over the first `n` definitions find a new one?
pub open spec fn ev_stirs(st: St, defs: Seq<CoreDef>, n: nat) -> bool
    decreases n,
{
    if n == 0 || n > defs.len() {
        false
    } else {
        ev_stirs(st, defs, (n - 1) as nat) || wants_ev(ev_round(st, defs, (n - 1) as nat), defs[n - 1])
    }
}

/// Passes until one finds nothing new, and no more than `most`.
pub open spec fn ev_settled(st: St, defs: Seq<CoreDef>, most: nat) -> St
    decreases most,
{
    if most == 0 || !ev_stirs(st, defs, defs.len()) {
        st
    } else {
        ev_settled(ev_round(st, defs, defs.len()), defs, (most - 1) as nat)
    }
}

/// A representation as a runtime starting a block knows it: with no descriptors to
/// hand, a type variable's is not known.
pub open spec fn known(rep: Rep) -> Rep {
    match rep {
        Rep::Var(_) => Rep::Unknown,
        rep => rep,
    }
}

/// What a definition's block answers its continuation with.
pub open spec fn answer_rep(st: St, d: CoreDef) -> Rep {
    match known(rep_of(d.poly.ty)) {
        Rep::Unknown => match type_of(st, under_if_abs(d.term)) {
            Some(t) => known(rep_of(t)),
            None => Rep::Unknown,
        },
        rep => rep,
    }
}

/// A definition's body: what is under its type abstraction, where it has one.
pub open spec fn under_if_abs(t: Term) -> Term {
    if abstracts(t) {
        under_abs(t)
    } else {
        t
    }
}

/// The names of the descriptors a definition takes.
pub open spec fn def_descs(st: St, t: Term) -> Seq<(u32, Name)> {
    if abstracts(t) {
        st.desc_names(abs_id(t))
    } else {
        Seq::empty()
    }
}

/// A definition's block written. A definition takes no evidence: a body that needs
/// some starts from none.
pub open spec fn lower_block(st: St, d: CoreDef, label: u32) -> St {
    let descs = def_descs(st, d.term);
    let t = under_if_abs(d.term);
    let st0 = St { tscope: descs, ..st };
    let k = st0.next_name;
    let st1 = st0.function_return();
    let params = seconds(descs).push(k);
    let (st2, body) = if needs_ev(st1, t) {
        let ev = st1.next_name;
        let (st3, b) = expr(st1.fresh_ref().with_ev(ev), t, seq![ev] + params, k);
        (st3.tagged(symbol::EV_NONE), let_v(ev, st3.tag(symbol::EV_NONE), symbol::EV_NONE, Seq::empty(), b))
    } else {
        expr(st1, t, params, k)
    };
    let st4 = st2.wrote(label, d.name, BlockV { params, body });
    St { results: st4.results.insert(label, answer_rep(st4, d)), ..st4 }
}

/// A definition's direct entry point written, where it has one.
pub open spec fn lower_worker(st: St, d: CoreDef) -> St {
    if st.workers.contains_key(d.var) {
        let k = st.next_name;
        let st1 = st.function_return();
        let ev = st1.next_name;
        let st2 = st1.fresh_ref().with_ev(ev);
        let plain = (seconds(def_descs(st, d.term)) + lam_params(d.term)).push(k);
        let params = if st2.worker_ev.contains(d.var) {
            plain.push(ev)
        } else {
            plain
        };
        let (st3, body) = expr(st2, under_lams(d.term), params, k);
        st3.wrote(st.workers[d.var].0, d.name, BlockV { params, body })
    } else {
        st
    }
}

/// The first `n` definitions lowered.
pub open spec fn lower_defs(st: St, defs: Seq<CoreDef>, n: nat) -> St
    decreases n,
{
    if n == 0 || n > defs.len() {
        st
    } else {
        let st0 = lower_defs(st, defs, (n - 1) as nat);
        let st1 = lower_worker(lower_block(st0, defs[n - 1], (n - 1) as u32), defs[n - 1]);
        St { tscope: Seq::empty(), ..st1 }
    }
}

/// Which of the definitions from `i` on is `v`, and how many there are if none is.
pub open spec fn def_at(defs: Seq<CoreDef>, v: Var, i: nat) -> nat
    decreases defs.len() - i,
{
    if i >= defs.len() || defs[i as int].var == v {
        i
    } else {
        def_at(defs, v, i + 1)
    }
}

/// The label the last of the first `n` definitions that is `v` has.
pub open spec fn entry_of(defs: Seq<CoreDef>, v: Var, n: nat) -> Option<Label>
    decreases n,
{
    if n == 0 || n > defs.len() {
        None
    } else if defs[n - 1].var == v {
        Some(Label((n - 1) as u32))
    } else {
        entry_of(defs, v, (n - 1) as nat)
    }
}

/// A generic entry point is started with only a continuation, so it gets a block
/// that instantiates it at no type in particular.
pub open spec fn generic_entry(st: St, defs: Seq<CoreDef>, entry: Var) -> Option<St> {
    let i = def_at(defs, entry, 0);
    if i >= defs.len() {
        None
    } else {
        match described_args(st, defs[i as int].var, None) {
            None => None,
            Some(tys) => {
                let label = st.next_label;
                let st1 = st.fresh_label();
                let k = st1.next_name;
                let st2 = st1.function_return();
                let d = with_descs(st2, tys, tys.len(), seq![k]);
                let body = plugged(d.frames, jump_v(d.done.push(k), Label(i as u32)));
                let st3 = d.st.wrote(label, defs[i as int].name, BlockV { params: seq![k], body });
                let rep = if st3.results.contains_key(i as u32) {
                    st3.results[i as u32]
                } else {
                    Rep::Unknown
                };
                Some(St { results: st3.results.insert(label, rep), ..st3 })
            },
        }
    }
}

/// With a tag for each of the first `n` constructors a runtime builds values of by
/// name.
pub open spec fn runtime_tags(st: St, n: nat) -> St
    decreases n,
{
    if n == 0 {
        st
    } else {
        runtime_tags(st, (n - 1) as nat).tagged((n - 1) as u32)
    }
}

/// How many constructors a runtime builds values of by name: the first symbols of
/// every table.
pub const RUNTIME_CTORS: u32 = 12;

/// What lowering has written, and where the program starts.
pub open spec fn ended(p: CoreProgram, opt: OptLevel) -> (St, Option<Label>) {
    let defs = p.defs@;
    let st0 = scan_defs(begun(p, opt), defs, defs.len());
    let st1 = st0.fresh_ref().with_ev(st0.next_name).tagged(symbol::EV_NONE);
    let st2 = ev_settled(name_workers(st1, defs, defs.len()), defs, MOST as nat);
    let st3 = lower_defs(st2, defs, defs.len());
    let (st4, entry) = match p.entry {
        None => (st3, None),
        Some(v) => match generic_entry(st3, defs, v) {
            Some(st) => (st, Some(Label(st3.next_label))),
            None => (st3, entry_of(defs, v, defs.len())),
        },
    };
    (runtime_tags(st4, RUNTIME_CTORS as nat), entry)
}

/// A definition in its place, by label, behind those of the same label.
pub open spec fn placed(s: Seq<DefV>, d: DefV) -> Seq<DefV>
    decreases s.len(),
{
    if s.len() == 0 || s.last().label.0 <= d.label.0 {
        s.push(d)
    } else {
        placed(s.drop_last(), d).push(s.last())
    }
}

/// The first `n` definitions, in the order of their labels.
pub open spec fn in_order(s: Seq<DefV>, n: nat) -> Seq<DefV>
    decreases n,
{
    if n == 0 || n > s.len() {
        Seq::empty()
    } else {
        placed(in_order(s, (n - 1) as nat), s[n - 1])
    }
}

/// How a variable the program binds is represented: as where it is bound says, and
/// a definition as its type does.
pub open spec fn binder_rep(st: St, v: Var) -> Rep {
    if st.binder_reps.contains_key(v) {
        st.binder_reps[v]
    } else {
        match rep_of(st.polys[v].ty) {
            Rep::Var(_) => Rep::Var(NO_DESC),
            rep => rep,
        }
    }
}

/// How every name is represented: the ones lowering invented, and the first `n` the
/// program binds.
pub open spec fn all_reps(st: St, n: nat) -> Map<Name, Rep>
    decreases n,
{
    if n == 0 || n > st.bound.len() {
        st.reps
    } else {
        let m = all_reps(st, (n - 1) as nat);
        if m.contains_key(st.bound[n - 1]) || !st.polys.contains_key(st.bound[n - 1]) {
            m
        } else {
            m.insert(st.bound[n - 1], binder_rep(st, st.bound[n - 1]))
        }
    }
}

/// What the descriptor pass settles on.
pub open spec fn described(st: St) -> Known {
    settled(
        Known { reps: all_reps(st, st.bound.len()), descs: st.descs, extra: Map::empty() },
        in_order(st.defs, st.defs.len()),
        MOST as nat,
    )
}

/// The first `n` of a list, but for those of a set.
pub open spec fn others(s: Seq<Name>, not: Set<Name>, n: nat) -> Set<Name>
    decreases n,
{
    if n == 0 || n > s.len() {
        Set::empty()
    } else if not.contains(s[n - 1]) {
        others(s, not, (n - 1) as nat)
    } else {
        others(s, not, (n - 1) as nat).insert(s[n - 1])
    }
}

fn place(v: Vec<Def>, d: Def) -> (r: Vec<Def>)
    ensures
        defs_view(r@) == placed(defs_view(v@), d@),
    decreases v@.len(),
{
    let ghost was = v@;
    let mut v: Vec<Def> = v;
    let n: usize = v.len();
    if n == 0 || v[n - 1].label.0 <= d.label.0 {
        v.push(d);
        proof {
            assert(defs_view(v@) =~= defs_view(was).push(d@));
        }
        v
    } else {
        let last: Def = v.pop().unwrap();
        proof {
            assert(defs_view(v@) =~= defs_view(was).drop_last());
            assert(last@ == defs_view(was).last());
        }
        let mut r: Vec<Def> = place(v, d);
        let ghost mid = r@;
        r.push(last);
        proof {
            assert(defs_view(r@) =~= defs_view(mid).push(last@));
        }
        r
    }
}

/// The definitions, in the order of their labels.
fn sort(defs: Vec<Def>) -> (r: Vec<Def>)
    ensures
        defs_view(r@) == in_order(defs_view(defs@), defs@.len()),
{
    let ghost all = defs_view(defs@);
    let n: usize = defs.len();
    let mut back: Vec<Def> = Vec::new();
    let mut rest: Vec<Def> = defs;
    // Turned round, so that they come off the end in order.
    while rest.len() > 0
        invariant
            all.len() == n,
            rest@.len() + back@.len() == n,
            defs_view(rest@) == all.take(rest@.len() as int),
            forall|j: int| 0 <= j < back@.len() ==> (#[trigger] back@[j])@ == all[n - 1 - j],
        decreases rest@.len(),
    {
        let ghost was = rest@;
        let d: Def = rest.pop().unwrap();
        proof {
            assert(d@ == defs_view(was)[was.len() - 1]);
            assert(defs_view(rest@) =~= all.take(rest@.len() as int));
        }
        back.push(d);
    }
    let mut r: Vec<Def> = Vec::new();
    let mut i: usize = 0;
    proof {
        assert(defs_view(r@) =~= Seq::<DefV>::empty());
    }
    while i < n
        invariant
            i <= n,
            all.len() == n,
            back@.len() == n - i,
            forall|j: int| 0 <= j < back@.len() ==> (#[trigger] back@[j])@ == all[n - 1 - j],
            defs_view(r@) == in_order(all, i as nat),
        decreases n - i,
    {
        let d: Def = back.pop().unwrap();
        r = place(r, d);
        i = i + 1;
    }
    r
}

fn plain(rep: Rep) -> (r: Rep)
    ensures
        r == known(rep),
{
    match rep {
        Rep::Var(_) => Rep::Unknown,
        rep => rep,
    }
}

fn highest_var_of(defs: &Vec<CoreDef>) -> (r: Var)
    ensures
        r == highest_of(defs@, defs@.len()),
{
    let mut hi: Var = 0;
    let mut i: usize = 0;
    while i < defs.len()
        invariant
            i <= defs@.len(),
            hi == highest_of(defs@, i as nat),
        decreases defs@.len() - i,
    {
        let at: Var = if hi < defs[i].var {
            defs[i].var
        } else {
            hi
        };
        hi = max_var(at, &defs[i].term);
        i = i + 1;
    }
    hi
}

fn globals_of(defs: &Vec<CoreDef>) -> (r: Table<(u32, Vec<Name>)>)
    ensures
        r@ == labelled(defs@, defs@.len()),
{
    let mut r: Table<(u32, Vec<Name>)> = Table::new();
    let mut i: usize = 0;
    while i < defs.len()
        invariant
            i <= defs@.len(),
            r@ == labelled(defs@, i as nat),
        decreases defs@.len() - i,
    {
        let none: Vec<Name> = Vec::new();
        r.insert(defs[i].var, (i as u32, none));
        i = i + 1;
    }
    r
}

fn map_of(ps: &Vec<(Var, Var)>) -> (r: HashMap<Var, Var>)
    ensures
        r@ == mapped(ps@, ps@.len()),
{
    let mut r: HashMap<Var, Var> = HashMap::new();
    let mut i: usize = 0;
    while i < ps.len()
        invariant
            i <= ps@.len(),
            r@ == mapped(ps@, i as nat),
        decreases ps@.len() - i,
    {
        r.insert(ps[i].0, ps[i].1);
        i = i + 1;
    }
    r
}

fn position(defs: &Vec<CoreDef>, v: Var) -> (r: usize)
    ensures
        r == def_at(defs@, v, 0),
        r <= defs@.len(),
{
    let mut i: usize = 0;
    while i < defs.len()
        invariant
            i <= defs@.len(),
            def_at(defs@, v, 0) == def_at(defs@, v, i as nat),
        decreases defs@.len() - i,
    {
        if defs[i].var == v {
            return i;
        }
        i = i + 1;
    }
    i
}

fn entry_label(defs: &Vec<CoreDef>, v: Var) -> (r: Option<Label>)
    ensures
        r == entry_of(defs@, v, defs@.len()),
{
    let mut i: usize = defs.len();
    while i > 0
        invariant
            i <= defs@.len(),
            entry_of(defs@, v, defs@.len()) == entry_of(defs@, v, i as nat),
        decreases i,
    {
        if defs[i - 1].var == v {
            return Some(Label((i - 1) as u32));
        }
        i = i - 1;
    }
    None
}

impl Lower {
    fn scan_defs(&mut self, defs: &Vec<CoreDef>)
        ensures
            final(self)@ == scan_defs(old(self)@, defs@, defs@.len()),
    {
        let ghost start = self@;
        let mut i: usize = 0;
        while i < defs.len()
            invariant
                i <= defs@.len(),
                self@ == scan_defs(start, defs@, i as nat),
            decreases defs@.len() - i,
        {
            let d: &CoreDef = &defs[i];
            self.polys.insert(d.var, d.poly.copy());
            if let Some((_, vs, _)) = ty_abs(&d.term) {
                self.abstraction(d.var, vs);
            }
            self.scan(&d.term);
            i = i + 1;
        }
    }

    fn name_workers(&mut self, defs: &Vec<CoreDef>)
        ensures
            final(self)@ == name_workers(old(self)@, defs@, defs@.len()),
    {
        let ghost start = self@;
        let mut i: usize = 0;
        while i < defs.len()
            invariant
                i <= defs@.len(),
                self@ == name_workers(start, defs@, i as nat),
            decreases defs@.len() - i,
        {
            let (params, _) = lam_spine(&defs[i].term);
            if params.len() > 0 {
                let label: u32 = self.fresh_label();
                self.workers.insert(defs[i].var, (label, params.len()));
            }
            i = i + 1;
        }
    }

    /// One pass over the definitions. Was one found whose direct entry point needs
    /// the evidence?
    fn ev_round(&mut self, defs: &Vec<CoreDef>) -> (r: bool)
        ensures
            final(self)@ == ev_round(old(self)@, defs@, defs@.len()),
            r == ev_stirs(old(self)@, defs@, defs@.len()),
    {
        let ghost start = self@;
        let mut changed: bool = false;
        let mut i: usize = 0;
        while i < defs.len()
            invariant
                i <= defs@.len(),
                self@ == ev_round(start, defs@, i as nat),
                changed == ev_stirs(start, defs@, i as nat),
            decreases defs@.len() - i,
        {
            let v: Var = defs[i].var;
            let (_, body) = lam_spine(&defs[i].term);
            if self.workers.contains(v) && !self.worker_ev.contains(&v) && self.needs_ev(body) {
                self.worker_ev.insert(v);
                changed = true;
            }
            i = i + 1;
        }
        changed
    }

    fn settle_ev(&mut self, defs: &Vec<CoreDef>)
        ensures
            final(self)@ == ev_settled(old(self)@, defs@, MOST as nat),
    {
        let ghost goal = ev_settled(self@, defs@, MOST as nat);
        let mut left: u64 = MOST;
        let mut more: bool = true;
        while left > 0 && more
            invariant
                more ==> goal == ev_settled(self@, defs@, left as nat),
                !more ==> goal == self@,
            decreases left,
        {
            let ghost was = self@;
            more = self.ev_round(defs);
            proof {
                if !more {
                    lemma_ev_still(was, defs@, defs@.len());
                }
            }
            left = left - 1;
        }
    }

    fn lower_block(&mut self, d: &CoreDef, label: u32)
        ensures
            final(self)@ == lower_block(old(self)@, *d, label),
    {
        let abs: Option<(u32, &Vec<crate::terms::ty::TyVar>, &Term)> = ty_abs(&d.term);
        let descs: Vec<(u32, Name)> = match abs {
            Some((id, _, _)) => self.desc_names(id),
            None => Vec::new(),
        };
        let t: &Term = match abs {
            Some((_, _, body)) => body,
            None => &d.term,
        };
        let mut params: Vec<Name> = second_of(&descs);
        self.tscope = descs;
        let k: Name = self.function_return();
        params.push(k);
        let body: Statement = if self.needs_ev(t) {
            let ev: Name = self.fresh_ref();
            self.ev = ev;
            let env: Vec<Name> = before(ev, &params);
            let b: Statement = self.expr(t, &env, k);
            let tag: Tag = self.tag_of(symbol::EV_NONE);
            let_s(ev, tag, symbol::EV_NONE, Vec::new(), b)
        } else {
            self.expr(t, &params, k)
        };
        self.write(label, d.name, Block { params, body });
        let rep: Rep = match plain(Rep::of(&d.poly.ty)) {
            Rep::Unknown => match self.type_of(t) {
                Some(t) => plain(Rep::of(&t)),
                None => Rep::Unknown,
            },
            rep => rep,
        };
        self.results.insert(label, rep);
    }

    fn lower_worker(&mut self, d: &CoreDef)
        ensures
            final(self)@ == lower_worker(old(self)@, *d),
    {
        let worker: Option<u32> = match self.workers.get(d.var) {
            Some(w) => Some(w.0),
            None => None,
        };
        if let Some(label) = worker {
            let descs: Vec<(u32, Name)> = match ty_abs(&d.term) {
                Some((id, _, _)) => self.desc_names(id),
                None => Vec::new(),
            };
            let (lams, body) = lam_spine(&d.term);
            let k: Name = self.function_return();
            let ev: Name = self.fresh_ref();
            self.ev = ev;
            let mut params: Vec<Name> = both(&second_of(&descs), &lams);
            params.push(k);
            if self.worker_ev.contains(&d.var) {
                params.push(ev);
            }
            let body: Statement = self.expr(body, &params, k);
            self.write(label, d.name, Block { params, body });
        }
    }

    fn lower_defs(&mut self, defs: &Vec<CoreDef>)
        ensures
            final(self)@ == lower_defs(old(self)@, defs@, defs@.len()),
    {
        let ghost start = self@;
        let mut i: usize = 0;
        while i < defs.len()
            invariant
                i <= defs@.len(),
                self@ == lower_defs(start, defs@, i as nat),
            decreases defs@.len() - i,
        {
            self.lower_block(&defs[i], i as u32);
            self.lower_worker(&defs[i]);
            self.tscope = Vec::new();
            proof {
                assert(self@.tscope =~= Seq::<(u32, Name)>::empty());
            }
            i = i + 1;
        }
    }

    fn generic_entry(&mut self, defs: &Vec<CoreDef>, entry: Var) -> (r: bool)
        ensures
            match generic_entry(old(self)@, defs@, entry) {
                Some(st) => r && final(self)@ == st,
                None => !r && final(self)@ == old(self)@,
            },
    {
        let i: usize = position(defs, entry);
        if i >= defs.len() {
            return false;
        }
        match self.described_args(defs[i].var, None) {
            None => false,
            Some(tys) => {
                let label: u32 = self.fresh_label();
                let k: Name = self.function_return();
                let env: Vec<Name> = super::pattern::only(k);
                let d: Several = self.with_descs(&tys, &env);
                let sel: Vec<Name> = after(&d.done, k);
                let body: Statement = plug(d.frames, jump_s(sel, Label(i as u32)));
                self.write(label, defs[i].name, Block { params: env, body });
                let at: u32 = i as u32;
                let rep: Rep = match self.results.get(&at) {
                    Some(r) => *r,
                    None => Rep::Unknown,
                };
                self.results.insert(label, rep);
                true
            },
        }
    }

    fn runtime_tags(&mut self)
        ensures
            final(self)@ == runtime_tags(old(self)@, RUNTIME_CTORS as nat),
    {
        let ghost start = self@;
        let mut i: u32 = 0;
        while i < RUNTIME_CTORS
            invariant
                i <= RUNTIME_CTORS,
                self@ == runtime_tags(start, i as nat),
            decreases RUNTIME_CTORS - i,
        {
            self.tag_of(i);
            i = i + 1;
        }
    }

    fn merge_reps(&mut self)
        ensures
            final(self)@ == (St { reps: all_reps(old(self)@, old(self)@.bound.len()), ..old(self)@ }),
    {
        let ghost st = self@;
        let mut i: usize = 0;
        while i < self.polys.keys.len()
            invariant
                i <= st.bound.len(),
                self@ == (St { reps: all_reps(st, i as nat), ..st }),
            decreases st.bound.len() - i,
        {
            let v: Var = self.polys.keys[i];
            if !self.reps.contains_key(&v) {
                let rep: Option<Rep> = match self.polys.get(v) {
                    Some(p) => Some(
                        match self.binder_reps.get(&v) {
                            Some(rep) => *rep,
                            None => match Rep::of(&p.ty) {
                                Rep::Var(_) => Rep::Var(NO_DESC),
                                rep => rep,
                            },
                        },
                    ),
                    None => None,
                };
                if let Some(rep) = rep {
                    self.reps.insert(v, rep);
                }
            }
            i = i + 1;
        }
    }
}

proof fn lemma_ev_still(st: St, defs: Seq<CoreDef>, n: nat)
    ensures
        !ev_stirs(st, defs, n) ==> ev_round(st, defs, n) == st,
    decreases n,
{
    if n > 0 && n <= defs.len() {
        lemma_ev_still(st, defs, (n - 1) as nat);
    }
}

fn set_without(s: &Vec<Name>, not: &HashSet<Name>) -> (r: HashSet<Name>)
    ensures
        r@ == others(s@, not@, s@.len()),
{
    let mut r: HashSet<Name> = HashSet::new();
    let mut i: usize = 0;
    while i < s.len()
        invariant
            i <= s@.len(),
            r@ == others(s@, not@, i as nat),
        decreases s@.len() - i,
    {
        if !not.contains(&s[i]) {
            r.insert(s[i]);
        }
        i = i + 1;
    }
    r
}

/// Lower a whole program. Fresh names continue above the highest variable the
/// program mentions, so an invented name does not collide with a real one.
pub fn lower_program(program: CoreProgram, opt: OptLevel) -> (r: Lowered)
    ensures
        ({
            let (st, entry) = ended(program, opt);
            let p = r.program;
            &&& p.symbols@ == st.symbols
            &&& defs_view(p.defs@) == closed(described(st), in_order(st.defs, st.defs.len()))
            &&& p.entry == entry
            &&& p.tags@ == st.tags
            &&& p.returns@ == st.returns
            &&& p.continuations@ == others(st.continuations, st.returns, st.continuations.len())
            &&& p.frames@ == st.frames
            &&& p.ctor_fields == program.ctor_fields
            &&& p.reps@ == all_reps(st, st.bound.len())
            &&& p.origins@ == st.origins
            &&& p.results@ == st.results
            &&& p.threads@ == st.threads
            &&& r.unsupported@ == (if st.unbound {
                seq![Unsupported::UnboundVar]
            } else {
                Seq::empty()
            })
        }),
{
    let ghost p0 = program;
    let CoreProgram { symbols, defs, entry, variants, ctor_fields, origins } = program;
    let hi: Var = highest_var_of(&defs);
    let mut lower: Lower = Lower {
        symbols,
        next_name: if hi == 0xffff_ffff {
            hi
        } else {
            hi + 1
        },
        next_label: defs.len() as u32,
        globals: globals_of(&defs),
        workers: Table::new(),
        joins: Table::new(),
        defs: Vec::new(),
        tags: HashMap::new(),
        next_tag: 0,
        opt,
        unbound: false,
        returns: HashSet::new(),
        continuations: Vec::new(),
        frames: HashSet::new(),
        ev: 0,
        letrecs: HashSet::new(),
        worker_ev: HashSet::new(),
        polys: Table::new(),
        types: Table::new(),
        reps: HashMap::new(),
        variants,
        tscope: Vec::new(),
        tylams: Table::new(),
        tyabs: Table::new(),
        descs: HashSet::new(),
        binder_reps: HashMap::new(),
        origins: map_of(&origins),
        results: HashMap::new(),
        threads: HashMap::new(),
    };
    proof {
        assert(lower@.defs =~= Seq::<DefV>::empty());
        assert(lower@ == begun(p0, opt));
    }
    lower.scan_defs(&defs);
    let ev: Name = lower.fresh_ref();
    lower.ev = ev;
    lower.tag_of(symbol::EV_NONE);
    lower.name_workers(&defs);
    lower.settle_ev(&defs);
    lower.lower_defs(&defs);
    let start: Option<Label> = match entry {
        None => None,
        Some(v) => {
            let label: u32 = lower.next_label;
            if lower.generic_entry(&defs, v) {
                Some(Label(label))
            } else {
                entry_label(&defs, v)
            }
        },
    };
    lower.runtime_tags();
    let ghost st = lower@;
    proof {
        assert((st, start) == ended(p0, opt));
    }
    lower.merge_reps();
    let sorted: Vec<Def> = sort(lower.defs);
    let (defs, _) = close(&sorted, &lower.reps, &lower.descs);
    let continuations: HashSet<Name> = set_without(&lower.continuations, &lower.returns);
    let mut unsupported: Vec<Unsupported> = Vec::new();
    if lower.unbound {
        unsupported.push(Unsupported::UnboundVar);
    }
    proof {
        assert(unsupported@ =~= (if st.unbound {
            seq![Unsupported::UnboundVar]
        } else {
            Seq::empty()
        }));
    }
    Lowered {
        program: Program {
            symbols: lower.symbols,
            defs,
            entry: start,
            tags: lower.tags,
            returns: lower.returns,
            continuations,
            frames: lower.frames,
            ctor_fields,
            reps: lower.reps,
            origins: lower.origins,
            results: lower.results,
            threads: lower.threads,
        },
        unsupported,
    }
}

} // verus!
