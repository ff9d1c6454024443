//! Every name lowering uses is in the environment where it uses it, every label it writes
//! is its own, and every descriptor is an integer: a program and its definitions.

use super::bring::lemma_expr;
use super::follow_program::{lemma_ended_scoped, told};
use super::frame::plugged;
use super::have::{brought, lemma_brought, lemma_plugged, lemma_with_descs, lemma_wrote};
use super::live::needs_ev;
use super::program::{
    all_reps, begun, binder_rep, def_at, def_descs, described, ended, ev_round, ev_settled, ev_stirs, generic_entry,
    highest_of, in_order, labelled, lower_block, lower_defs, lower_worker, name_workers, placed, runtime_tags,
    scan_defs, under_if_abs, wants_ev, RUNTIME_CTORS,
};
use super::reach::{apart, label_for, lemma_made_apart, makes, reaches, sorted, tidy, Kinds};
use super::reach_state::{lemma_same_ev, same_ev};
use super::scheme::{expr, seconds, with_descs};
use super::shape::{abs_id, lam_params, plain_under, under_abs, under_lams};
use super::state::{bump, OptLevel, St};
use super::stride::{lemma_fresh_as, lemma_quiet_on, newly, quiet, same_at, LAST};
use super::supply::{able, clear, lemma_own, lemma_stocked, own, stocked, supplied};
use super::survey::{laid, lemma_scan_defs};
use super::types::described_args;
use super::went::{
    all_descs, fit, lemma_desc_names, lemma_ev, lemma_label, lemma_other_ev, lemma_quietly, lemma_went, okay,
    reps_ok, went,
};
use crate::seq::cover::{covered, explained, flat, lemma_front, lemma_push};
use crate::seq::describe::{closed, MOST};
use crate::seq::draw::{closing_brings_every_descriptor, drawn, lemma_draw_goto, lemma_draw_let};
use crate::seq::ir::{Label, Name, Rep, NO_DESC};
use crate::seq::settle::{closing_explains_every_value, labels_differ};
use crate::seq::view::{jump_v, let_v, BlockV, DefV};
use crate::terms::symbol::{self, Sym};
use crate::terms::term::{CoreDef, CoreProgram, Term, Var};
use vstd::prelude::*;

verus! {

/// A program whose variables are of one kind each: a definition's and a `letrec`'s are
/// labels, as a join point's is, and no term mentions a label that another definition
/// makes. Nothing is defined twice.
pub open spec fn well_formed(kd: Kinds, p: CoreProgram) -> bool {
    let defs = p.defs@;
    &&& kd.apart()
    &&& kd.lo == bump(highest_of(defs, defs.len()))
    &&& forall|i: int|
        0 <= i < defs.len() ==> kd.g.contains((#[trigger] defs[i]).var) && tidy(kd, defs[i].term)
    &&& forall|i: int, j: int|
        0 <= i < defs.len() && 0 <= j < defs.len() && i != j ==> apart(
            (#[trigger] defs[i]).term,
            (#[trigger] defs[j]).term,
        ) && defs[i].var != defs[j].var
}

/// Neither names nor labels ran out.
pub open spec fn numbered(p: CoreProgram, opt: OptLevel) -> bool {
    &&& p.defs@.len() < u32::MAX
    &&& ended(p, opt).0.next_name < LAST
    &&& ended(p, opt).0.next_label < LAST
}

/// The labels that definitions make.
pub open spec fn made_labels(defs: Seq<CoreDef>) -> Set<Var> {
    Set::new(|v: Var| exists|i: int| 0 <= i < defs.len() && makes((#[trigger] defs[i]).term, v))
}

// --- what stands under a definition's abstractions ---

pub open spec fn inner(sub: Term, t: Term) -> bool {
    &&& forall|v: Var| #[trigger] reaches(sub, v) ==> reaches(t, v)
    &&& forall|v: Var| #[trigger] makes(sub, v) ==> makes(t, v)
}

proof fn lemma_under_abs(kd: Kinds, t: Term)
    requires
        tidy(kd, t),
    ensures
        tidy(kd, under_abs(t)),
        inner(under_abs(t), t),
    decreases t,
{
    if let Term::Loc(_, b) = t {
        lemma_under_abs(kd, *b);
    }
}

proof fn lemma_under_lams(kd: Kinds, t: Term)
    requires
        tidy(kd, t),
    ensures
        tidy(kd, under_lams(t)),
        inner(under_lams(t), t),
    decreases t,
{
    match t {
        Term::TyLam(_, _, b) => {
            lemma_under_lams(kd, *b);
        },
        _ => {
            lemma_plain_under(kd, t);
        },
    }
}

proof fn lemma_plain_under(kd: Kinds, t: Term)
    requires
        tidy(kd, t),
    ensures
        tidy(kd, plain_under(t)),
        inner(plain_under(t), t),
    decreases t,
{
    if let Term::Lam(_, _, b) = t {
        lemma_plain_under(kd, *b);
    }
}

/// What stands in a definition fits the labels that are made, and mentions none.
proof fn lemma_part_fits(kd: Kinds, p: CoreProgram, i: int, t: Term)
    requires
        well_formed(kd, p),
        0 <= i < p.defs@.len(),
        tidy(kd, t),
        inner(t, p.defs@[i].term),
    ensures
        fit(kd, t, made_labels(p.defs@)),
        clear(made_labels(p.defs@), t),
{
    reveal(fit);
    let defs = p.defs@;
    assert forall|v: Var| #[trigger] makes(t, v) implies made_labels(defs).contains(v) by {
        assert(makes(defs[i].term, v));
    }
    assert forall|v: Var| #[trigger] made_labels(defs).contains(v) implies !reaches(t, v) by {
        let j = choose|j: int| 0 <= j < defs.len() && makes((#[trigger] defs[j]).term, v);
        if i == j {
            assert(tidy(kd, defs[i].term));
            lemma_made_apart(kd, defs[i].term, v);
        } else {
            assert(apart(defs[j].term, defs[i].term));
        }
    }
}

// --- entry points ---

/// What taking labels and finding out about evidence leaves alone.
pub open spec fn beside(a: St, b: St) -> bool {
    &&& a.defs == b.defs
    &&& a.globals == b.globals
    &&& a.joins == b.joins
    &&& a.letrecs == b.letrecs
    &&& a.tscope == b.tscope
    &&& a.tylams == b.tylams
    &&& a.descs == b.descs
    &&& a.reps == b.reps
    &&& a.binder_reps == b.binder_reps
    &&& a.next_name == b.next_name
    &&& a.ev == b.ev
    &&& a.bound == b.bound
    &&& a.polys == b.polys
}

proof fn lemma_beside(kd: Kinds, a: St, b: St)
    requires
        okay(kd, a),
        beside(a, b),
    ensures
        okay(kd, b),
{
    reveal(okay);
    assert(all_descs(b, b.tscope)) by {
        assert(all_descs(a, a.tscope));
    }
    assert forall|id: u32| #[trigger] b.tylams.contains_key(id) implies all_descs(b, b.tylams[id]) by {
        assert(all_descs(a, a.tylams[id]));
    }
}

/// The direct entry points of the first `n` definitions have labels of their own.
pub open spec fn entries(st: St, defs: Seq<CoreDef>, n: nat, lo: u32) -> bool {
    &&& forall|v: Var| #[trigger]
        st.workers.contains_key(v) ==> lo <= st.workers[v].0 < st.next_label && exists|i: int|
            0 <= i < n && i < defs.len() && (#[trigger] defs[i]).var == v
    &&& forall|v: Var, w: Var|
        v != w && #[trigger] st.workers.contains_key(v) && #[trigger] st.workers.contains_key(w) ==> st.workers[v].0
            != st.workers[w].0
}

proof fn lemma_name_workers(kd: Kinds, st: St, p: CoreProgram, n: nat)
    requires
        well_formed(kd, p),
        n <= p.defs@.len(),
        st.workers == Map::<Var, (u32, usize)>::empty(),
    ensures
        beside(st, name_workers(st, p.defs@, n)),
        name_workers(st, p.defs@, n).worker_ev == st.worker_ev,
        st.next_label <= name_workers(st, p.defs@, n).next_label,
        name_workers(st, p.defs@, n).next_label < LAST ==> entries(
            name_workers(st, p.defs@, n),
            p.defs@,
            n,
            st.next_label,
        ),
    decreases n,
{
    let defs = p.defs@;
    if n > 0 {
        lemma_name_workers(kd, st, p, (n - 1) as nat);
        let a = name_workers(st, defs, (n - 1) as nat);
        let b = name_workers(st, defs, n);
        if b.next_label < LAST {
            assert(entries(a, defs, (n - 1) as nat, st.next_label));
            assert(!a.workers.contains_key(defs[n - 1].var)) by {
                if a.workers.contains_key(defs[n - 1].var) {
                    let i = choose|i: int| 0 <= i < n - 1 && i < defs.len() && (#[trigger] defs[i]).var == defs[n - 1].var;
                    assert(defs[i].var != defs[n - 1].var);
                }
            }
            assert forall|v: Var| #[trigger] b.workers.contains_key(v) implies st.next_label <= b.workers[v].0 < b.next_label
                && exists|i: int| 0 <= i < n && i < defs.len() && (#[trigger] defs[i]).var == v by {
                if a.workers.contains_key(v) {
                    let i = choose|i: int| 0 <= i < n - 1 && i < defs.len() && (#[trigger] defs[i]).var == v;
                    assert(defs[i].var == v);
                } else {
                    assert(defs[n - 1].var == v);
                }
            }
            assert forall|v: Var, w: Var|
                v != w && #[trigger] b.workers.contains_key(v) && #[trigger] b.workers.contains_key(w) implies b.workers[v].0
                != b.workers[w].0 by {
                if a.workers.contains_key(v) && a.workers.contains_key(w) {
                }
            }
        }
    }
}

/// How many of the first `n` definitions are not known to need evidence.
pub open spec fn open_entries(st: St, defs: Seq<CoreDef>, n: nat) -> nat
    decreases n,
{
    if n == 0 || n > defs.len() {
        0
    } else {
        open_entries(st, defs, (n - 1) as nat) + if st.worker_ev.contains(defs[n - 1].var) {
            0nat
        } else {
            1nat
        }
    }
}

proof fn lemma_ev_round(st: St, defs: Seq<CoreDef>, n: nat)
    requires
        n <= defs.len(),
    ensures
        beside(st, ev_round(st, defs, n)),
        ev_round(st, defs, n).workers == st.workers,
        ev_round(st, defs, n).next_label == st.next_label,
        forall|v: Var| #[trigger] st.worker_ev.contains(v) ==> ev_round(st, defs, n).worker_ev.contains(v),
        !ev_stirs(st, defs, n) ==> ev_round(st, defs, n) == st,
        ev_stirs(st, defs, n) ==> found_one(st, ev_round(st, defs, n), defs, n),
    decreases n,
{
    if n > 0 {
        lemma_ev_round(st, defs, (n - 1) as nat);
        let a = ev_round(st, defs, (n - 1) as nat);
        let b = ev_round(st, defs, n);
        if ev_stirs(st, defs, (n - 1) as nat) {
            let i = choose|i: int|
                0 <= i < n - 1 && !st.worker_ev.contains((#[trigger] defs[i]).var) && a.worker_ev.contains(defs[i].var);
            assert(b.worker_ev.contains(defs[i].var));
        } else if wants_ev(a, defs[n - 1]) {
            assert(!st.worker_ev.contains(defs[n - 1].var) && b.worker_ev.contains(defs[n - 1].var));
        }
    }
}

pub open spec fn found_one(a: St, b: St, defs: Seq<CoreDef>, n: nat) -> bool {
    exists|i: int|
        0 <= i < n && !a.worker_ev.contains((#[trigger] defs[i]).var) && b.worker_ev.contains(defs[i].var)
}

proof fn lemma_fewer(a: St, b: St, defs: Seq<CoreDef>, n: nat)
    requires
        n <= defs.len(),
        forall|v: Var| #[trigger] a.worker_ev.contains(v) ==> b.worker_ev.contains(v),
    ensures
        open_entries(b, defs, n) <= open_entries(a, defs, n) <= n,
        found_one(a, b, defs, n) ==> open_entries(b, defs, n) < open_entries(a, defs, n),
    decreases n,
{
    if n > 0 {
        lemma_fewer(a, b, defs, (n - 1) as nat);
        if found_one(a, b, defs, n) {
            let i = choose|i: int|
                0 <= i < n && !a.worker_ev.contains((#[trigger] defs[i]).var) && b.worker_ev.contains(defs[i].var);
            if i < n - 1 {
                assert(found_one(a, b, defs, (n - 1) as nat));
            }
        }
    }
}

proof fn lemma_ev_settled(st: St, defs: Seq<CoreDef>, most: nat)
    requires
        open_entries(st, defs, defs.len()) <= most,
    ensures
        beside(st, ev_settled(st, defs, most)),
        ev_settled(st, defs, most).workers == st.workers,
        ev_settled(st, defs, most).next_label == st.next_label,
        !ev_stirs(ev_settled(st, defs, most), defs, defs.len()),
    decreases most,
{
    let next = ev_round(st, defs, defs.len());
    lemma_ev_round(st, defs, defs.len());
    lemma_fewer(st, next, defs, defs.len());
    if ev_stirs(st, defs, defs.len()) {
        lemma_ev_settled(next, defs, (most - 1) as nat);
    }
}

proof fn lemma_unstirred(st: St, defs: Seq<CoreDef>, n: nat)
    requires
        n <= defs.len(),
        !ev_stirs(st, defs, n),
    ensures
        forall|i: int| 0 <= i < n ==> !wants_ev(st, #[trigger] defs[i]),
    decreases n,
{
    if n > 0 {
        lemma_unstirred(st, defs, (n - 1) as nat);
        lemma_ev_round(st, defs, (n - 1) as nat);
    }
}

// --- definitions ---

/// The labels of the first `n` definitions, and of their direct entry points.
pub open spec fn entry_labels(st: St, defs: Seq<CoreDef>, n: nat) -> Set<u32> {
    Set::new(
        |l: u32| l < n || exists|i: int|
            0 <= i < n && i < defs.len() && st.workers.contains_key((#[trigger] defs[i]).var) && st.workers[defs[i].var].0
                == l,
    )
}

/// What lowering definitions keeps, from `a` on, where `also` are the labels written that
/// were taken before.
#[verifier::opaque]
pub open spec fn kept(kd: Kinds, a: St, b: St, ls: Set<Var>, also: Set<u32>) -> bool {
    &&& okay(kd, b)
    &&& brought(b)
    &&& a.descs == b.descs
    &&& a.tylams == b.tylams
    &&& a.workers == b.workers
    &&& a.worker_ev == b.worker_ev
    &&& a.binder_reps == b.binder_reps
    &&& a.bound == b.bound
    &&& a.polys == b.polys
    &&& a.next_name <= b.next_name
    &&& a.next_label <= b.next_label
    &&& forall|v: Var| !ls.contains(v) ==> #[trigger] same_at(a, b, v)
    &&& a.next_label < LAST ==> forall|l: u32| #[trigger] also.contains(l) ==> l < a.next_label
    &&& b.next_label < LAST ==> newly(b.defs, 0, a.next_label, b.next_label, also)
}

proof fn lemma_kept(kd: Kinds, a: St, b: St, ls: Set<Var>, also: Set<u32>)
    requires
        kept(kd, a, b, ls, also),
    ensures
        okay(kd, b),
        brought(b),
        a.descs == b.descs,
        a.tylams == b.tylams,
        a.workers == b.workers,
        a.worker_ev == b.worker_ev,
        a.next_name <= b.next_name,
        a.next_label <= b.next_label,
{
    reveal(kept);
}

/// Lowering a statement in between.
proof fn lemma_kept_on(kd: Kinds, a: St, b: St, c: St, d: St, ls: Set<Var>, also: Set<u32>)
    requires
        kept(kd, a, b, ls, also),
        quiet_but(b, c),
        went(kd, c, d, ls),
        brought(d),
    ensures
        kept(kd, a, d, ls, also),
{
    reveal(kept);
    lemma_went(kd, c, d, ls);
    assert forall|v: Var| !ls.contains(v) implies #[trigger] same_at(a, d, v) by {
        assert(same_at(a, b, v));
        assert(same_at(c, d, v));
    }
    if d.next_label < LAST {
        assert forall|i: int| 0 <= i < d.defs.len() implies a.next_label <= (#[trigger] d.defs[i]).label.0 < d.next_label
            || also.contains(d.defs[i].label.0) by {
            if i < b.defs.len() {
                assert(d.defs[i] == b.defs[i]);
            }
        }
        assert forall|i: int, j: int| 0 <= i < j < d.defs.len() implies (#[trigger] d.defs[i]).label.0 != (#[trigger]
        d.defs[j]).label.0 by {
            if i < b.defs.len() {
                assert(d.defs[i] == b.defs[i]);
            }
            if j < b.defs.len() {
                assert(d.defs[j] == b.defs[j]);
            }
        }
    }
}

/// Names taken, another evidence and another scope.
pub open spec fn quiet_but(a: St, b: St) -> bool {
    &&& a.globals == b.globals
    &&& a.joins == b.joins
    &&& a.letrecs == b.letrecs
    &&& a.workers == b.workers
    &&& a.worker_ev == b.worker_ev
    &&& a.tylams == b.tylams
    &&& a.descs == b.descs
    &&& a.defs == b.defs
    &&& a.next_label == b.next_label
    &&& a.next_name <= b.next_name
    &&& a.binder_reps == b.binder_reps
    &&& a.bound == b.bound
    &&& a.polys == b.polys
}

/// A definition written under a label that was taken before.
proof fn lemma_kept_wrote(
    kd: Kinds,
    a: St,
    b: St,
    c: St,
    label: u32,
    name: Sym,
    block: BlockV,
    ls: Set<Var>,
    also: Set<u32>,
)
    requires
        kept(kd, a, b, ls, also),
        a.next_label < LAST ==> !also.contains(label) && label < a.next_label,
        b.next_name < LAST ==> drawn(block.body, block.params, b.descs),
        c.defs == b.wrote(label, name, block).defs,
        okay(kd, c),
        quiet_but(St { defs: c.defs, ..b }, c),
        c.next_name == b.next_name,
    ensures
        kept(kd, a, c, ls, also.insert(label)),
{
    lemma_kept(kd, a, b, ls, also);
    lemma_wrote(b, label, name, block);
    lemma_brought(b.wrote(label, name, block), c);
    reveal(kept);
    assert forall|v: Var| !ls.contains(v) implies #[trigger] same_at(a, c, v) by {
        assert(same_at(a, b, v));
    }
    let now = also.insert(label);
    if c.next_label < LAST {
        assert forall|i: int| 0 <= i < c.defs.len() implies a.next_label <= (#[trigger] c.defs[i]).label.0 < c.next_label
            || now.contains(c.defs[i].label.0) by {
            if i < b.defs.len() {
                assert(c.defs[i] == b.defs[i]);
            }
        }
        assert forall|i: int, j: int| 0 <= i < j < c.defs.len() implies (#[trigger] c.defs[i]).label.0 != (#[trigger]
        c.defs[j]).label.0 by {
            assert(c.defs[i] == b.defs[i]);
            if j < b.defs.len() {
                assert(c.defs[j] == b.defs[j]);
            }
        }
    }
}

proof fn lemma_scoped_okay(kd: Kinds, st: St, ts: Seq<(u32, Name)>)
    requires
        okay(kd, st),
        all_descs(st, ts),
    ensures
        okay(kd, (St { tscope: ts, ..st })),
{
    reveal(okay);
    let b = St { tscope: ts, ..st };
    assert(all_descs(b, ts));
    assert forall|id: u32| #[trigger] b.tylams.contains_key(id) implies all_descs(b, b.tylams[id]) by {
        assert(all_descs(st, st.tylams[id]));
    }
}

/// Before any definition is lowered no label takes anything.
pub open spec fn bare_labels(st: St) -> bool {
    &&& forall|v: Var| #[trigger] st.globals.contains_key(v) ==> st.globals[v].1.len() == 0
    &&& st.joins == Map::<Var, (u32, Seq<Name>)>::empty()
    &&& st.letrecs == Set::<Var>::empty()
}

/// What stands in a definition needs nothing of its environment but evidence.
proof fn lemma_free_standing(kd: Kinds, a: St, b: St, t: Term, env: Seq<Name>, ls: Set<Var>)
    requires
        bare_labels(a),
        clear(ls, t),
        forall|v: Var| !ls.contains(v) ==> #[trigger] same_at(a, b, v),
    ensures
        stocked(b, t, env, ls),
{
    reveal(stocked);
    assert forall|v: Var, n: Name| #[trigger] reaches(t, v) && #[trigger] label_for(b, v, n) implies env.contains(n) by {
        assert(!ls.contains(v));
        assert(same_at(a, b, v));
    }
}

proof fn lemma_kept_same(kd: Kinds, a: St, b: St, ls: Set<Var>, also: Set<u32>)
    requires
        kept(kd, a, b, ls, also),
    ensures
        forall|v: Var| !ls.contains(v) ==> #[trigger] same_at(a, b, v),
        b.next_label < LAST ==> newly(b.defs, 0, a.next_label, b.next_label, also),
{
    reveal(kept);
}

proof fn lemma_block(kd: Kinds, p: CoreProgram, a: St, st: St, i: nat, ls: Set<Var>, also: Set<u32>)
    requires
        well_formed(kd, p),
        i < p.defs@.len(),
        p.defs@.len() < u32::MAX,
        ls == made_labels(p.defs@),
        bare_labels(a),
        kept(kd, a, st, ls, also),
        a.next_label < LAST ==> !also.contains(i as u32) && i < a.next_label,
    ensures
        kept(kd, a, lower_block(st, p.defs@[i as int], i as u32), ls, also.insert(i as u32)),
{
    let d = p.defs@[i as int];
    lemma_kept(kd, a, st, ls, also);
    lemma_kept_same(kd, a, st, ls, also);
    let descs = def_descs(st, d.term);
    lemma_desc_names(kd, st, abs_id(d.term));
    let t = under_if_abs(d.term);
    assert(tidy(kd, d.term));
    lemma_under_abs(kd, d.term);
    lemma_part_fits(kd, p, i as int, t);
    let st0 = St { tscope: descs, ..st };
    lemma_scoped_okay(kd, st, descs);
    let k = st0.next_name;
    let st1 = st0.function_return();
    assert(quiet(st0, st1));
    lemma_quietly(kd, st0, st1, ls);
    lemma_went(kd, st0, st1, ls);
    let params = seconds(descs).push(k);
    lemma_push(seconds(descs), k);
    let ev = st1.next_name;
    lemma_ev(kd, st1);
    lemma_fresh_as(st1, Rep::Ref);
    lemma_quietly(kd, st1, st1.fresh_ref(), ls);
    lemma_went(kd, st1, st1.fresh_ref(), ls);
    lemma_other_ev(kd, st1.fresh_ref(), ev);
    let with = st1.fresh_ref().with_ev(ev);
    let at = seq![ev] + params;
    lemma_front(ev, params);
    lemma_free_standing(kd, a, st, t, at, ls);
    super::supply::lemma_stocked_as(st, with, t, at, ls);
    lemma_stocked(with, t, at, ls);
    lemma_brought(st, with);
    lemma_free_standing(kd, a, st, t, params, ls);
    super::supply::lemma_stocked_as(st, st1, t, params, ls);
    lemma_brought(st, st1);
    let label = i as u32;
    if needs_ev(st1, t) {
        lemma_expr(kd, with, t, at, k, ls);
        let (st3, b) = expr(with, t, at, k);
        lemma_kept_on(kd, a, st, with, st3, ls, also);
        lemma_went(kd, with, st3, ls);
        let tag = st3.tag(symbol::EV_NONE);
        let body = let_v(ev, tag, symbol::EV_NONE, Seq::empty(), b);
        if st3.next_name < LAST {
            lemma_draw_let(ev, tag, symbol::EV_NONE, Seq::empty(), b, params, st3.descs);
        }
        let c = lower_block(st, d, label);
        lemma_beside(kd, st3, St { defs: st3.defs, ..c });
        lemma_defs_okay(kd, St { defs: st3.defs, ..c }, c.defs);
        lemma_kept_wrote(kd, a, st3, c, label, d.name, BlockV { params, body }, ls, also);
    } else {
        super::bring_parts::lemma_unneeded(st1, t, params, ls);
        lemma_expr(kd, st1, t, params, k, ls);
        let (st2, body) = expr(st1, t, params, k);
        lemma_kept_on(kd, a, st, st1, st2, ls, also);
        lemma_went(kd, st1, st2, ls);
        let c = lower_block(st, d, label);
        lemma_beside(kd, st2, St { defs: st2.defs, ..c });
        lemma_defs_okay(kd, St { defs: st2.defs, ..c }, c.defs);
        lemma_kept_wrote(kd, a, st2, c, label, d.name, BlockV { params, body }, ls, also);
    }
}

proof fn lemma_defs_okay(kd: Kinds, st: St, defs: Seq<DefV>)
    requires
        okay(kd, st),
    ensures
        okay(kd, (St { defs, ..st })),
{
    reveal(okay);
    let b = St { defs, ..st };
    assert(all_descs(b, b.tscope)) by {
        assert(all_descs(st, st.tscope));
    }
    assert forall|id: u32| #[trigger] b.tylams.contains_key(id) implies all_descs(b, b.tylams[id]) by {
        assert(all_descs(st, st.tylams[id]));
    }
}

proof fn lemma_worker(kd: Kinds, p: CoreProgram, a: St, st: St, i: nat, ls: Set<Var>, also: Set<u32>)
    requires
        well_formed(kd, p),
        i < p.defs@.len(),
        ls == made_labels(p.defs@),
        bare_labels(a),
        kept(kd, a, st, ls, also),
        !wants_ev(a, p.defs@[i as int]),
        a.workers.contains_key(p.defs@[i as int].var),
        a.next_label < LAST ==> !also.contains(a.workers[p.defs@[i as int].var].0) && a.workers[p.defs@[i as int].var].0
            < a.next_label,
    ensures
        kept(
            kd,
            a,
            lower_worker(st, p.defs@[i as int]),
            ls,
            also.insert(a.workers[p.defs@[i as int].var].0),
        ),
{
    let d = p.defs@[i as int];
    lemma_kept(kd, a, st, ls, also);
    lemma_kept_same(kd, a, st, ls, also);
    let t = under_lams(d.term);
    assert(tidy(kd, d.term));
    lemma_under_lams(kd, d.term);
    lemma_part_fits(kd, p, i as int, t);
    let k = st.next_name;
    let st1 = st.function_return();
    assert(quiet(st, st1));
    let ev = st1.next_name;
    lemma_fresh_as(st1, Rep::Ref);
    lemma_quiet_on(st, st1, st1.fresh_ref());
    lemma_quietly(kd, st, st1.fresh_ref(), ls);
    lemma_went(kd, st, st1.fresh_ref(), ls);
    lemma_ev(kd, st);
    lemma_other_ev(kd, st1.fresh_ref(), ev);
    let st2 = st1.fresh_ref().with_ev(ev);
    let plain = (seconds(def_descs(st, d.term)) + lam_params(d.term)).push(k);
    let params = if st2.worker_ev.contains(d.var) {
        plain.push(ev)
    } else {
        plain
    };
    lemma_push(seconds(def_descs(st, d.term)) + lam_params(d.term), k);
    lemma_push(plain, ev);
    lemma_free_standing(kd, a, st, t, params, ls);
    super::supply::lemma_stocked_as(st, st2, t, params, ls);
    assert(same_ev(a, st2, t)) by {
        assert forall|v: Var| #[trigger] reaches(t, v) implies (a.letrecs.contains(v) <==> st2.letrecs.contains(v)) by {
            assert(!ls.contains(v));
            assert(same_at(a, st, v));
        }
    }
    lemma_same_ev(a, st2, t);
    if st2.worker_ev.contains(d.var) {
        lemma_stocked(st2, t, params, ls);
    } else {
        super::bring_parts::lemma_unneeded(st2, t, params, ls);
    }
    lemma_brought(st, st2);
    lemma_expr(kd, st2, t, params, k, ls);
    let (st3, body) = expr(st2, t, params, k);
    lemma_kept_on(kd, a, st, st2, st3, ls, also);
    lemma_went(kd, st2, st3, ls);
    let c = lower_worker(st, d);
    lemma_defs_okay(kd, st3, c.defs);
    lemma_kept_wrote(kd, a, st3, c, st.workers[d.var].0, d.name, BlockV { params, body }, ls, also);
}

proof fn lemma_defs(kd: Kinds, p: CoreProgram, a: St, n: nat, ls: Set<Var>)
    requires
        well_formed(kd, p),
        n <= p.defs@.len(),
        p.defs@.len() < u32::MAX,
        ls == made_labels(p.defs@),
        bare_labels(a),
        okay(kd, a),
        a.defs.len() == 0,
        a.next_label < LAST ==> entries(a, p.defs@, p.defs@.len(), p.defs@.len() as u32),
        p.defs@.len() <= a.next_label,
        forall|i: int| 0 <= i < p.defs@.len() ==> !wants_ev(a, #[trigger] p.defs@[i]),
    ensures
        kept(kd, a, lower_defs(a, p.defs@, n), ls, entry_labels(a, p.defs@, n)),
    decreases n,
{
    let defs = p.defs@;
    if n == 0 {
        reveal(kept);
        reveal(brought);
    } else {
        lemma_defs(kd, p, a, (n - 1) as nat, ls);
        let st0 = lower_defs(a, defs, (n - 1) as nat);
        let was = entry_labels(a, defs, (n - 1) as nat);
        let d = defs[n - 1];
        let i = (n - 1) as nat;
        lemma_kept(kd, a, st0, ls, was);
        assert(a.next_label < LAST ==> !was.contains(i as u32)) by {
            if a.next_label < LAST && was.contains(i as u32) {
                let j = choose|j: int|
                    0 <= j < n - 1 && j < defs.len() && a.workers.contains_key((#[trigger] defs[j]).var) && a.workers[defs[j].var].0
                        == i as u32;
                assert(a.workers.contains_key(defs[j].var));
            }
        }
        lemma_block(kd, p, a, st0, i, ls, was);
        let st1 = lower_block(st0, d, i as u32);
        let mid = was.insert(i as u32);
        lemma_kept(kd, a, st1, ls, mid);
        let end = entry_labels(a, defs, n);
        let st2 = lower_worker(st1, d);
        if a.workers.contains_key(d.var) {
            let l = a.workers[d.var].0;
            assert(a.next_label < LAST ==> !mid.contains(l)) by {
                if a.next_label < LAST && was.contains(l) && l >= n - 1 {
                    let j = choose|j: int|
                        0 <= j < n - 1 && j < defs.len() && a.workers.contains_key((#[trigger] defs[j]).var) && a.workers[defs[j].var].0
                            == l;
                    assert(defs[j].var != defs[n - 1].var);
                    assert(a.workers.contains_key(defs[j].var) && a.workers.contains_key(d.var));
                }
            }
            lemma_worker(kd, p, a, st1, i, ls, mid);
            assert(mid.insert(l) =~= end) by {
                lemma_entry_labels(a, defs, n);
            }
        } else {
            assert(mid =~= end) by {
                lemma_entry_labels(a, defs, n);
            }
        }
        lemma_kept(kd, a, st2, ls, end);
        let c = lower_defs(a, defs, n);
        lemma_scoped_okay(kd, st2, Seq::empty());
        reveal(kept);
        lemma_brought(st2, c);
        assert forall|v: Var| !ls.contains(v) implies #[trigger] same_at(a, c, v) by {
            assert(same_at(a, st2, v));
        }
    }
}

proof fn lemma_entry_labels(a: St, defs: Seq<CoreDef>, n: nat)
    requires
        0 < n <= defs.len(),
        n <= u32::MAX,
    ensures
        forall|l: u32| #[trigger]
            entry_labels(a, defs, n).contains(l) <==> entry_labels(a, defs, (n - 1) as nat).contains(l) || l == n - 1 || (
            a.workers.contains_key(defs[n - 1].var) && a.workers[defs[n - 1].var].0 == l),
{
    assert forall|l: u32| #[trigger]
        entry_labels(a, defs, n).contains(l) <==> entry_labels(a, defs, (n - 1) as nat).contains(l) || l == n - 1 || (
        a.workers.contains_key(defs[n - 1].var) && a.workers[defs[n - 1].var].0 == l) by {
        if entry_labels(a, defs, n).contains(l) && l >= n {
            let j = choose|j: int|
                0 <= j < n && j < defs.len() && a.workers.contains_key((#[trigger] defs[j]).var) && a.workers[defs[j].var].0
                    == l;
            if j < n - 1 {
                assert(a.workers.contains_key(defs[j].var));
            }
        }
        if entry_labels(a, defs, (n - 1) as nat).contains(l) && l >= n - 1 {
            let j = choose|j: int|
                0 <= j < n - 1 && j < defs.len() && a.workers.contains_key((#[trigger] defs[j]).var) && a.workers[defs[j].var].0
                    == l;
            assert(a.workers.contains_key(defs[j].var));
        }
    }
}

proof fn lemma_generic_entry(kd: Kinds, a: St, st: St, defs: Seq<CoreDef>, entry: Var, ls: Set<Var>, also: Set<u32>)
    requires
        kept(kd, a, st, ls, also),
    ensures
        generic_entry(st, defs, entry) matches Some(r) ==> kept(kd, a, r, ls, also),
{
    let i = def_at(defs, entry, 0);
    if i < defs.len() {
        if let Some(tys) = described_args(st, defs[i as int].var, None) {
            lemma_kept(kd, a, st, ls, also);
            lemma_kept_same(kd, a, st, ls, also);
            let label = st.next_label;
            let st1 = st.fresh_label();
            lemma_label(kd, st, ls);
            lemma_went(kd, st, st1, ls);
            let k = st1.next_name;
            let st2 = st1.function_return();
            assert(quiet(st1, st2));
            lemma_quietly(kd, st1, st2, ls);
            lemma_went(kd, st1, st2, ls);
            super::bring_parts::lemma_scope_descs(kd, st2);
            super::stride::lemma_with_descs(st2, tys, tys.len(), seq![k]);
            lemma_with_descs(st2, tys, tys.len(), seq![k]);
            let d = with_descs(st2, tys, tys.len(), seq![k]);
            lemma_quiet_on(st1, st2, d.st);
            lemma_quietly(kd, st1, d.st, ls);
            lemma_went(kd, st1, d.st, ls);
            let sel = d.done.push(k);
            lemma_push(d.done, k);
            let only = seq![k];
            assert(only[0] == k);
            assert(only.contains(k));
            assert(d.env.contains(k));
            let go = jump_v(sel, Label(i as u32));
            lemma_draw_goto(sel, Label(i as u32), d.env, st.descs);
            lemma_plugged(d.frames, go, seq![k], d.env, st.descs);
            let block = BlockV { params: seq![k], body: plugged(d.frames, go) };
            lemma_brought(st, d.st);
            lemma_wrote(d.st, label, defs[i as int].name, block);
            let st3 = d.st.wrote(label, defs[i as int].name, block);
            let r = generic_entry(st, defs, entry)->0;
            lemma_brought(st3, r);
            lemma_beside(kd, d.st, St { defs: d.st.defs, ..r });
            lemma_defs_okay(kd, St { defs: d.st.defs, ..r }, r.defs);
            reveal(kept);
            assert forall|v: Var| !ls.contains(v) implies #[trigger] same_at(a, r, v) by {
                assert(same_at(a, st, v));
            }
            if r.next_label < LAST {
                assert forall|x: int| 0 <= x < r.defs.len() implies a.next_label <= (#[trigger] r.defs[x]).label.0 < r.next_label
                    || also.contains(r.defs[x].label.0) by {
                    if x < st.defs.len() {
                        assert(r.defs[x] == st.defs[x]);
                    }
                }
                assert forall|x: int, y: int| 0 <= x < y < r.defs.len() implies (#[trigger] r.defs[x]).label.0 != (
                #[trigger] r.defs[y]).label.0 by {
                    assert(r.defs[x] == st.defs[x]);
                    if y < st.defs.len() {
                        assert(r.defs[y] == st.defs[y]);
                    }
                }
            }
        }
    }
}

proof fn lemma_runtime_tags(kd: Kinds, a: St, st: St, n: nat, ls: Set<Var>, also: Set<u32>)
    requires
        kept(kd, a, st, ls, also),
    ensures
        kept(kd, a, runtime_tags(st, n), ls, also),
        runtime_tags(st, n).reps == st.reps,
    decreases n,
{
    if n > 0 {
        lemma_runtime_tags(kd, a, st, (n - 1) as nat, ls, also);
        let b = runtime_tags(st, (n - 1) as nat);
        let c = runtime_tags(st, n);
        lemma_kept(kd, a, b, ls, also);
        lemma_beside(kd, b, c);
        lemma_brought(b, c);
        reveal(kept);
        assert forall|v: Var| !ls.contains(v) implies #[trigger] same_at(a, c, v) by {
            assert(same_at(a, b, v));
        }
    }
}

proof fn lemma_labelled(kd: Kinds, p: CoreProgram, n: nat)
    requires
        well_formed(kd, p),
        n <= p.defs@.len(),
    ensures
        forall|v: Var| #[trigger] labelled(p.defs@, n).contains_key(v) ==> kd.g.contains(v) && labelled(p.defs@, n)[v].1.len()
            == 0,
    decreases n,
{
    if n > 0 {
        lemma_labelled(kd, p, (n - 1) as nat);
        let (was, now) = (labelled(p.defs@, (n - 1) as nat), labelled(p.defs@, n));
        assert forall|v: Var| #[trigger] now.contains_key(v) implies kd.g.contains(v) && now[v].1.len() == 0 by {
            if v == p.defs@[n - 1].var {
                assert(kd.g.contains(p.defs@[n - 1].var));
            } else {
                assert(was.contains_key(v));
            }
        }
    }
}

/// Where lowering's definitions start from.
pub open spec fn prepared(p: CoreProgram, opt: OptLevel) -> St {
    let defs = p.defs@;
    let st0 = scan_defs(begun(p, opt), defs, defs.len());
    let st1 = st0.fresh_ref().with_ev(st0.next_name).tagged(symbol::EV_NONE);
    ev_settled(name_workers(st1, defs, defs.len()), defs, MOST as nat)
}

proof fn lemma_prepared(kd: Kinds, p: CoreProgram, opt: OptLevel)
    requires
        well_formed(kd, p),
        p.defs@.len() < u32::MAX,
    ensures
        ({
            let a = prepared(p, opt);
            &&& okay(kd, a)
            &&& bare_labels(a)
            &&& a.defs.len() == 0
            &&& a.next_label < LAST ==> entries(a, p.defs@, p.defs@.len(), p.defs@.len() as u32)
            &&& p.defs@.len() <= a.next_label
            &&& forall|i: int| 0 <= i < p.defs@.len() ==> !wants_ev(a, #[trigger] p.defs@[i])
            &&& forall|v: Var| #[trigger]
                a.binder_reps.contains_key(v) ==> (a.binder_reps[v] matches Rep::Var(d) ==> d == NO_DESC
                    || a.descs.contains(d))
        }),
{
    let defs = p.defs@;
    let b = begun(p, opt);
    assert(laid(b)) by {
        reveal(laid);
    }
    lemma_scan_defs(b, defs, defs.len());
    let st0 = scan_defs(b, defs, defs.len());
    assert(laid(st0));
    lemma_labelled(kd, p, defs.len());
    assert(sorted(kd, st0)) by {
        assert forall|v: Var| #[trigger] st0.globals.contains_key(v) implies kd.g.contains(v) && forall|n: Name| #[trigger]
            st0.globals[v].1.contains(n) ==> n < kd.lo by {}
    }
    let mid = St { ev: st0.next_name, ..st0 };
    assert(okay(kd, mid)) by {
        reveal(laid);
        reveal(okay);
        assert(all_descs(mid, mid.tscope)) by {
            assert(all_descs(st0, st0.tscope));
        }
        assert forall|id: u32| #[trigger] mid.tylams.contains_key(id) implies all_descs(mid, mid.tylams[id]) by {
            assert(all_descs(st0, st0.tylams[id]));
        }
    }
    lemma_fresh_as(mid, Rep::Ref);
    lemma_quietly(kd, mid, mid.fresh_ref(), Set::empty());
    lemma_went(kd, mid, mid.fresh_ref(), Set::empty());
    let st1 = st0.fresh_ref().with_ev(st0.next_name).tagged(symbol::EV_NONE);
    lemma_beside(kd, mid.fresh_ref(), st1);
    lemma_name_workers(kd, st1, p, defs.len());
    let st2 = name_workers(st1, defs, defs.len());
    lemma_beside(kd, st1, st2);
    lemma_fewer(st2, st2, defs, defs.len());
    assert(defs.len() <= MOST);
    lemma_ev_settled(st2, defs, MOST as nat);
    let a = ev_settled(st2, defs, MOST as nat);
    lemma_beside(kd, st2, a);
    lemma_unstirred(a, defs, defs.len());
    reveal(laid);
}

/// What a lowered program ends with.
proof fn lemma_ended(kd: Kinds, p: CoreProgram, opt: OptLevel)
    requires
        well_formed(kd, p),
        numbered(p, opt),
    ensures
        kept(
            kd,
            prepared(p, opt),
            ended(p, opt).0,
            made_labels(p.defs@),
            entry_labels(prepared(p, opt), p.defs@, p.defs@.len()),
        ),
{
    let defs = p.defs@;
    let a = prepared(p, opt);
    let ls = made_labels(defs);
    let also = entry_labels(a, defs, defs.len());
    lemma_prepared(kd, p, opt);
    lemma_defs(kd, p, a, defs.len(), ls);
    let st3 = lower_defs(a, defs, defs.len());
    lemma_runtime_tags(kd, a, st3, RUNTIME_CTORS as nat, ls, also);
    if let Some(v) = p.entry {
        lemma_generic_entry(kd, a, st3, defs, v, ls, also);
        if let Some(st) = generic_entry(st3, defs, v) {
            lemma_runtime_tags(kd, a, st, RUNTIME_CTORS as nat, ls, also);
        }
    }
}

// --- in the order of labels ---

proof fn lemma_placed(s: Seq<DefV>, d: DefV)
    requires
        forall|i: int, j: int| 0 <= i < j < s.len() ==> (#[trigger] s[i]).label.0 < (#[trigger] s[j]).label.0,
        forall|i: int| 0 <= i < s.len() ==> (#[trigger] s[i]).label.0 != d.label.0,
    ensures
        placed(s, d).len() == s.len() + 1,
        forall|i: int|
            0 <= i < placed(s, d).len() ==> (#[trigger] placed(s, d)[i]) == d || s.contains(placed(s, d)[i]),
        forall|i: int, j: int|
            0 <= i < j < placed(s, d).len() ==> (#[trigger] placed(s, d)[i]).label.0 < (#[trigger] placed(
                s,
                d,
            )[j]).label.0,
    decreases s.len(),
{
    if s.len() == 0 || s.last().label.0 <= d.label.0 {
        let r = s.push(d);
        assert forall|i: int| 0 <= i < r.len() implies (#[trigger] r[i]) == d || s.contains(r[i]) by {
            if i < s.len() {
                assert(r[i] == s[i]);
            }
        }
        assert forall|i: int, j: int| 0 <= i < j < r.len() implies (#[trigger] r[i]).label.0 < (#[trigger] r[j]).label.0 by {
            assert(r[i] == s[i]);
            if j == s.len() && i < s.len() - 1 {
                assert(s[i].label.0 < s[s.len() - 1].label.0);
            }
        }
    } else {
        let front = s.drop_last();
        assert forall|i: int, j: int| 0 <= i < j < front.len() implies (#[trigger] front[i]).label.0 < (#[trigger]
        front[j]).label.0 by {
            assert(front[i] == s[i] && front[j] == s[j]);
        }
        assert forall|i: int| 0 <= i < front.len() implies (#[trigger] front[i]).label.0 != d.label.0 by {
            assert(front[i] == s[i]);
        }
        lemma_placed(front, d);
        let a = placed(front, d);
        let r = a.push(s.last());
        assert forall|i: int| 0 <= i < r.len() implies (#[trigger] r[i]) == d || s.contains(r[i]) by {
            if i < a.len() {
                assert(r[i] == a[i]);
                if a[i] != d {
                    let k = choose|k: int| 0 <= k < front.len() && front[k] == a[i];
                    assert(s[k] == a[i]);
                }
            } else {
                assert(s[s.len() - 1] == r[i]);
            }
        }
        assert forall|i: int, j: int| 0 <= i < j < r.len() implies (#[trigger] r[i]).label.0 < (#[trigger] r[j]).label.0 by {
            assert(r[i] == a[i]);
            if j < a.len() {
                assert(r[j] == a[j]);
            } else if a[i] != d {
                let k = choose|k: int| 0 <= k < front.len() && front[k] == a[i];
                assert(s[k].label.0 < s[s.len() - 1].label.0);
            }
        }
    }
}

proof fn lemma_in_order(s: Seq<DefV>, n: nat)
    requires
        n <= s.len(),
        forall|i: int, j: int| 0 <= i < j < s.len() ==> (#[trigger] s[i]).label.0 != (#[trigger] s[j]).label.0,
    ensures
        in_order(s, n).len() == n,
        forall|i: int| 0 <= i < n ==> exists|k: int| 0 <= k < n && #[trigger] s[k] == #[trigger] in_order(s, n)[i],
        forall|i: int, j: int|
            0 <= i < j < n ==> (#[trigger] in_order(s, n)[i]).label.0 < (#[trigger] in_order(s, n)[j]).label.0,
    decreases n,
{
    if n > 0 {
        lemma_in_order(s, (n - 1) as nat);
        let a = in_order(s, (n - 1) as nat);
        let d = s[n - 1];
        assert forall|i: int| 0 <= i < a.len() implies (#[trigger] a[i]).label.0 != d.label.0 by {
            let k = choose|k: int| 0 <= k < n - 1 && #[trigger] s[k] == a[i];
            assert(s[k].label.0 != s[n - 1].label.0);
        }
        lemma_placed(a, d);
        let r = in_order(s, n);
        assert forall|i: int| 0 <= i < n implies exists|k: int| 0 <= k < n && #[trigger] s[k] == #[trigger] r[i] by {
            if r[i] == d {
                assert(s[n - 1] == r[i]);
            } else {
                let m = choose|m: int| 0 <= m < a.len() && a[m] == r[i];
                let k = choose|k: int| 0 <= k < n - 1 && #[trigger] s[k] == a[m];
                assert(s[k] == r[i]);
            }
        }
    }
}

proof fn lemma_few(s: Seq<DefV>, i: int)
    requires
        forall|i: int, j: int| 0 <= i < j < s.len() ==> (#[trigger] s[i]).label.0 < (#[trigger] s[j]).label.0,
        0 <= i < s.len(),
    ensures
        i <= s[i].label.0,
    decreases i,
{
    if i > 0 {
        lemma_few(s, i - 1);
        assert(s[i - 1].label.0 < s[i].label.0);
    }
}

/// A lowered program's definitions, in the order of their labels: no two have one label,
/// and each uses only names it has, or descriptors.
proof fn lemma_ordered(kd: Kinds, p: CoreProgram, opt: OptLevel)
    requires
        well_formed(kd, p),
        numbered(p, opt),
    ensures
        ({
            let st = ended(p, opt).0;
            let defs = in_order(st.defs, st.defs.len());
            &&& labels_differ(defs)
            &&& defs.len() <= u32::MAX
            &&& forall|i: int|
                0 <= i < defs.len() ==> drawn((#[trigger] defs[i]).block.body, defs[i].block.params, st.descs)
        }),
{
    lemma_ended(kd, p, opt);
    let st = ended(p, opt).0;
    let a = prepared(p, opt);
    let also = entry_labels(a, p.defs@, p.defs@.len());
    lemma_kept(kd, a, st, made_labels(p.defs@), also);
    lemma_kept_same(kd, a, st, made_labels(p.defs@), also);
    let n = st.defs.len();
    lemma_in_order(st.defs, n);
    let defs = in_order(st.defs, n);
    if n > 0 {
        lemma_few(defs, n - 1);
        let k = choose|k: int| 0 <= k < n && #[trigger] st.defs[k] == defs[n - 1];
        assert(st.defs[k].label.0 <= u32::MAX);
        assert(defs[n - 1].label.0 < LAST) by {
            assert(a.next_label <= st.next_label);
            assert(a.next_label <= st.defs[k].label.0 < st.next_label || also.contains(st.defs[k].label.0));
            reveal(kept);
        }
    }
    reveal(brought);
    assert forall|i: int| 0 <= i < defs.len() implies drawn(
        (#[trigger] defs[i]).block.body,
        defs[i].block.params,
        st.descs,
    ) by {
        let k = choose|k: int| 0 <= k < n && #[trigger] st.defs[k] == defs[i];
        assert(drawn(st.defs[k].block.body, st.defs[k].block.params, st.descs));
    }
}

// --- how names are represented ---

proof fn lemma_all_reps(st: St, n: nat)
    ensures
        forall|x: Name| #[trigger] st.reps.contains_key(x) ==> all_reps(st, n).contains_key(x) && all_reps(st, n)[x]
            == st.reps[x],
        forall|x: Name| #[trigger]
            all_reps(st, n).contains_key(x) && !st.reps.contains_key(x) ==> all_reps(st, n)[x] == binder_rep(st, x),
    decreases n,
{
    if n > 0 && n <= st.bound.len() {
        lemma_all_reps(st, (n - 1) as nat);
    }
}

/// No descriptor of a lowered program needs one itself.
proof fn lemma_flat(kd: Kinds, p: CoreProgram, opt: OptLevel)
    requires
        well_formed(kd, p),
        numbered(p, opt),
    ensures
        flat(told(ended(p, opt).0)),
{
    lemma_ended(kd, p, opt);
    lemma_prepared(kd, p, opt);
    let st = ended(p, opt).0;
    let a = prepared(p, opt);
    let also = entry_labels(a, p.defs@, p.defs@.len());
    reveal(kept);
    assert(reps_ok(st)) by {
        reveal(okay);
    }
    lemma_all_reps(st, st.bound.len());
    let cx = told(st);
    assert forall|n: Name| #[trigger] cx.descs.contains(n) implies cx.desc_of(n) is None by {
        assert(st.reps.contains_key(n));
    }
    assert forall|n: Name| (#[trigger] cx.desc_of(n)) is Some implies cx.desc_of(cx.desc_of(n)->0) is None by {
        let d = cx.desc_of(n)->0;
        assert(st.descs.contains(d)) by {
            if !st.reps.contains_key(n) {
                assert(cx.reps[n] == binder_rep(st, n));
                assert(a.binder_reps.contains_key(n));
            }
        }
        assert(cx.descs.contains(d));
    }
}

// --- laws ---

/// A term lowered to answer `k`, in an environment that has `k`, what the labels it
/// mentions take, and the evidence if it needs any, uses only names it has: in the
/// statement it becomes, and in every definition written on the way. A descriptor it
/// selects may be missing: the descriptor pass brings those. A variable that is not there
/// is reported unbound, and used by no statement.
pub proof fn lowering_uses_what_it_has(kd: Kinds, st: St, e: Term, env: Seq<Name>, k: Name)
    requires
        okay(kd, st),
        tidy(kd, e),
        env.contains(k),
        supplied(st, e, env),
        needs_ev(st, e) ==> env.contains(st.ev),
        expr(st, e, env, k).0.next_name < LAST,
        forall|i: int|
            0 <= i < st.defs.len() ==> drawn((#[trigger] st.defs[i]).block.body, st.defs[i].block.params, st.descs),
    ensures
        drawn(expr(st, e, env, k).1, env, st.descs),
        ({
            let defs = expr(st, e, env, k).0.defs;
            forall|i: int|
                0 <= i < defs.len() ==> drawn((#[trigger] defs[i]).block.body, defs[i].block.params, st.descs)
        }),
{
    let ls = own(e);
    lemma_own(kd, e);
    assert(able(st, e, env, ls)) by {
        reveal(stocked);
        reveal(able);
    }
    assert(brought(st)) by {
        reveal(brought);
    }
    lemma_expr(kd, st, e, env, k, ls);
    lemma_went(kd, st, expr(st, e, env, k).0, ls);
    reveal(brought);
}

/// Every name a lowered program uses is in the environment where it uses it, and every
/// name it selects is, once the descriptors have been passed to the blocks that need them.
pub proof fn a_lowered_program_has_every_name_it_uses(kd: Kinds, p: CoreProgram, opt: OptLevel)
    requires
        well_formed(kd, p),
        numbered(p, opt),
    ensures
        ({
            let st = ended(p, opt).0;
            let defs = closed(described(st), in_order(st.defs, st.defs.len()));
            forall|i: int|
                0 <= i < defs.len() ==> drawn((#[trigger] defs[i]).block.body, defs[i].block.params, Set::empty())
        }),
{
    let st = ended(p, opt).0;
    lemma_ordered(kd, p, opt);
    lemma_ended_scoped(p, opt);
    closing_brings_every_descriptor(told(st), in_order(st.defs, st.defs.len()));
}

/// Wherever a lowered program can be stopped, every value's descriptor is where the value
/// is.
pub proof fn a_lowered_program_explains_every_value(kd: Kinds, p: CoreProgram, opt: OptLevel)
    requires
        well_formed(kd, p),
        numbered(p, opt),
    ensures
        ({
            let st = ended(p, opt).0;
            let defs = closed(described(st), in_order(st.defs, st.defs.len()));
            forall|i: int|
                0 <= i < defs.len() ==> explained(told(st), (#[trigger] defs[i]).block.params) && covered(
                    told(st),
                    defs[i].block.body,
                    defs[i].block.params,
                )
        }),
{
    let st = ended(p, opt).0;
    lemma_flat(kd, p, opt);
    lemma_ordered(kd, p, opt);
    lemma_ended_scoped(p, opt);
    closing_explains_every_value(told(st), in_order(st.defs, st.defs.len()));
}

} // verus!
