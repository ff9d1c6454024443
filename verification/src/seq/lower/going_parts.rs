//! How far lowering takes its state: terms started and finished, and groups of bindings.

use super::frame::PreV;
use super::reach::Kinds;
use super::scheme::{assemble, begin, ended, take_labels, BoundV, StepV};
use super::state::St;
use super::stride::{lemma_begin, lemma_quiet_on, longer, newly, quiet, same_at, tags_kept, LAST};
use super::went::{all_descs, lemma_label, lemma_on, lemma_quietly, lemma_stay, lemma_went, okay, went};
use crate::seq::ir::Name;
use crate::seq::view::{let_v, new_v, one_v, BlockV, ExternV, StmtV};
use crate::terms::prim::Lit;
use crate::terms::symbol::Sym;
use crate::terms::term::{Term, Var};
use vstd::prelude::*;

verus! {

/// A term started from where lowering is.
pub proof fn lemma_started(
    kd: Kinds,
    st: St,
    e: Term,
    env: Seq<Name>,
    keep: Seq<Name>,
    name: Option<Name>,
    p: PreV,
    ls: Set<Var>,
)
    requires
        went(kd, st, p.st, ls),
    ensures
        went(kd, st, begin(st, e, env, keep, name, p).0, ls),
{
    reveal(went);
    lemma_begin(st, e, env, keep, name, p);
    if !begin(st, e, env, keep, name, p).1.simple {
        lemma_quietly(kd, st, begin(st, e, env, keep, name, p).0, ls);
    }
}

pub proof fn lemma_finished(kd: Kinds, a: St, st: St, b: BoundV, body: StmtV, r: (St, StmtV), ls: Set<Var>)
    requires
        went(kd, a, st, ls),
        went(kd, st, r.0, ls),
    ensures
        went(kd, a, ended(st, b, body, r).0, ls),
{
    reveal(ended);
    lemma_on(kd, a, st, r.0, ls);
}

pub proof fn lemma_assemble(st: St, steps: Seq<StepV>, n: nat, stmt: StmtV)
    ensures
        quiet(st, assemble(st, steps, n, stmt).0),
    decreases n,
{
    if n > 0 && n <= steps.len() {
        match steps[n - 1] {
            StepV::Object(x, captures, method) => {
                lemma_assemble(st, steps, (n - 1) as nat, new_v(x, captures, method, stmt));
            },
            StepV::Key(x, sym, before) => {
                let s = one_v(ExternV::Lit(Lit::Sym(sym)), Seq::empty(), seq![x] + before, stmt);
                lemma_assemble(st, steps, (n - 1) as nat, s);
            },
            StepV::Entry(x, ctor, fields) => {
                let at = st.tagged(ctor);
                assert(quiet(st, at));
                let s = let_v(x, st.tag(ctor), ctor, fields, stmt);
                lemma_assemble(at, steps, (n - 1) as nat, s);
                lemma_quiet_on(st, at, assemble(at, steps, (n - 1) as nat, s).0);
            },
        }
    }
}

// --- a group of bindings ---

/// The first `n` of some labels.
pub open spec fn firsts(labels: Seq<u32>, n: nat) -> Set<u32> {
    Set::new(|l: u32| exists|i: int| 0 <= i < n && i < labels.len() && #[trigger] labels[i] == l)
}

/// From `a` to `b`, where the first `n` of `labels`, which were taken before, were written.
#[verifier::opaque]
pub open spec fn grouped(kd: Kinds, a: St, b: St, labels: Seq<u32>, n: nat, ls: Set<Var>) -> bool {
    &&& okay(kd, a)
    &&& okay(kd, b)
    &&& a.ev == b.ev
    &&& a.tscope == b.tscope
    &&& a.next_name <= b.next_name
    &&& a.next_label <= b.next_label
    &&& a.workers == b.workers
    &&& a.worker_ev == b.worker_ev
    &&& a.tylams == b.tylams
    &&& a.tyabs == b.tyabs
    &&& a.descs == b.descs
    &&& a.opt == b.opt
    &&& a.binder_reps == b.binder_reps
    &&& a.bound == b.bound
    &&& a.polys == b.polys
    &&& longer(a, b)
    &&& tags_kept(a, b)
    &&& forall|v: Var| !ls.contains(v) ==> #[trigger] same_at(a, b, v)
    &&& b.next_label < LAST && taken_before(labels, a.next_label) ==> newly(
        b.defs,
        a.defs.len(),
        a.next_label,
        b.next_label,
        firsts(labels, n),
    )
}

/// Labels that were taken before, no two the same.
pub open spec fn taken_before(labels: Seq<u32>, hi: u32) -> bool {
    &&& forall|i: int| 0 <= i < labels.len() ==> #[trigger] labels[i] < hi
    &&& forall|i: int, j: int| 0 <= i < j < labels.len() ==> #[trigger] labels[i] < #[trigger] labels[j]
}

pub proof fn lemma_no_group(kd: Kinds, st: St, labels: Seq<u32>, ls: Set<Var>)
    requires
        okay(kd, st),
    ensures
        grouped(kd, st, st, labels, 0, ls),
{
    reveal(grouped);
}

pub proof fn lemma_grouped(kd: Kinds, a: St, b: St, labels: Seq<u32>, n: nat, ls: Set<Var>)
    requires
        grouped(kd, a, b, labels, n, ls),
    ensures
        okay(kd, b),
        a.ev == b.ev,
        a.tscope == b.tscope,
        a.next_name <= b.next_name,
        forall|v: Var| !ls.contains(v) ==> #[trigger] same_at(a, b, v),
        a.workers == b.workers,
        a.worker_ev == b.worker_ev,
        a.descs == b.descs,
        a.tylams == b.tylams,
{
    reveal(grouped);
}

pub proof fn lemma_one_more(
    kd: Kinds,
    a: St,
    b: St,
    c: St,
    labels: Seq<u32>,
    n: nat,
    name: Sym,
    block: BlockV,
    ls: Set<Var>,
)
    requires
        0 < n <= labels.len(),
        grouped(kd, a, b, labels, (n - 1) as nat, ls),
        went(kd, b, c, ls),
    ensures
        grouped(kd, a, c.wrote(labels[n - 1], name, block), labels, n, ls),
{
    reveal(grouped);
    reveal(went);
    let d = c.wrote(labels[n - 1], name, block);
    lemma_wrote_okay(kd, c, labels[n - 1], name, block);
    assert forall|v: Var| !ls.contains(v) implies #[trigger] same_at(a, d, v) by {
        assert(same_at(a, b, v));
        assert(same_at(b, c, v));
    }
    assert(longer(a, d)) by {
        assert forall|i: int| 0 <= i < a.defs.len() implies #[trigger] d.defs[i] == a.defs[i] by {
            assert(b.defs[i] == a.defs[i]);
            assert(c.defs[i] == b.defs[i]);
        }
    }
    if d.next_label < LAST && taken_before(labels, a.next_label) {
        let (was, now) = (firsts(labels, (n - 1) as nat), firsts(labels, n));
        assert(now.contains(labels[n - 1]));
        assert forall|l: u32| was.contains(l) implies now.contains(l) && l < a.next_label && l != labels[n - 1] by {
            let i = choose|i: int| 0 <= i < n - 1 && i < labels.len() && #[trigger] labels[i] == l;
            assert(labels[i] < labels[n - 1]);
        }
        let m = a.defs.len();
        assert forall|i: int| m <= i < d.defs.len() implies a.next_label <= (#[trigger] d.defs[i]).label.0 < d.next_label
            || now.contains(d.defs[i].label.0) by {
            if i < b.defs.len() {
                assert(c.defs[i] == b.defs[i]);
            } else if i < c.defs.len() {
                assert(d.defs[i] == c.defs[i]);
            }
        }
        assert forall|i: int, j: int| m <= i < j < d.defs.len() implies (#[trigger] d.defs[i]).label.0 != (#[trigger]
        d.defs[j]).label.0 by {
            if i < b.defs.len() {
                assert(c.defs[i] == b.defs[i]);
            }
            if j < b.defs.len() {
                assert(c.defs[j] == b.defs[j]);
            }
            if i < c.defs.len() {
                assert(d.defs[i] == c.defs[i]);
            }
            if j < c.defs.len() {
                assert(d.defs[j] == c.defs[j]);
            }
            assert(labels[n - 1] < a.next_label);
        }
    }
}

proof fn lemma_wrote_okay(kd: Kinds, st: St, label: u32, name: Sym, block: BlockV)
    requires
        okay(kd, st),
    ensures
        okay(kd, st.wrote(label, name, block)),
{
    reveal(okay);
    let s = st.wrote(label, name, block);
    assert(all_descs(s, s.tscope)) by {
        assert(all_descs(st, st.tscope));
    }
    assert forall|id: u32| #[trigger] s.tylams.contains_key(id) implies all_descs(s, s.tylams[id]) by {
        assert(all_descs(st, st.tylams[id]));
    }
}

pub proof fn lemma_take_labels(kd: Kinds, st: St, n: nat, ls: Set<Var>)
    requires
        okay(kd, st),
    ensures
        went(kd, st, take_labels(st, n).0, ls),
        take_labels(st, n).1.len() == n,
        take_labels(st, n).0.defs == st.defs,
        take_labels(st, n).0.next_label < LAST ==> taken_before(take_labels(st, n).1, take_labels(st, n).0.next_label)
            && forall|i: int| 0 <= i < n ==> #[trigger] take_labels(st, n).1[i] >= st.next_label,
    decreases n,
{
    if n == 0 {
        lemma_stay(kd, st, ls);
    } else {
        lemma_take_labels(kd, st, (n - 1) as nat, ls);
        let (st1, l1) = take_labels(st, (n - 1) as nat);
        lemma_went(kd, st, st1, ls);
        lemma_label(kd, st1, ls);
        lemma_on(kd, st, st1, st1.fresh_label(), ls);
    }
}

pub proof fn lemma_group_done(kd: Kinds, st: St, st1: St, st2: St, st3: St, labels: Seq<u32>, n: nat, ls: Set<Var>)
    requires
        went(kd, st, st1, ls),
        went(kd, st1, st2, ls),
        st1.defs == st.defs,
        st2.defs == st.defs,
        st2.next_label == st1.next_label,
        grouped(kd, st2, st3, labels, n, ls),
        n == labels.len(),
        st1.next_label < LAST ==> taken_before(labels, st1.next_label) && forall|i: int|
            0 <= i < labels.len() ==> #[trigger] labels[i] >= st.next_label,
    ensures
        went(kd, st, st3, ls),
{
    reveal(went);
    reveal(grouped);
    assert forall|v: Var| !ls.contains(v) implies #[trigger] same_at(st, st3, v) by {
        assert(same_at(st, st1, v));
        assert(same_at(st1, st2, v));
        assert(same_at(st2, st3, v));
    }
    if st3.next_label < LAST {
        let m = st.defs.len();
        assert forall|i: int| m <= i < st3.defs.len() implies st.next_label <= (#[trigger] st3.defs[i]).label.0
            < st3.next_label || Set::<u32>::empty().contains(st3.defs[i].label.0) by {
            let l = st3.defs[i].label.0;
            if firsts(labels, n).contains(l) {
                let k = choose|k: int| 0 <= k < n && k < labels.len() && #[trigger] labels[k] == l;
                assert(labels[k] >= st.next_label);
                assert(labels[k] < st1.next_label);
            }
        }
    }
}

} // verus!
