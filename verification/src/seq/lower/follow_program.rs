//! Every block lowering writes names the whole environment it is entered in:
//! a program and its definitions.

use super::follow::lemma_expr;
use super::frame::plugged;
use super::live::needs_ev;
use super::program::{
    all_reps, begun, def_at, def_descs, described, ended, ev_round, ev_settled, generic_entry, in_order,
    lower_block, lower_defs, lower_worker, name_workers, placed, runtime_tags, scan_defs, under_if_abs,
    RUNTIME_CTORS,
};
use super::scheme::{expr, seconds, with_descs};
use super::shape::{lam_params, under_lams};
use super::state::{OptLevel, St};
use super::survey::lemma_scan_defs;
use super::types::described_args;
use super::whole::{all_scoped, lemma_plugged, lemma_with_descs, lemma_wrote, sound};
use crate::seq::balance::{
    balanced, closing_keeps_naming_the_environment, lemma_built_in, lemma_goto, lemma_scoped_is_balanced, scoped,
};
use crate::seq::describe::{closed, Known, MOST};
use crate::seq::ir::{Label, Name};
use crate::seq::view::{jump_v, let_v, BlockV, DefV};
use crate::terms::symbol;
use crate::terms::term::{CoreDef, CoreProgram, Term, Var};
use vstd::prelude::*;

verus! {

/// A term lowered to answer `k` names the whole of the environment it is lowered
/// in, whatever that is, and so does every block written on the way.
pub proof fn lowering_names_the_whole_environment(st: St, e: Term, env: Seq<Name>, k: Name)
    requires
        sound(st),
    ensures
        scoped(expr(st, e, env, k).1, env),
        sound(expr(st, e, env, k).0),
{
    lemma_expr(st, e, env, k);
}

// --- what walking a program leaves alone ---

proof fn lemma_name_workers(st: St, defs: Seq<CoreDef>, n: nat)
    ensures
        name_workers(st, defs, n).defs == st.defs,
    decreases n,
{
    if n > 0 && n <= defs.len() {
        lemma_name_workers(st, defs, (n - 1) as nat);
    }
}

proof fn lemma_ev_round(st: St, defs: Seq<CoreDef>, n: nat)
    ensures
        ev_round(st, defs, n).defs == st.defs,
    decreases n,
{
    if n > 0 && n <= defs.len() {
        lemma_ev_round(st, defs, (n - 1) as nat);
    }
}

proof fn lemma_ev_settled(st: St, defs: Seq<CoreDef>, most: nat)
    ensures
        ev_settled(st, defs, most).defs == st.defs,
    decreases most,
{
    if most > 0 {
        lemma_ev_round(st, defs, defs.len());
        lemma_ev_settled(ev_round(st, defs, defs.len()), defs, (most - 1) as nat);
    }
}

proof fn lemma_runtime_tags(st: St, n: nat)
    ensures
        runtime_tags(st, n).defs == st.defs,
    decreases n,
{
    if n > 0 {
        lemma_runtime_tags(st, (n - 1) as nat);
    }
}

// --- what it writes ---

proof fn lemma_block(st: St, d: CoreDef, label: u32)
    requires
        sound(st),
    ensures
        sound(lower_block(st, d, label)),
{
    let descs = def_descs(st, d.term);
    let t = under_if_abs(d.term);
    let st0 = St { tscope: descs, ..st };
    let k = st0.next_name;
    let st1 = st0.function_return();
    let params = seconds(descs).push(k);
    let ev = st1.next_name;
    lemma_expr(st1, t, params, k);
    lemma_expr(st1.fresh_ref().with_ev(ev), t, seq![ev] + params, k);
    let (st3, b) = expr(st1.fresh_ref().with_ev(ev), t, seq![ev] + params, k);
    let started = let_v(ev, st3.tag(symbol::EV_NONE), symbol::EV_NONE, Seq::empty(), b);
    lemma_built_in(ev, st3.tag(symbol::EV_NONE), symbol::EV_NONE, Seq::empty(), b, params);
    let (st2, body) = if needs_ev(st1, t) {
        (st3.tagged(symbol::EV_NONE), started)
    } else {
        expr(st1, t, params, k)
    };
    lemma_wrote(st2, label, d.name, BlockV { params, body });
}

proof fn lemma_worker(st: St, d: CoreDef)
    requires
        sound(st),
    ensures
        sound(lower_worker(st, d)),
{
    let k = st.next_name;
    let st1 = st.function_return();
    let ev = st1.next_name;
    let st2 = st1.fresh_ref().with_ev(ev);
    let plain = (seconds(def_descs(st, d.term)) + lam_params(d.term)).push(k);
    let params = if st2.worker_ev.contains(d.var) {
        plain.push(ev)
    } else {
        plain
    };
    lemma_expr(st2, under_lams(d.term), params, k);
    let (st3, body) = expr(st2, under_lams(d.term), params, k);
    lemma_wrote(st3, st.workers[d.var].0, d.name, BlockV { params, body });
}

proof fn lemma_defs(st: St, defs: Seq<CoreDef>, n: nat)
    requires
        sound(st),
    ensures
        sound(lower_defs(st, defs, n)),
    decreases n,
{
    if n > 0 && n <= defs.len() {
        lemma_defs(st, defs, (n - 1) as nat);
        let st0 = lower_defs(st, defs, (n - 1) as nat);
        lemma_block(st0, defs[n - 1], (n - 1) as u32);
        lemma_worker(lower_block(st0, defs[n - 1], (n - 1) as u32), defs[n - 1]);
    }
}

proof fn lemma_generic_entry(st: St, defs: Seq<CoreDef>, entry: Var)
    requires
        sound(st),
    ensures
        generic_entry(st, defs, entry) is Some ==> sound(generic_entry(st, defs, entry)->0),
{
    let i = def_at(defs, entry, 0);
    if i < defs.len() {
        if let Some(tys) = described_args(st, defs[i as int].var, None) {
            let st1 = st.fresh_label();
            let k = st1.next_name;
            let st2 = st1.function_return();
            lemma_with_descs(st2, tys, tys.len(), seq![k]);
            let d = with_descs(st2, tys, tys.len(), seq![k]);
            lemma_goto(d.done.push(k), Label(i as u32), d.env);
            let go = jump_v(d.done.push(k), Label(i as u32));
            lemma_plugged(d.frames, go, seq![k], d.env);
            let block = BlockV { params: seq![k], body: plugged(d.frames, go) };
            lemma_wrote(d.st, st.next_label, defs[i as int].name, block);
        }
    }
}

proof fn lemma_ended(p: CoreProgram, opt: OptLevel)
    ensures
        sound(ended(p, opt).0),
{
    let defs = p.defs@;
    assert(all_scoped(Seq::<DefV>::empty())) by {
        reveal(all_scoped);
    }
    lemma_scan_defs(begun(p, opt), defs, defs.len());
    let st0 = scan_defs(begun(p, opt), defs, defs.len());
    let st1 = st0.fresh_ref().with_ev(st0.next_name).tagged(symbol::EV_NONE);
    lemma_name_workers(st1, defs, defs.len());
    lemma_ev_settled(name_workers(st1, defs, defs.len()), defs, MOST as nat);
    let st2 = ev_settled(name_workers(st1, defs, defs.len()), defs, MOST as nat);
    lemma_defs(st2, defs, defs.len());
    let st3 = lower_defs(st2, defs, defs.len());
    if let Some(v) = p.entry {
        lemma_generic_entry(st3, defs, v);
        if let Some(st) = generic_entry(st3, defs, v) {
            lemma_runtime_tags(st, RUNTIME_CTORS as nat);
        }
    }
    lemma_runtime_tags(st3, RUNTIME_CTORS as nat);
}

proof fn lemma_placed(s: Seq<DefV>, d: DefV)
    requires
        all_scoped(s),
        scoped(d.block.body, d.block.params),
    ensures
        all_scoped(placed(s, d)),
    decreases s.len(),
{
    reveal(all_scoped);
    if s.len() > 0 && s.last().label.0 > d.label.0 {
        lemma_placed(s.drop_last(), d);
    }
}

proof fn lemma_in_order(s: Seq<DefV>, n: nat)
    requires
        all_scoped(s),
    ensures
        all_scoped(in_order(s, n)),
    decreases n,
{
    reveal(all_scoped);
    if n > 0 && n <= s.len() {
        lemma_in_order(s, (n - 1) as nat);
        lemma_placed(in_order(s, (n - 1) as nat), s[n - 1]);
    }
}

/// Every block of a lowered program, with the descriptors passed to the blocks that need
/// them, names the whole environment it is entered in.
pub proof fn a_program_names_the_whole_environment(p: CoreProgram, opt: OptLevel)
    ensures
        ({
            let st = ended(p, opt).0;
            let defs = closed(described(st), in_order(st.defs, st.defs.len()));
            forall|i: int|
                0 <= i < defs.len() ==> scoped((#[trigger] defs[i]).block.body, defs[i].block.params)
        }),
{
    let st = ended(p, opt).0;
    lemma_ended_scoped(p, opt);
    closing_keeps_naming_the_environment(described(st), in_order(st.defs, st.defs.len()));
}

/// Every substitution of a lowered program gives as many values as its block takes.
pub proof fn a_lowered_program_is_balanced(p: CoreProgram, opt: OptLevel)
    ensures
        ({
            let st = ended(p, opt).0;
            let defs = closed(described(st), in_order(st.defs, st.defs.len()));
            forall|i: int| 0 <= i < defs.len() ==> balanced((#[trigger] defs[i]).block.body)
        }),
{
    a_program_names_the_whole_environment(p, opt);
    let st = ended(p, opt).0;
    let defs = closed(described(st), in_order(st.defs, st.defs.len()));
    assert forall|i: int| 0 <= i < defs.len() implies balanced((#[trigger] defs[i]).block.body) by {
        lemma_scoped_is_balanced(defs[i].block.body, defs[i].block.params);
    }
}

/// What the descriptor pass is told of a lowered program.
pub open spec fn told(st: St) -> Known {
    Known { reps: all_reps(st, st.bound.len()), descs: st.descs, extra: Map::empty() }
}

/// Every definition of a lowered program, before the pass, in the order of labels.
pub proof fn lemma_ended_scoped(p: CoreProgram, opt: OptLevel)
    ensures
        ({
            let st = ended(p, opt).0;
            let defs = in_order(st.defs, st.defs.len());
            forall|i: int|
                0 <= i < defs.len() ==> scoped((#[trigger] defs[i]).block.body, defs[i].block.params)
        }),
{
    let st = ended(p, opt).0;
    lemma_ended(p, opt);
    lemma_in_order(st.defs, st.defs.len());
    reveal(all_scoped);
}

} // verus!
