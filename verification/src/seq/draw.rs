//! Every name a statement selects or uses is in the environment it is entered in: what
//! the descriptor pass does to that.

use super::balance::scoped;
use super::cover::{
    lemma_both, lemma_bound, lemma_front, lemma_missing, lemma_need_arms, lemma_need_blocks, lemma_put_selected,
    lemma_put_whole, lemma_still, lemma_widened, within,
};
use super::describe::{
    arms_of, bound, closed, continuation, continuations, continued, methods_of, missing, need, need_arms,
    need_blocks, put_selected, rewrite, rewritten, round, settled, stirs, transfer, widened, Known, MOST,
};
use super::ir::{Label, Loc, Name, Tag};
use super::settle::{labels_differ, the_descriptor_pass_settles};
use super::view::{
    enter_v, invoke_v, jump_v, let_v, new_v, one_v, ret_v, sub_v, switch_v, two_v, BlockV, DefV, ExternV, StmtV,
};
use crate::terms::symbol::Sym;
use vstd::prelude::*;

verus! {

/// All of `xs` are in `env`, or among `also`.
pub open spec fn found(xs: Seq<Name>, env: Seq<Name>, also: Set<Name>) -> bool {
    forall|x: Name| #[trigger] xs.contains(x) ==> env.contains(x) || also.contains(x)
}

/// Every name a statement entered in `env` uses is in the environment where it does, and
/// so is every name it selects, but for those of `also`.
#[verifier::opaque]
pub open spec fn drawn(s: StmtV, env: Seq<Name>, also: Set<Name>) -> bool
    decreases s,
{
    match s {
        StmtV::Substitute(sel, b) => found(sel, env, also) && drawn(b.body, b.params, also),
        StmtV::Jump(_) | StmtV::Error(_) => true,
        StmtV::Invoke(f, _) => env.contains(f),
        StmtV::Let { name, fields, rest, .. } => within(fields, env) && drawn(*rest, seq![name] + env, also),
        StmtV::Switch { scrutinee, arms, default } => {
            &&& env.contains(scrutinee)
            &&& drawn(default.body, default.params, also)
            &&& forall|i: int| 0 <= i < arms.len() ==> drawn((#[trigger] arms[i]).1.body, arms[i].1.params, also)
        },
        StmtV::New { name, captures, methods, rest } => {
            &&& within(captures, env)
            &&& drawn(*rest, seq![name] + env, also)
            &&& forall|i: int| 0 <= i < methods.len() ==> drawn((#[trigger] methods[i]).body, methods[i].params, also)
        },
        StmtV::Extern { args, blocks, .. } => within(args, env) && forall|i: int|
            0 <= i < blocks.len() ==> drawn((#[trigger] blocks[i]).body, blocks[i].params, also),
        StmtV::Mark(_, inner) => drawn(*inner, env, also),
    }
}

// --- statements put together ---

pub proof fn lemma_draw_invoke(sel: Seq<Name>, f: Name, env: Seq<Name>, also: Set<Name>)
    requires
        sel.len() > 0,
        sel[0] == f,
        found(sel, env, also),
    ensures
        drawn(invoke_v(sel, f), env, also),
{
    reveal_with_fuel(drawn, 2);
    assert(sel.contains(sel[0]));
}

pub proof fn lemma_draw_enter(f: Name, env: Seq<Name>, also: Set<Name>)
    requires
        env.contains(f),
    ensures
        drawn(enter_v(f), env, also),
{
    lemma_draw_invoke(seq![f], f, env, also);
}

pub proof fn lemma_draw_ret(k: Name, x: Name, env: Seq<Name>, also: Set<Name>)
    requires
        env.contains(k),
        env.contains(x),
    ensures
        drawn(ret_v(k, x), env, also),
{
    lemma_draw_invoke(seq![k, x], k, env, also);
}

pub proof fn lemma_draw_goto(sel: Seq<Name>, label: Label, env: Seq<Name>, also: Set<Name>)
    requires
        found(sel, env, also),
    ensures
        drawn(jump_v(sel, label), env, also),
{
    reveal_with_fuel(drawn, 2);
}

pub proof fn lemma_draw_sub(sel: Seq<Name>, params: Seq<Name>, body: StmtV, env: Seq<Name>, also: Set<Name>)
    requires
        found(sel, env, also),
        drawn(body, params, also),
    ensures
        drawn(sub_v(sel, params, body), env, also),
{
    reveal_with_fuel(drawn, 2);
}

/// A jump right behind a substitution.
pub proof fn lemma_draw_arranged(sel: Seq<Name>, params: Seq<Name>, label: Label, env: Seq<Name>, also: Set<Name>)
    requires
        found(sel, env, also),
    ensures
        drawn(sub_v(sel, params, StmtV::Jump(label)), env, also),
{
    reveal_with_fuel(drawn, 2);
}

pub proof fn lemma_draw_let(
    name: Name,
    tag: Tag,
    ctor: Sym,
    fields: Seq<Name>,
    rest: StmtV,
    env: Seq<Name>,
    also: Set<Name>,
)
    requires
        within(fields, env),
        drawn(rest, seq![name] + env, also),
    ensures
        drawn(let_v(name, tag, ctor, fields, rest), env, also),
{
    reveal_with_fuel(drawn, 2);
}

pub proof fn lemma_draw_mark(loc: Loc, body: StmtV, env: Seq<Name>, also: Set<Name>)
    requires
        drawn(body, env, also),
    ensures
        drawn(StmtV::Mark(loc, Box::new(body)), env, also),
{
    reveal_with_fuel(drawn, 2);
}

pub proof fn lemma_draw_error(env: Seq<Name>, also: Set<Name>)
    ensures
        forall|m: Seq<char>| #[trigger] drawn(StmtV::Error(m), env, also),
{
    reveal_with_fuel(drawn, 2);
}

pub proof fn lemma_draw_switch(
    x: Name,
    arms: Seq<(Tag, BlockV)>,
    env: Seq<Name>,
    otherwise: StmtV,
    at: Seq<Name>,
    also: Set<Name>,
)
    requires
        at.contains(x),
        drawn(otherwise, env, also),
        forall|i: int| 0 <= i < arms.len() ==> drawn((#[trigger] arms[i]).1.body, arms[i].1.params, also),
    ensures
        drawn(switch_v(x, arms, env, otherwise), at, also),
{
    reveal_with_fuel(drawn, 2);
}

pub proof fn lemma_draw_one(
    op: ExternV,
    args: Seq<Name>,
    params: Seq<Name>,
    body: StmtV,
    env: Seq<Name>,
    also: Set<Name>,
)
    requires
        within(args, env),
        drawn(body, params, also),
    ensures
        drawn(one_v(op, args, params, body), env, also),
{
    reveal_with_fuel(drawn, 2);
}

pub proof fn lemma_draw_two(
    op: ExternV,
    args: Seq<Name>,
    env: Seq<Name>,
    no: StmtV,
    yes: StmtV,
    also: Set<Name>,
)
    requires
        within(args, env),
        drawn(no, env, also),
        drawn(yes, env, also),
    ensures
        drawn(two_v(op, args, env, no, yes), env, also),
{
    reveal_with_fuel(drawn, 2);
}

pub proof fn lemma_draw_object(
    name: Name,
    captures: Seq<Name>,
    method: BlockV,
    rest: StmtV,
    env: Seq<Name>,
    also: Set<Name>,
)
    requires
        within(captures, env),
        drawn(method.body, method.params, also),
        drawn(rest, seq![name] + env, also),
    ensures
        drawn(new_v(name, captures, method, rest), env, also),
{
    reveal_with_fuel(drawn, 2);
}

proof fn lemma_transfer_drawn(s: StmtV, env: Seq<Name>, more: Seq<Name>, a: Set<Name>, b: Set<Name>)
    requires
        transfer(s) is Some,
        drawn(s, env, a),
        within(env, more),
    ensures
        drawn(s, more, b),
    decreases s,
{
    reveal_with_fuel(drawn, 2);
    if let StmtV::Mark(_, inner) = s {
        lemma_transfer_drawn(*inner, env, more, a, b);
    }
}

proof fn lemma_under(cx: Known, name: Name, inner: Seq<Name>, wants: Seq<Name>, old: Seq<Name>, new: Seq<Name>)
    requires
        within(old, new),
        within(wants, new),
        within(bound(cx, name, inner), wants),
    ensures
        within(seq![name] + old, seq![name] + new),
        within(inner, seq![name] + new),
{
    lemma_bound(cx, name, inner);
    lemma_front(name, old);
    lemma_front(name, new);
}

proof fn lemma_behind(cx: Known, b: BlockV, front: Seq<Name>, wants: Seq<Name>, old: Seq<Name>, new: Seq<Name>)
    requires
        within(old, new),
        within(wants, new),
        b.params == front + old,
        within(missing(cx, b), wants),
    ensures
        continued(b.params, old, new) == front + new,
        within(b.params, front + new),
        within(need(cx, b.body), front + new),
{
    lemma_missing(cx, b);
    lemma_both(front, old);
    lemma_both(front, new);
    assert(b.params.take(b.params.len() - old.len()) =~= front);
}

proof fn lemma_rewrite(cx: Known, s: StmtV, old: Seq<Name>, new: Seq<Name>)
    requires
        scoped(s, old),
        drawn(s, old, cx.descs),
        within(old, new),
        within(need(cx, s), new),
    ensures
        drawn(rewrite(cx, s, old, new), new, Set::empty()),
    decreases s, 1nat,
{
    reveal_with_fuel(scoped, 2);
    reveal_with_fuel(drawn, 2);
    let none = Set::<Name>::empty();
    match s {
        StmtV::Mark(_, inner) => {
            lemma_rewrite(cx, *inner, old, new);
        },
        StmtV::Substitute(sel, b) => {
            lemma_substitute(cx, s, old, new);
        },
        StmtV::Let { name, rest, .. } => {
            lemma_under(cx, name, need(cx, *rest), need(cx, s), old, new);
            lemma_rewrite(cx, *rest, seq![name] + old, seq![name] + new);
        },
        StmtV::New { name, captures, methods, rest } => {
            let add = need_blocks(cx, methods, methods.len());
            lemma_put_whole(add, bound(cx, name, need(cx, *rest)));
            lemma_under(cx, name, need(cx, *rest), need(cx, s), old, new);
            lemma_rewrite(cx, *rest, seq![name] + old, seq![name] + new);
            lemma_need_blocks(cx, methods, methods.len());
            lemma_both(captures, add);
            assert forall|x: Name| #[trigger] (captures + add).contains(x) implies new.contains(x) by {
                if add.contains(x) {
                    assert(need(cx, s).contains(x));
                } else {
                    assert(old.contains(x));
                }
            }
            assert(decreases_to!(s => methods));
            lemma_methods(cx, methods, methods.len(), captures, add);
        },
        StmtV::Extern { op, blocks, .. } => {
            lemma_need_blocks(cx, blocks, blocks.len());
            let more: nat = if op.branches() {
                0
            } else {
                1
            };
            assert forall|i: int| 0 <= i < blocks.len() implies (#[trigger] blocks[i]).params.len() == old.len() + more
                && blocks[i].params.skip(more as int) == old by {
                assert(blocks[i].params.skip(0) =~= blocks[i].params);
            }
            assert(decreases_to!(s => blocks));
            lemma_blocks(cx, blocks, blocks.len(), more, need(cx, s), old, new);
        },
        StmtV::Switch { arms, default, .. } => {
            lemma_put_whole(need_arms(cx, arms, arms.len()), missing(cx, *default));
            lemma_need_arms(cx, arms, arms.len());
            assert(decreases_to!(s => arms));
            lemma_arms(cx, arms, arms.len(), need(cx, s), old, new);
            let front = Seq::<Name>::empty();
            assert(default.params =~= front + old);
            lemma_behind(cx, *default, front, need(cx, s), old, new);
            assert(front + new =~= new);
            lemma_rewrite(cx, default.body, default.params, new);
            let otherwise = continuation(cx, *default, old, new);
            assert(otherwise.params == new);
            assert(otherwise.body == rewrite(cx, default.body, default.params, new));
        },
        _ => {},
    }
}

proof fn lemma_substitute(cx: Known, s: StmtV, old: Seq<Name>, new: Seq<Name>)
    requires
        s is Substitute,
        scoped(s, old),
        drawn(s, old, cx.descs),
        within(old, new),
        within(need(cx, s), new),
    ensures
        drawn(rewrite(cx, s, old, new), new, Set::empty()),
    decreases s, 0nat,
{
    reveal_with_fuel(scoped, 2);
    reveal_with_fuel(drawn, 2);
    let none = Set::<Name>::empty();
    if let StmtV::Substitute(sel, b) = s {
        let out = put_selected(cx, Seq::empty(), sel, sel.len());
        lemma_put_selected(cx, Seq::empty(), sel, sel.len());
        match transfer(b.body) {
            Some(Some(l)) => {
                lemma_put_whole(out, cx.gained(l));
            },
            Some(None) => {},
            None => {
                lemma_put_whole(out, missing(cx, *b));
            },
        }
        assert forall|x: Name| #[trigger] out.contains(x) implies new.contains(x) by {
            assert(need(cx, s).contains(x));
        }
        assert forall|x: Name| #[trigger] sel.contains(x) implies new.contains(x) by {
            if !old.contains(x) {
                assert(cx.descs.contains(sel[sel.index_of(x)]));
            }
        }
        match transfer(b.body) {
            Some(Some(l)) => {
                lemma_both(sel, cx.gained(l));
                lemma_both(b.params, cx.gained(l));
                assert forall|x: Name| #[trigger] (sel + cx.gained(l)).contains(x) implies new.contains(x) by {
                    if cx.gained(l).contains(x) {
                        assert(need(cx, s).contains(x));
                    }
                }
                lemma_transfer_drawn(b.body, b.params, b.params + cx.gained(l), cx.descs, none);
            },
            Some(None) => {
                lemma_transfer_drawn(b.body, b.params, b.params, cx.descs, none);
            },
            None => {
                let add = missing(cx, *b);
                lemma_both(sel, add);
                lemma_both(b.params, add);
                assert forall|x: Name| #[trigger] (sel + add).contains(x) implies new.contains(x) by {
                    if add.contains(x) {
                        assert(need(cx, s).contains(x));
                    }
                }
                lemma_missing(cx, *b);
                lemma_rewrite(cx, b.body, b.params, b.params + add);
            },
        }
    }
}

proof fn lemma_methods(cx: Known, ms: Seq<BlockV>, n: nat, captures: Seq<Name>, add: Seq<Name>)
    requires
        n <= ms.len(),
        forall|i: int|
            0 <= i < ms.len() ==> captures.is_prefix_of((#[trigger] ms[i]).params) && scoped(ms[i].body, ms[i].params)
                && drawn(ms[i].body, ms[i].params, cx.descs) && within(missing(cx, ms[i]), add),
    ensures
        methods_of(cx, ms, n, captures.len(), add).len() == n,
        forall|i: int|
            0 <= i < n ==> drawn(
                (#[trigger] methods_of(cx, ms, n, captures.len(), add)[i]).body,
                methods_of(cx, ms, n, captures.len(), add)[i].params,
                Set::empty(),
            ),
    decreases ms, n,
{
    if n > 0 {
        lemma_methods(cx, ms, (n - 1) as nat, captures, add);
        let m = ms[n - 1];
        lemma_widened(m.params, captures, add);
        lemma_missing(cx, m);
        assert(decreases_to!(ms => ms[n - 1]));
        lemma_rewrite(cx, m.body, m.params, widened(m.params, captures.len(), add));
    }
}

proof fn lemma_blocks(
    cx: Known,
    bs: Seq<BlockV>,
    n: nat,
    more: nat,
    wants: Seq<Name>,
    old: Seq<Name>,
    new: Seq<Name>,
)
    requires
        n <= bs.len(),
        within(old, new),
        within(wants, new),
        forall|i: int|
            0 <= i < bs.len() ==> (#[trigger] bs[i]).params.len() == old.len() + more && bs[i].params.skip(
                more as int,
            ) == old && scoped(bs[i].body, bs[i].params) && drawn(bs[i].body, bs[i].params, cx.descs) && within(
                missing(cx, bs[i]),
                wants,
            ),
    ensures
        continuations(cx, bs, n, old, new).len() == n,
        forall|i: int|
            0 <= i < n ==> drawn(
                (#[trigger] continuations(cx, bs, n, old, new)[i]).body,
                continuations(cx, bs, n, old, new)[i].params,
                Set::empty(),
            ),
    decreases bs, n,
{
    if n > 0 {
        lemma_blocks(cx, bs, (n - 1) as nat, more, wants, old, new);
        let b = bs[n - 1];
        let front = b.params.take(more as int);
        assert(b.params =~= front + old);
        lemma_behind(cx, b, front, wants, old, new);
        assert(decreases_to!(bs => bs[n - 1]));
        lemma_rewrite(cx, b.body, b.params, front + new);
        let before = continuations(cx, bs, (n - 1) as nat, old, new);
        assert(continuations(cx, bs, n, old, new) == before.push(continuation(cx, b, old, new)));
    }
}

proof fn lemma_arms(cx: Known, arms: Seq<(Tag, BlockV)>, n: nat, wants: Seq<Name>, old: Seq<Name>, new: Seq<Name>)
    requires
        n <= arms.len(),
        within(old, new),
        within(wants, new),
        forall|i: int|
            0 <= i < arms.len() ==> old.is_suffix_of((#[trigger] arms[i]).1.params) && scoped(
                arms[i].1.body,
                arms[i].1.params,
            ) && drawn(arms[i].1.body, arms[i].1.params, cx.descs) && within(missing(cx, arms[i].1), wants),
    ensures
        arms_of(cx, arms, n, old, new).len() == n,
        forall|i: int|
            0 <= i < n ==> drawn(
                (#[trigger] arms_of(cx, arms, n, old, new)[i]).1.body,
                arms_of(cx, arms, n, old, new)[i].1.params,
                Set::empty(),
            ),
    decreases arms, n,
{
    if n > 0 {
        lemma_arms(cx, arms, (n - 1) as nat, wants, old, new);
        let b = arms[n - 1].1;
        assert(old.is_suffix_of(arms[n - 1].1.params));
        let front = b.params.take(b.params.len() - old.len());
        assert(b.params =~= front + old);
        lemma_behind(cx, b, front, wants, old, new);
        assert(decreases_to!(arms => arms[n - 1]));
        lemma_rewrite(cx, b.body, b.params, front + new);
        let before = arms_of(cx, arms, (n - 1) as nat, old, new);
        assert(arms_of(cx, arms, n, old, new) == before.push((arms[n - 1].0, continuation(cx, b, old, new))));
    }
}

/// Where every name a program selects was in the environment or a descriptor, and every
/// other name it uses was there, every name is there once the pass has passed the
/// descriptors on.
pub proof fn closing_brings_every_descriptor(cx: Known, defs: Seq<DefV>)
    requires
        cx.extra == Map::<u32, Seq<Name>>::empty(),
        labels_differ(defs),
        defs.len() <= u32::MAX,
        forall|i: int|
            0 <= i < defs.len() ==> scoped((#[trigger] defs[i]).block.body, defs[i].block.params) && drawn(
                defs[i].block.body,
                defs[i].block.params,
                cx.descs,
            ),
    ensures
        ({
            let out = closed(settled(cx, defs, MOST as nat), defs);
            forall|i: int|
                0 <= i < out.len() ==> drawn(
                    (#[trigger] out[i]).block.body,
                    out[i].block.params,
                    Set::empty(),
                )
        }),
{
    the_descriptor_pass_settles(cx, defs);
    let known = settled(cx, defs, MOST as nat);
    lemma_settled_descs(cx, defs, MOST as nat);
    let out = closed(known, defs);
    assert forall|i: int| 0 <= i < out.len() implies drawn(
        (#[trigger] out[i]).block.body,
        out[i].block.params,
        Set::empty(),
    ) by {
        let d = defs[i];
        assert(scoped(defs[i].block.body, defs[i].block.params));
        lemma_still(known, defs, defs.len(), i);
        let add = known.gained(d.label);
        lemma_both(d.block.params, add);
        lemma_missing(known, d.block);
        lemma_rewrite(known, d.block.body, d.block.params, d.block.params + add);
        assert(out[i] == rewritten(known, d));
    }
}

proof fn lemma_settled_descs(cx: Known, defs: Seq<DefV>, most: nat)
    ensures
        settled(cx, defs, most).descs == cx.descs,
    decreases most,
{
    if most > 0 && stirs(cx, defs, defs.len()) {
        lemma_round_descs(cx, defs, defs.len());
        lemma_settled_descs(round(cx, defs, defs.len()), defs, (most - 1) as nat);
    }
}

proof fn lemma_round_descs(cx: Known, defs: Seq<DefV>, n: nat)
    ensures
        round(cx, defs, n).descs == cx.descs,
    decreases n,
{
    if n > 0 && n <= defs.len() {
        lemma_round_descs(cx, defs, (n - 1) as nat);
    }
}

} // verus!
