//! Every value's descriptor, wherever the value is: what the descriptor pass comes to.

use super::balance::{lemma_mark, lemma_transfer_unmarked, scoped};
use super::describe::{
    arms_of, bound, but, closed, continuation, continuations, continued, methods_of, missing, need, need_arms,
    need_blocks, put, put_all, put_descs, put_selected, putting_adds_one, rewrite, rewritten, round, settled, stirs,
    transfer, widened, Known,
};
use super::ir::{Name, Tag};
use super::view::{BlockV, DefV, StmtV};
use vstd::prelude::*;

verus! {

/// All of `xs` are in `env`.
pub open spec fn within(xs: Seq<Name>, env: Seq<Name>) -> bool {
    forall|x: Name| #[trigger] xs.contains(x) ==> env.contains(x)
}

/// An environment holds the descriptor of every value in it.
pub open spec fn explained(cx: Known, env: Seq<Name>) -> bool {
    forall|n: Name| #[trigger] env.contains(n) && cx.desc_of(n) is Some ==> env.contains(cx.desc_of(n)->0)
}

/// Wherever a statement entered in `env` can be stopped, the environment holds the
/// descriptor of every value in it: everywhere but where it does nothing else than hand
/// control over.
pub open spec fn covered(cx: Known, s: StmtV, env: Seq<Name>) -> bool
    decreases s,
{
    &&& transfer(s) is None ==> explained(cx, env)
    &&& match s {
        StmtV::Substitute(_, b) => covered(cx, b.body, b.params),
        StmtV::Jump(_) | StmtV::Invoke(_, _) | StmtV::Error(_) => true,
        StmtV::Let { name, rest, .. } => covered(cx, *rest, seq![name] + env),
        StmtV::Switch { arms, default, .. } => covered(cx, default.body, default.params) && forall|i: int|
            0 <= i < arms.len() ==> covered(cx, (#[trigger] arms[i]).1.body, arms[i].1.params),
        StmtV::New { name, methods, rest, .. } => covered(cx, *rest, seq![name] + env) && forall|i: int|
            0 <= i < methods.len() ==> covered(cx, (#[trigger] methods[i]).body, methods[i].params),
        StmtV::Extern { blocks, .. } => forall|i: int|
            0 <= i < blocks.len() ==> covered(cx, (#[trigger] blocks[i]).body, blocks[i].params),
        StmtV::Mark(_, inner) => covered(cx, *inner, env),
    }
}

/// A descriptor needs no descriptor.
pub open spec fn flat(cx: Known) -> bool {
    &&& forall|n: Name| #[trigger] cx.descs.contains(n) ==> cx.desc_of(n) is None
    &&& forall|n: Name| (#[trigger] cx.desc_of(n)) is Some ==> cx.desc_of(cx.desc_of(n)->0) is None
}

/// Nor does anything in a list.
pub open spec fn bare(cx: Known, xs: Seq<Name>) -> bool {
    forall|x: Name| #[trigger] xs.contains(x) ==> cx.desc_of(x) is None
}

/// Nor does anything a block has gained.
pub open spec fn gains_bare(cx: Known) -> bool {
    forall|l: u32| #[trigger] cx.extra.contains_key(l) ==> bare(cx, cx.extra[l])
}

// --- what lists hold ---

pub proof fn lemma_put(s: Seq<Name>, x: Name)
    ensures
        forall|y: Name| #[trigger] put(s, x).contains(y) <==> s.contains(y) || y == x,
{
    assert forall|y: Name| #[trigger] put(s, x).contains(y) <==> s.contains(y) || y == x by {
        putting_adds_one(s, x, y);
    }
}

proof fn lemma_put_all(s: Seq<Name>, xs: Seq<Name>, n: nat)
    requires
        n <= xs.len(),
    ensures
        forall|y: Name| #[trigger] put_all(s, xs, n).contains(y) <==> s.contains(y) || xs.take(n as int).contains(y),
    decreases n,
{
    if n == 0 {
        assert(xs.take(0) =~= Seq::<Name>::empty());
    } else {
        lemma_put_all(s, xs, (n - 1) as nat);
        lemma_put(put_all(s, xs, (n - 1) as nat), xs[n - 1]);
        lemma_take(xs, n);
    }
}

pub proof fn lemma_take(xs: Seq<Name>, n: nat)
    requires
        0 < n <= xs.len(),
    ensures
        forall|y: Name| #[trigger] xs.take(n as int).contains(y) <==> xs.take(n - 1).contains(y) || y == xs[n - 1],
{
    let (now, was) = (xs.take(n as int), xs.take(n - 1));
    assert forall|y: Name| #[trigger] now.contains(y) <==> was.contains(y) || y == xs[n - 1] by {
        if now.contains(y) {
            let i = now.index_of(y);
            if i < n - 1 {
                assert(was[i] == y);
            }
        }
        if was.contains(y) {
            assert(now[was.index_of(y)] == y);
        }
        assert(now[n - 1] == xs[n - 1]);
    }
}

/// A list put among another is in it, and so is what was there.
pub proof fn lemma_put_whole(s: Seq<Name>, xs: Seq<Name>)
    ensures
        forall|y: Name| #[trigger] put_all(s, xs, xs.len()).contains(y) <==> s.contains(y) || xs.contains(y),
{
    lemma_put_all(s, xs, xs.len());
    assert(xs.take(xs.len() as int) =~= xs);
}

pub proof fn lemma_but(s: Seq<Name>, ps: Seq<Name>, n: nat)
    requires
        n <= s.len(),
    ensures
        forall|y: Name| #[trigger] but(s, ps, n).contains(y) <==> s.take(n as int).contains(y) && !ps.contains(y),
    decreases n,
{
    if n == 0 {
        assert(s.take(0) =~= Seq::<Name>::empty());
    } else {
        lemma_but(s, ps, (n - 1) as nat);
        lemma_take(s, n);
        let was = but(s, ps, (n - 1) as nat);
        if !ps.contains(s[n - 1]) {
            lemma_push(was, s[n - 1]);
        }
    }
}

pub proof fn lemma_push(s: Seq<Name>, x: Name)
    ensures
        forall|y: Name| #[trigger] s.push(x).contains(y) <==> s.contains(y) || y == x,
{
    assert forall|y: Name| #[trigger] s.push(x).contains(y) <==> s.contains(y) || y == x by {
        if s.contains(y) {
            assert(s.push(x)[s.index_of(y)] == y);
        }
        assert(s.push(x)[s.len() as int] == x);
    }
}

pub proof fn lemma_both(a: Seq<Name>, b: Seq<Name>)
    ensures
        forall|y: Name| #[trigger] (a + b).contains(y) <==> a.contains(y) || b.contains(y),
{
    assert forall|y: Name| #[trigger] (a + b).contains(y) <==> a.contains(y) || b.contains(y) by {
        if a.contains(y) {
            assert((a + b)[a.index_of(y)] == y);
        }
        if b.contains(y) {
            assert((a + b)[a.len() + b.index_of(y)] == y);
        }
    }
}

pub proof fn lemma_front(x: Name, env: Seq<Name>)
    ensures
        forall|y: Name| #[trigger] (seq![x] + env).contains(y) <==> y == x || env.contains(y),
{
    lemma_both(seq![x], env);
    assert(seq![x][0] == x);
}

proof fn lemma_put_descs(cx: Known, out: Seq<Name>, ps: Seq<Name>, n: nat)
    requires
        n <= ps.len(),
    ensures
        within(out, put_descs(cx, out, ps, n)),
        forall|i: int|
            0 <= i < n && cx.desc_of(#[trigger] ps[i]) is Some ==> put_descs(cx, out, ps, n).contains(
                cx.desc_of(ps[i])->0,
            ),
        flat(cx) && bare(cx, out) ==> bare(cx, put_descs(cx, out, ps, n)),
    decreases n,
{
    if n > 0 {
        lemma_put_descs(cx, out, ps, (n - 1) as nat);
        let a = put_descs(cx, out, ps, (n - 1) as nat);
        if let Some(d) = cx.desc_of(ps[n - 1]) {
            lemma_put(a, d);
        }
    }
}

pub proof fn lemma_put_selected(cx: Known, out: Seq<Name>, sel: Seq<Name>, n: nat)
    requires
        n <= sel.len(),
    ensures
        within(out, put_selected(cx, out, sel, n)),
        forall|i: int|
            0 <= i < n && cx.descs.contains(#[trigger] sel[i]) ==> put_selected(cx, out, sel, n).contains(sel[i]),
        flat(cx) && bare(cx, out) ==> bare(cx, put_selected(cx, out, sel, n)),
    decreases n,
{
    if n > 0 {
        lemma_put_selected(cx, out, sel, (n - 1) as nat);
        lemma_put(put_selected(cx, out, sel, (n - 1) as nat), sel[n - 1]);
    }
}

/// A block with what it is missing behind its parameters, or among them, has every
/// descriptor its parameters and its body need.
pub proof fn lemma_missing(cx: Known, b: BlockV)
    ensures
        forall|y: Name| #[trigger] need(cx, b.body).contains(y) ==> b.params.contains(y) || missing(cx, b).contains(y),
        forall|n: Name| #[trigger]
            b.params.contains(n) && cx.desc_of(n) is Some ==> b.params.contains(cx.desc_of(n)->0) || missing(
                cx,
                b,
            ).contains(cx.desc_of(n)->0),
{
    let inner = need(cx, b.body);
    let a = put_descs(cx, inner, b.params, b.params.len());
    lemma_put_descs(cx, inner, b.params, b.params.len());
    lemma_but(a, b.params, a.len());
    assert(a.take(a.len() as int) =~= a);
    assert forall|n: Name| #[trigger]
        b.params.contains(n) && cx.desc_of(n) is Some implies b.params.contains(cx.desc_of(n)->0) || missing(
        cx,
        b,
    ).contains(cx.desc_of(n)->0) by {
        let i = b.params.index_of(n);
        assert(cx.desc_of(b.params[i]) is Some);
    }
}

pub proof fn lemma_bound(cx: Known, name: Name, inner: Seq<Name>)
    ensures
        forall|y: Name| #[trigger] inner.contains(y) ==> y == name || bound(cx, name, inner).contains(y),
        cx.desc_of(name) is Some ==> cx.desc_of(name)->0 == name || bound(cx, name, inner).contains(
            cx.desc_of(name)->0,
        ),
        flat(cx) && bare(cx, inner) ==> bare(cx, bound(cx, name, inner)),
{
    let a = match cx.desc_of(name) {
        Some(d) => put(inner, d),
        None => inner,
    };
    if let Some(d) = cx.desc_of(name) {
        lemma_put(inner, d);
    }
    lemma_but(a, seq![name], a.len());
    assert(a.take(a.len() as int) =~= a);
    assert forall|y: Name| seq![name].contains(y) <==> y == name by {
        assert(seq![name][0] == name);
    }
}

pub proof fn lemma_need_blocks(cx: Known, bs: Seq<BlockV>, n: nat)
    requires
        n <= bs.len(),
    ensures
        forall|i: int| 0 <= i < n ==> within(missing(cx, #[trigger] bs[i]), need_blocks(cx, bs, n)),
    decreases n,
{
    if n > 0 {
        lemma_need_blocks(cx, bs, (n - 1) as nat);
        lemma_put_whole(need_blocks(cx, bs, (n - 1) as nat), missing(cx, bs[n - 1]));
    }
}

pub proof fn lemma_need_arms(cx: Known, arms: Seq<(Tag, BlockV)>, n: nat)
    requires
        n <= arms.len(),
    ensures
        forall|i: int| 0 <= i < n ==> within(missing(cx, (#[trigger] arms[i]).1), need_arms(cx, arms, n)),
    decreases n,
{
    if n > 0 {
        lemma_need_arms(cx, arms, (n - 1) as nat);
        lemma_put_whole(need_arms(cx, arms, (n - 1) as nat), missing(cx, arms[n - 1].1));
    }
}

// --- nothing needed is described ---

proof fn lemma_need_bare(cx: Known, s: StmtV)
    requires
        flat(cx),
        gains_bare(cx),
    ensures
        bare(cx, need(cx, s)),
    decreases s, 0nat,
{
    let none = Seq::<Name>::empty();
    assert(bare(cx, none));
    match s {
        StmtV::Mark(_, inner) => {
            lemma_need_bare(cx, *inner);
        },
        StmtV::Jump(l) => {
            lemma_put_whole(none, cx.gained(l));
        },
        StmtV::Substitute(sel, b) => {
            let out = put_selected(cx, none, sel, sel.len());
            lemma_put_selected(cx, none, sel, sel.len());
            match transfer(b.body) {
                Some(Some(l)) => {
                    lemma_put_whole(out, cx.gained(l));
                },
                Some(None) => {},
                None => {
                    lemma_missing_bare(cx, *b);
                    lemma_put_whole(out, missing(cx, *b));
                },
            }
        },
        StmtV::Let { name, rest, .. } => {
            lemma_need_bare(cx, *rest);
            lemma_bound(cx, name, need(cx, *rest));
        },
        StmtV::New { name, methods, rest, .. } => {
            lemma_need_bare(cx, *rest);
            lemma_bound(cx, name, need(cx, *rest));
            assert(decreases_to!(s => methods));
            lemma_blocks_bare(cx, methods, methods.len());
            lemma_put_whole(need_blocks(cx, methods, methods.len()), bound(cx, name, need(cx, *rest)));
        },
        StmtV::Extern { blocks, .. } => {
            assert(decreases_to!(s => blocks));
            lemma_blocks_bare(cx, blocks, blocks.len());
        },
        StmtV::Switch { arms, default, .. } => {
            assert(decreases_to!(s => arms));
            lemma_arms_bare(cx, arms, arms.len());
            lemma_missing_bare(cx, *default);
            lemma_put_whole(need_arms(cx, arms, arms.len()), missing(cx, *default));
        },
        _ => {},
    }
}

proof fn lemma_missing_bare(cx: Known, b: BlockV)
    requires
        flat(cx),
        gains_bare(cx),
    ensures
        bare(cx, missing(cx, b)),
    decreases b, 0nat,
{
    lemma_need_bare(cx, b.body);
    let a = put_descs(cx, need(cx, b.body), b.params, b.params.len());
    lemma_put_descs(cx, need(cx, b.body), b.params, b.params.len());
    lemma_but(a, b.params, a.len());
    assert(a.take(a.len() as int) =~= a);
}

proof fn lemma_blocks_bare(cx: Known, bs: Seq<BlockV>, n: nat)
    requires
        flat(cx),
        gains_bare(cx),
        n <= bs.len(),
    ensures
        bare(cx, need_blocks(cx, bs, n)),
    decreases bs, n,
{
    if n > 0 {
        lemma_blocks_bare(cx, bs, (n - 1) as nat);
        assert(decreases_to!(bs => bs[n - 1]));
        lemma_missing_bare(cx, bs[n - 1]);
        lemma_put_whole(need_blocks(cx, bs, (n - 1) as nat), missing(cx, bs[n - 1]));
    }
}

proof fn lemma_arms_bare(cx: Known, arms: Seq<(Tag, BlockV)>, n: nat)
    requires
        flat(cx),
        gains_bare(cx),
        n <= arms.len(),
    ensures
        bare(cx, need_arms(cx, arms, n)),
    decreases arms, n,
{
    if n > 0 {
        lemma_arms_bare(cx, arms, (n - 1) as nat);
        assert(decreases_to!(arms => arms[n - 1]));
        lemma_missing_bare(cx, arms[n - 1].1);
        lemma_put_whole(need_arms(cx, arms, (n - 1) as nat), missing(cx, arms[n - 1].1));
    }
}

// --- what is written in ---

/// `new` is `old` with what a statement needs, and explains all it holds.
pub open spec fn grown(cx: Known, wants: Seq<Name>, old: Seq<Name>, new: Seq<Name>) -> bool {
    within(old, new) && within(wants, new) && explained(cx, new)
}

proof fn lemma_transfer(cx: Known, s: StmtV, env: Seq<Name>)
    requires
        transfer(s) is Some,
    ensures
        covered(cx, s, env),
    decreases s,
{
    if let StmtV::Mark(_, inner) = s {
        lemma_transfer(cx, *inner, env);
    }
}

proof fn lemma_transfer_kept(cx: Known, s: StmtV, old: Seq<Name>, new: Seq<Name>)
    ensures
        transfer(rewrite(cx, s, old, new)) == transfer(s),
    decreases s,
{
    if let StmtV::Mark(_, inner) = s {
        lemma_transfer_kept(cx, *inner, old, new);
    }
}

/// Behind a binding.
proof fn lemma_grown_under(cx: Known, name: Name, inner: Seq<Name>, wants: Seq<Name>, old: Seq<Name>, new: Seq<Name>)
    requires
        grown(cx, wants, old, new),
        within(bound(cx, name, inner), wants),
    ensures
        grown(cx, inner, seq![name] + old, seq![name] + new),
{
    lemma_bound(cx, name, inner);
    lemma_front(name, old);
    lemma_front(name, new);
}

/// In a block that continues an environment behind `front` names of its own.
proof fn lemma_grown_behind(
    cx: Known,
    b: BlockV,
    front: Seq<Name>,
    wants: Seq<Name>,
    old: Seq<Name>,
    new: Seq<Name>,
)
    requires
        grown(cx, wants, old, new),
        b.params == front + old,
        within(missing(cx, b), wants),
    ensures
        continued(b.params, old, new) == front + new,
        grown(cx, need(cx, b.body), b.params, front + new),
{
    lemma_missing(cx, b);
    lemma_both(front, old);
    lemma_both(front, new);
    assert(b.params.take(b.params.len() - old.len()) =~= front);
    assert forall|n: Name| #[trigger] (front + new).contains(n) && cx.desc_of(n) is Some implies (front
        + new).contains(cx.desc_of(n)->0) by {
        if front.contains(n) {
            assert(b.params.contains(n));
        } else {
            assert(new.contains(n));
        }
    }
    assert(within(b.params, front + new));
    assert(within(need(cx, b.body), front + new));
}

/// In a block that gains `add`, which is all it is missing and needs no descriptor.
proof fn lemma_grown_by(cx: Known, b: BlockV, add: Seq<Name>, params: Seq<Name>)
    requires
        within(missing(cx, b), add),
        bare(cx, add),
        forall|y: Name| #[trigger] params.contains(y) <==> b.params.contains(y) || add.contains(y),
    ensures
        grown(cx, need(cx, b.body), b.params, params),
{
    lemma_missing(cx, b);
}

pub proof fn lemma_widened(params: Seq<Name>, captures: Seq<Name>, add: Seq<Name>)
    requires
        captures.is_prefix_of(params),
    ensures
        (captures + add).is_prefix_of(widened(params, captures.len(), add)),
        forall|y: Name| #[trigger]
            widened(params, captures.len(), add).contains(y) <==> params.contains(y) || add.contains(y),
{
    let c = captures.len() as int;
    let w = widened(params, captures.len(), add);
    let (a, b) = (params.take(c), params.skip(c));
    assert(a =~= captures);
    assert(params =~= a + b);
    assert(w =~= (a + add) + b);
    lemma_both(a, b);
    lemma_both(a, add);
    lemma_both(a + add, b);
    assert(w.take((captures + add).len() as int) =~= captures + add);
}

proof fn lemma_rewrite(cx: Known, s: StmtV, old: Seq<Name>, new: Seq<Name>)
    requires
        flat(cx),
        gains_bare(cx),
        scoped(s, old),
        grown(cx, need(cx, s), old, new),
    ensures
        scoped(rewrite(cx, s, old, new), new),
        covered(cx, rewrite(cx, s, old, new), new),
    decreases s, 1nat,
{
    reveal_with_fuel(scoped, 2);
    lemma_transfer_kept(cx, s, old, new);
    let r = rewrite(cx, s, old, new);
    match s {
        StmtV::Mark(loc, inner) => {
            assert(need(cx, s) == need(cx, *inner));
            lemma_rewrite(cx, *inner, old, new);
            let m = rewrite(cx, *inner, old, new);
            assert(r == StmtV::Mark(loc, Box::new(m)));
            lemma_mark(loc, m, new);
        },
        StmtV::Substitute(sel, b) => {
            lemma_substitute(cx, s, old, new);
        },
        StmtV::Let { name, rest, .. } => {
            let inner = need(cx, *rest);
            lemma_grown_under(cx, name, inner, need(cx, s), old, new);
            lemma_rewrite(cx, *rest, seq![name] + old, seq![name] + new);
        },
        StmtV::New { name, captures, methods, rest } => {
            let inner = need(cx, *rest);
            let add = need_blocks(cx, methods, methods.len());
            lemma_put_whole(add, bound(cx, name, inner));
            lemma_grown_under(cx, name, inner, need(cx, s), old, new);
            lemma_rewrite(cx, *rest, seq![name] + old, seq![name] + new);
            lemma_blocks_bare(cx, methods, methods.len());
            lemma_need_blocks(cx, methods, methods.len());
            assert(decreases_to!(s => methods));
            lemma_methods(cx, methods, methods.len(), captures, add);
        },
        StmtV::Extern { op, args, blocks } => {
            lemma_need_blocks(cx, blocks, blocks.len());
            assert(decreases_to!(s => blocks));
            let more: nat = if op.branches() {
                0
            } else {
                1
            };
            assert forall|i: int| 0 <= i < blocks.len() implies follows(#[trigger] blocks[i], more, old) && scoped(
                blocks[i].body,
                blocks[i].params,
            ) && within(missing(cx, blocks[i]), need(cx, s)) by {
                assert(blocks[i].params.skip(0) =~= blocks[i].params);
            }
            lemma_blocks(cx, blocks, blocks.len(), more, need(cx, s), old, new);
            let done = continuations(cx, blocks, blocks.len(), old, new);
            assert forall|i: int| 0 <= i < done.len() && op.branches() implies (#[trigger] done[i]).params == new by {
                assert(follows(done[i], more, new));
                assert(done[i].params.skip(0) =~= done[i].params);
            }
            assert forall|i: int| 0 <= i < done.len() implies follows(#[trigger] done[i], more, new) by {}
        },
        StmtV::Switch { arms, default, .. } => {
            let out = need_arms(cx, arms, arms.len());
            lemma_put_whole(out, missing(cx, *default));
            lemma_need_arms(cx, arms, arms.len());
            assert(decreases_to!(s => arms));
            lemma_arms(cx, arms, arms.len(), need(cx, s), old, new);
            let none = Seq::<Name>::empty();
            assert(default.params =~= none + old);
            lemma_grown_behind(cx, *default, none, need(cx, s), old, new);
            assert(none + new =~= new);
            lemma_rewrite(cx, default.body, default.params, new);
            let otherwise = continuation(cx, *default, old, new);
            assert(otherwise.params == new);
            assert(otherwise.body == rewrite(cx, default.body, default.params, new));
        },
        _ => {},
    }
}

proof fn lemma_substitute(cx: Known, s: StmtV, old: Seq<Name>, new: Seq<Name>)
    requires
        flat(cx),
        gains_bare(cx),
        s is Substitute,
        scoped(s, old),
        grown(cx, need(cx, s), old, new),
    ensures
        scoped(rewrite(cx, s, old, new), new),
        covered(cx, rewrite(cx, s, old, new), new),
    decreases s, 0nat,
{
    reveal_with_fuel(scoped, 2);
    if let StmtV::Substitute(sel, b) = s {
        if transfer(b.body) is Some && !(b.body is Jump) && !(b.body is Invoke) {
            lemma_transfer_unmarked(b.body, b.params);
        }
        match transfer(b.body) {
            Some(Some(l)) => {
                lemma_transfer(cx, b.body, b.params + cx.gained(l));
            },
            Some(None) => {
                lemma_transfer(cx, b.body, b.params);
            },
            None => {
                let add = missing(cx, *b);
                lemma_missing_bare(cx, *b);
                lemma_both(b.params, add);
                lemma_grown_by(cx, *b, add, b.params + add);
                lemma_rewrite(cx, b.body, b.params, b.params + add);
            },
        }
    }
}

proof fn lemma_methods(cx: Known, ms: Seq<BlockV>, n: nat, captures: Seq<Name>, add: Seq<Name>)
    requires
        flat(cx),
        gains_bare(cx),
        bare(cx, add),
        n <= ms.len(),
        forall|i: int|
            0 <= i < ms.len() ==> captures.is_prefix_of((#[trigger] ms[i]).params) && scoped(ms[i].body, ms[i].params)
                && within(missing(cx, ms[i]), add),
    ensures
        methods_of(cx, ms, n, captures.len(), add).len() == n,
        forall|i: int|
            0 <= i < n ==> (captures + add).is_prefix_of(
                (#[trigger] methods_of(cx, ms, n, captures.len(), add)[i]).params,
            ) && scoped(
                methods_of(cx, ms, n, captures.len(), add)[i].body,
                methods_of(cx, ms, n, captures.len(), add)[i].params,
            ) && covered(
                cx,
                methods_of(cx, ms, n, captures.len(), add)[i].body,
                methods_of(cx, ms, n, captures.len(), add)[i].params,
            ),
    decreases ms, n,
{
    if n > 0 {
        lemma_methods(cx, ms, (n - 1) as nat, captures, add);
        let m = ms[n - 1];
        let params = widened(m.params, captures.len(), add);
        lemma_widened(m.params, captures, add);
        lemma_grown_by(cx, m, add, params);
        assert(decreases_to!(ms => ms[n - 1]));
        lemma_rewrite(cx, m.body, m.params, params);
    }
}

/// A block that continues `env` behind so many names of its own.
spec fn follows(b: BlockV, more: nat, env: Seq<Name>) -> bool {
    b.params.len() == env.len() + more && b.params.skip(more as int) == env
}

proof fn lemma_blocks(
    cx: Known,
    bs: Seq<BlockV>,
    n: nat,
    more: nat,
    wants: Seq<Name>,
    old: Seq<Name>,
    new: Seq<Name>,
)
    requires
        flat(cx),
        gains_bare(cx),
        n <= bs.len(),
        grown(cx, wants, old, new),
        forall|i: int|
            0 <= i < bs.len() ==> follows(#[trigger] bs[i], more, old) && scoped(bs[i].body, bs[i].params) && within(
                missing(cx, bs[i]),
                wants,
            ),
    ensures
        continuations(cx, bs, n, old, new).len() == n,
        forall|i: int|
            0 <= i < n ==> follows(#[trigger] continuations(cx, bs, n, old, new)[i], more, new) && scoped(
                continuations(cx, bs, n, old, new)[i].body,
                continuations(cx, bs, n, old, new)[i].params,
            ) && covered(
                cx,
                continuations(cx, bs, n, old, new)[i].body,
                continuations(cx, bs, n, old, new)[i].params,
            ),
    decreases bs, n,
{
    if n > 0 {
        lemma_blocks(cx, bs, (n - 1) as nat, more, wants, old, new);
        let b = bs[n - 1];
        assert(follows(b, more, old));
        let front = b.params.take(more as int);
        assert(b.params =~= front + old);
        lemma_grown_behind(cx, b, front, wants, old, new);
        assert((front + new).skip(more as int) =~= new);
        assert(decreases_to!(bs => bs[n - 1]));
        lemma_rewrite(cx, b.body, b.params, front + new);
        let before = continuations(cx, bs, (n - 1) as nat, old, new);
        assert(continuations(cx, bs, n, old, new) == before.push(continuation(cx, b, old, new)));
    }
}

proof fn lemma_arms(cx: Known, arms: Seq<(Tag, BlockV)>, n: nat, wants: Seq<Name>, old: Seq<Name>, new: Seq<Name>)
    requires
        flat(cx),
        gains_bare(cx),
        n <= arms.len(),
        grown(cx, wants, old, new),
        forall|i: int|
            0 <= i < arms.len() ==> old.is_suffix_of((#[trigger] arms[i]).1.params) && scoped(
                arms[i].1.body,
                arms[i].1.params,
            ) && within(missing(cx, arms[i].1), wants),
    ensures
        arms_of(cx, arms, n, old, new).len() == n,
        forall|i: int|
            0 <= i < n ==> new.is_suffix_of((#[trigger] arms_of(cx, arms, n, old, new)[i]).1.params) && scoped(
                arms_of(cx, arms, n, old, new)[i].1.body,
                arms_of(cx, arms, n, old, new)[i].1.params,
            ) && covered(
                cx,
                arms_of(cx, arms, n, old, new)[i].1.body,
                arms_of(cx, arms, n, old, new)[i].1.params,
            ),
    decreases arms, n,
{
    if n > 0 {
        lemma_arms(cx, arms, (n - 1) as nat, wants, old, new);
        let b = arms[n - 1].1;
        assert(old.is_suffix_of(arms[n - 1].1.params));
        let front = b.params.take(b.params.len() - old.len());
        assert(b.params =~= front + old);
        lemma_grown_behind(cx, b, front, wants, old, new);
        super::lower::whole::lemma_suffix(front, new);
        assert(decreases_to!(arms => arms[n - 1]));
        lemma_rewrite(cx, b.body, b.params, front + new);
        let before = arms_of(cx, arms, (n - 1) as nat, old, new);
        assert(arms_of(cx, arms, n, old, new) == before.push((arms[n - 1].0, continuation(cx, b, old, new))));
    }
}

// --- the passes ---

proof fn lemma_round_bare(cx: Known, defs: Seq<DefV>, n: nat)
    requires
        flat(cx),
        gains_bare(cx),
    ensures
        flat(round(cx, defs, n)),
        gains_bare(round(cx, defs, n)),
        round(cx, defs, n).reps == cx.reps,
        round(cx, defs, n).descs == cx.descs,
    decreases n,
{
    if n > 0 && n <= defs.len() {
        lemma_round_bare(cx, defs, (n - 1) as nat);
        let c = round(cx, defs, (n - 1) as nat);
        lemma_missing_bare(c, defs[n - 1].block);
        let r = round(cx, defs, n);
        assert forall|m: Name| r.desc_of(m) == c.desc_of(m) by {}
        assert forall|l: u32| #[trigger] r.extra.contains_key(l) implies bare(r, r.extra[l]) by {
            if r.extra[l] != c.extra[l] || !c.extra.contains_key(l) {
                assert(r.extra[l] == missing(c, defs[n - 1].block));
            } else {
                assert(bare(c, c.extra[l]));
            }
        }
    }
}

proof fn lemma_settled_bare(cx: Known, defs: Seq<DefV>, most: nat)
    requires
        flat(cx),
        gains_bare(cx),
    ensures
        flat(settled(cx, defs, most)),
        gains_bare(settled(cx, defs, most)),
        settled(cx, defs, most).reps == cx.reps,
        settled(cx, defs, most).descs == cx.descs,
    decreases most,
{
    if most > 0 && stirs(cx, defs, defs.len()) {
        lemma_round_bare(cx, defs, defs.len());
        lemma_settled_bare(round(cx, defs, defs.len()), defs, (most - 1) as nat);
    }
}

pub proof fn lemma_still(cx: Known, defs: Seq<DefV>, n: nat, i: int)
    requires
        !stirs(cx, defs, n),
        0 <= i < n <= defs.len(),
    ensures
        cx.gained(defs[i].label) == missing(cx, defs[i].block),
        round(cx, defs, n) == cx,
    decreases n,
{
    if i < n - 1 {
        lemma_still(cx, defs, (n - 1) as nat, i);
    } else {
        lemma_quiet(cx, defs, (n - 1) as nat);
    }
    lemma_quiet(cx, defs, n);
}

proof fn lemma_quiet(cx: Known, defs: Seq<DefV>, n: nat)
    requires
        !stirs(cx, defs, n),
    ensures
        round(cx, defs, n) == cx,
    decreases n,
{
    if n > 0 && n <= defs.len() {
        lemma_quiet(cx, defs, (n - 1) as nat);
    }
}

/// Once the passes find nothing new, every block of what is written, wherever it can be
/// stopped, holds the descriptor of every value in it, and still names the whole
/// environment it is entered in.
pub proof fn every_descriptor_is_where_its_value_is(cx: Known, defs: Seq<DefV>, most: nat)
    requires
        flat(cx),
        cx.extra == Map::<u32, Seq<Name>>::empty(),
        forall|i: int| 0 <= i < defs.len() ==> scoped((#[trigger] defs[i]).block.body, defs[i].block.params),
        !stirs(settled(cx, defs, most), defs, defs.len()),
    ensures
        ({
            let out = closed(settled(cx, defs, most), defs);
            forall|i: int|
                0 <= i < out.len() ==> explained(cx, (#[trigger] out[i]).block.params) && covered(
                    cx,
                    out[i].block.body,
                    out[i].block.params,
                ) && scoped(out[i].block.body, out[i].block.params)
        }),
{
    let known = settled(cx, defs, most);
    lemma_settled_bare(cx, defs, most);
    let out = closed(known, defs);
    assert forall|i: int| 0 <= i < out.len() implies explained(cx, (#[trigger] out[i]).block.params) && covered(
        cx,
        out[i].block.body,
        out[i].block.params,
    ) && scoped(out[i].block.body, out[i].block.params) by {
        let d = defs[i];
        assert(scoped(defs[i].block.body, defs[i].block.params));
        lemma_still(known, defs, defs.len(), i);
        let add = known.gained(d.label);
        let params = d.block.params + add;
        lemma_both(d.block.params, add);
        lemma_missing_bare(known, d.block);
        lemma_grown_by(known, d.block, add, params);
        lemma_rewrite(known, d.block.body, d.block.params, params);
        assert(out[i] == rewritten(known, d));
        lemma_same(known, cx, out[i].block.body, params);
    }
}

/// What is covered does not depend on what blocks have gained.
proof fn lemma_same(a: Known, b: Known, s: StmtV, env: Seq<Name>)
    requires
        a.reps == b.reps,
        covered(a, s, env),
    ensures
        covered(b, s, env),
        explained(a, env) ==> explained(b, env),
    decreases s,
{
    assert forall|n: Name| a.desc_of(n) == b.desc_of(n) by {}
    match s {
        StmtV::Substitute(_, blk) => {
            lemma_same(a, b, blk.body, blk.params);
        },
        StmtV::Let { name, rest, .. } => {
            lemma_same(a, b, *rest, seq![name] + env);
        },
        StmtV::Switch { arms, default, .. } => {
            lemma_same(a, b, default.body, default.params);
            assert forall|i: int| 0 <= i < arms.len() implies covered(
                b,
                (#[trigger] arms[i]).1.body,
                arms[i].1.params,
            ) by {
                assert(decreases_to!(arms => arms[i]));
                lemma_same(a, b, arms[i].1.body, arms[i].1.params);
            }
        },
        StmtV::New { name, methods, rest, .. } => {
            lemma_same(a, b, *rest, seq![name] + env);
            assert forall|i: int| 0 <= i < methods.len() implies covered(
                b,
                (#[trigger] methods[i]).body,
                methods[i].params,
            ) by {
                assert(decreases_to!(methods => methods[i]));
                lemma_same(a, b, methods[i].body, methods[i].params);
            }
        },
        StmtV::Extern { blocks, .. } => {
            assert forall|i: int| 0 <= i < blocks.len() implies covered(
                b,
                (#[trigger] blocks[i]).body,
                blocks[i].params,
            ) by {
                assert(decreases_to!(blocks => blocks[i]));
                lemma_same(a, b, blocks[i].body, blocks[i].params);
            }
        },
        StmtV::Mark(_, inner) => {
            lemma_same(a, b, *inner, env);
        },
        _ => {},
    }
}

} // verus!
