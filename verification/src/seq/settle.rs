//! The descriptor pass settles: what a block is missing only grows with what others have
//! gained, and there are only so many names.

use super::balance::scoped;
use super::cover::{
    covered, every_descriptor_is_where_its_value_is, explained, flat, lemma_but, lemma_put, lemma_put_whole, within,
};
use super::describe::{
    bound, but, closed, missing, need, need_arms, need_blocks, put, put_all, put_descs, put_selected, round,
    settled, stirs, transfer, Known, MOST,
};
use super::ir::{Label, Name, Tag};
use super::view::{BlockV, DefV, StmtV};
use vstd::prelude::*;

verus! {

/// In order, and nothing twice.
pub open spec fn ascending(s: Seq<Name>) -> bool {
    forall|i: int, j: int| 0 <= i < j < s.len() ==> #[trigger] s[i] < #[trigger] s[j]
}

// --- lists in order ---

proof fn lemma_put_ascends(s: Seq<Name>, x: Name)
    requires
        ascending(s),
    ensures
        ascending(put(s, x)),
    decreases s.len(),
{
    if s.len() > 0 && s.last() > x {
        let short = s.drop_last();
        lemma_put_ascends(short, x);
        lemma_put(short, x);
        let p = put(short, x);
        let r = p.push(s.last());
        assert forall|i: int, j: int| 0 <= i < j < r.len() implies #[trigger] r[i] < #[trigger] r[j] by {
            if j == p.len() {
                assert(p.contains(p[i]));
                if p[i] != x {
                    let k = short.index_of(p[i]);
                    assert(s[k] < s[s.len() - 1]);
                }
            }
        }
    }
}

proof fn lemma_put_all_ascends(s: Seq<Name>, xs: Seq<Name>, n: nat)
    requires
        ascending(s),
    ensures
        ascending(put_all(s, xs, n)),
    decreases n,
{
    if n > 0 && n <= xs.len() {
        lemma_put_all_ascends(s, xs, (n - 1) as nat);
        lemma_put_ascends(put_all(s, xs, (n - 1) as nat), xs[n - 1]);
    }
}

proof fn lemma_put_descs_ascends(cx: Known, out: Seq<Name>, ps: Seq<Name>, n: nat)
    requires
        ascending(out),
    ensures
        ascending(put_descs(cx, out, ps, n)),
    decreases n,
{
    if n > 0 && n <= ps.len() {
        lemma_put_descs_ascends(cx, out, ps, (n - 1) as nat);
        if let Some(d) = cx.desc_of(ps[n - 1]) {
            lemma_put_ascends(put_descs(cx, out, ps, (n - 1) as nat), d);
        }
    }
}

proof fn lemma_put_selected_ascends(cx: Known, out: Seq<Name>, sel: Seq<Name>, n: nat)
    requires
        ascending(out),
    ensures
        ascending(put_selected(cx, out, sel, n)),
    decreases n,
{
    if n > 0 && n <= sel.len() {
        lemma_put_selected_ascends(cx, out, sel, (n - 1) as nat);
        lemma_put_ascends(put_selected(cx, out, sel, (n - 1) as nat), sel[n - 1]);
    }
}

proof fn lemma_but_ascends(s: Seq<Name>, ps: Seq<Name>, n: nat)
    requires
        ascending(s),
        n <= s.len(),
    ensures
        ascending(but(s, ps, n)),
        forall|i: int| 0 <= i < but(s, ps, n).len() ==> n > 0 && #[trigger] but(s, ps, n)[i] <= s[n - 1],
    decreases n,
{
    if n > 0 {
        lemma_but_ascends(s, ps, (n - 1) as nat);
        let was = but(s, ps, (n - 1) as nat);
        assert forall|i: int| 0 <= i < was.len() implies #[trigger] was[i] < s[n - 1] by {
            assert(s[n - 2] < s[n - 1]);
        }
    }
}

proof fn lemma_need_ascends(cx: Known, s: StmtV)
    ensures
        ascending(need(cx, s)),
    decreases s, 0nat,
{
    let none = Seq::<Name>::empty();
    match s {
        StmtV::Mark(_, inner) => {
            lemma_need_ascends(cx, *inner);
        },
        StmtV::Jump(l) => {
            lemma_put_all_ascends(none, cx.gained(l), cx.gained(l).len());
        },
        StmtV::Substitute(sel, b) => {
            let out = put_selected(cx, none, sel, sel.len());
            lemma_put_selected_ascends(cx, none, sel, sel.len());
            match transfer(b.body) {
                Some(Some(l)) => {
                    lemma_put_all_ascends(out, cx.gained(l), cx.gained(l).len());
                },
                Some(None) => {},
                None => {
                    lemma_put_all_ascends(out, missing(cx, *b), missing(cx, *b).len());
                },
            }
        },
        StmtV::Let { name, rest, .. } => {
            lemma_need_ascends(cx, *rest);
            lemma_bound_ascends(cx, name, need(cx, *rest));
        },
        StmtV::New { name, methods, rest, .. } => {
            lemma_blocks_ascend(cx, methods, methods.len());
            let b = bound(cx, name, need(cx, *rest));
            lemma_put_all_ascends(need_blocks(cx, methods, methods.len()), b, b.len());
        },
        StmtV::Extern { blocks, .. } => {
            lemma_blocks_ascend(cx, blocks, blocks.len());
        },
        StmtV::Switch { arms, default, .. } => {
            lemma_arms_ascend(cx, arms, arms.len());
            let m = missing(cx, *default);
            lemma_put_all_ascends(need_arms(cx, arms, arms.len()), m, m.len());
        },
        _ => {},
    }
}

proof fn lemma_bound_ascends(cx: Known, name: Name, inner: Seq<Name>)
    requires
        ascending(inner),
    ensures
        ascending(bound(cx, name, inner)),
{
    let a = match cx.desc_of(name) {
        Some(d) => put(inner, d),
        None => inner,
    };
    if let Some(d) = cx.desc_of(name) {
        lemma_put_ascends(inner, d);
    }
    lemma_but_ascends(a, seq![name], a.len());
}

proof fn lemma_blocks_ascend(cx: Known, bs: Seq<BlockV>, n: nat)
    ensures
        ascending(need_blocks(cx, bs, n)),
    decreases n,
{
    if n > 0 && n <= bs.len() {
        lemma_blocks_ascend(cx, bs, (n - 1) as nat);
        let m = missing(cx, bs[n - 1]);
        lemma_put_all_ascends(need_blocks(cx, bs, (n - 1) as nat), m, m.len());
    }
}

proof fn lemma_arms_ascend(cx: Known, arms: Seq<(Tag, BlockV)>, n: nat)
    ensures
        ascending(need_arms(cx, arms, n)),
    decreases n,
{
    if n > 0 && n <= arms.len() {
        lemma_arms_ascend(cx, arms, (n - 1) as nat);
        let m = missing(cx, arms[n - 1].1);
        lemma_put_all_ascends(need_arms(cx, arms, (n - 1) as nat), m, m.len());
    }
}

proof fn lemma_missing_ascends(cx: Known, b: BlockV)
    ensures
        ascending(missing(cx, b)),
{
    lemma_need_ascends(cx, b.body);
    let a = put_descs(cx, need(cx, b.body), b.params, b.params.len());
    lemma_put_descs_ascends(cx, need(cx, b.body), b.params, b.params.len());
    lemma_but_ascends(a, b.params, a.len());
}

proof fn lemma_places(a: Seq<Name>, b: Seq<Name>, i: int)
    requires
        ascending(a),
        ascending(b),
        within(a, b),
        0 <= i < a.len(),
    ensures
        b.contains(a[i]),
        b.index_of(a[i]) >= i,
        i > 0 ==> b.index_of(a[i - 1]) < b.index_of(a[i]),
    decreases i,
{
    assert(a.contains(a[i]));
    if i > 0 {
        lemma_places(a, b, i - 1);
        let (x, y) = (b.index_of(a[i - 1]), b.index_of(a[i]));
        assert(a[i - 1] < a[i]);
        if y < x {
            assert(b[y] < b[x]);
        }
    }
}

proof fn lemma_places_down(a: Seq<Name>, b: Seq<Name>, i: int)
    requires
        ascending(a),
        ascending(b),
        within(a, b),
        a.len() == b.len(),
        0 <= i < a.len(),
    ensures
        b.index_of(a[i]) <= i,
    decreases a.len() - i,
{
    lemma_places(a, b, i);
    if i < a.len() - 1 {
        lemma_places(a, b, i + 1);
        lemma_places_down(a, b, i + 1);
    }
}

/// Of two lists in order, one of whose names are all in the other, that one is no longer,
/// and if it is as long it is the same.
proof fn lemma_fewer(a: Seq<Name>, b: Seq<Name>)
    requires
        ascending(a),
        ascending(b),
        within(a, b),
    ensures
        a.len() <= b.len(),
        a.len() == b.len() ==> a == b,
{
    if a.len() > 0 {
        lemma_places(a, b, a.len() - 1);
    }
    if a.len() == b.len() {
        assert forall|i: int| 0 <= i < a.len() implies a[i] == b[i] by {
            lemma_places(a, b, i);
            lemma_places_down(a, b, i);
        }
        assert(a =~= b);
    }
}

/// There are only so many names.
proof fn lemma_so_many(s: Seq<Name>, i: int)
    requires
        ascending(s),
        0 <= i < s.len(),
    ensures
        s[i] >= i,
    decreases i,
{
    if i > 0 {
        lemma_so_many(s, i - 1);
        assert(s[i - 1] < s[i]);
    }
}

// --- what is missing grows with what is gained ---

/// Everything a block has gained by `a` it has by `b`.
spec fn below(a: Known, b: Known) -> bool {
    &&& a.reps == b.reps
    &&& a.descs == b.descs
    &&& forall|l: Label| within(#[trigger] a.gained(l), b.gained(l))
}

proof fn lemma_put_descs_grows(a: Known, b: Known, x: Seq<Name>, y: Seq<Name>, ps: Seq<Name>, n: nat)
    requires
        a.reps == b.reps,
        within(x, y),
    ensures
        within(put_descs(a, x, ps, n), put_descs(b, y, ps, n)),
    decreases n,
{
    if n > 0 && n <= ps.len() {
        lemma_put_descs_grows(a, b, x, y, ps, (n - 1) as nat);
        assert(a.desc_of(ps[n - 1]) == b.desc_of(ps[n - 1]));
        if let Some(d) = a.desc_of(ps[n - 1]) {
            lemma_put(put_descs(a, x, ps, (n - 1) as nat), d);
            lemma_put(put_descs(b, y, ps, (n - 1) as nat), d);
        }
    }
}

proof fn lemma_put_selected_same(a: Known, b: Known, x: Seq<Name>, sel: Seq<Name>, n: nat)
    requires
        a.descs == b.descs,
    ensures
        put_selected(a, x, sel, n) == put_selected(b, x, sel, n),
    decreases n,
{
    if n > 0 && n <= sel.len() {
        lemma_put_selected_same(a, b, x, sel, (n - 1) as nat);
    }
}

proof fn lemma_put_whole_grows(s: Seq<Name>, t: Seq<Name>, x: Seq<Name>, y: Seq<Name>)
    requires
        within(s, t),
        within(x, y),
    ensures
        within(put_all(s, x, x.len()), put_all(t, y, y.len())),
{
    lemma_put_whole(s, x);
    lemma_put_whole(t, y);
}

proof fn lemma_but_grows(x: Seq<Name>, y: Seq<Name>, ps: Seq<Name>)
    requires
        within(x, y),
    ensures
        within(but(x, ps, x.len()), but(y, ps, y.len())),
{
    lemma_but(x, ps, x.len());
    lemma_but(y, ps, y.len());
    assert(x.take(x.len() as int) =~= x);
    assert(y.take(y.len() as int) =~= y);
}

proof fn lemma_bound_grows(a: Known, b: Known, name: Name, x: Seq<Name>, y: Seq<Name>)
    requires
        a.reps == b.reps,
        within(x, y),
    ensures
        within(bound(a, name, x), bound(b, name, y)),
{
    assert(a.desc_of(name) == b.desc_of(name));
    match a.desc_of(name) {
        Some(d) => {
            lemma_put(x, d);
            lemma_put(y, d);
            lemma_but_grows(put(x, d), put(y, d), seq![name]);
        },
        None => {
            lemma_but_grows(x, y, seq![name]);
        },
    }
}

proof fn lemma_need_grows(a: Known, b: Known, s: StmtV)
    requires
        below(a, b),
    ensures
        within(need(a, s), need(b, s)),
    decreases s, 0nat,
{
    let none = Seq::<Name>::empty();
    match s {
        StmtV::Mark(_, inner) => {
            lemma_need_grows(a, b, *inner);
        },
        StmtV::Jump(l) => {
            lemma_put_whole_grows(none, none, a.gained(l), b.gained(l));
        },
        StmtV::Substitute(sel, blk) => {
            lemma_put_selected_same(a, b, none, sel, sel.len());
            let out = put_selected(a, none, sel, sel.len());
            match transfer(blk.body) {
                Some(Some(l)) => {
                    lemma_put_whole_grows(out, out, a.gained(l), b.gained(l));
                },
                Some(None) => {},
                None => {
                    lemma_missing_grows(a, b, *blk);
                    lemma_put_whole_grows(out, out, missing(a, *blk), missing(b, *blk));
                },
            }
        },
        StmtV::Let { name, rest, .. } => {
            lemma_need_grows(a, b, *rest);
            lemma_bound_grows(a, b, name, need(a, *rest), need(b, *rest));
        },
        StmtV::New { name, methods, rest, .. } => {
            lemma_need_grows(a, b, *rest);
            lemma_bound_grows(a, b, name, need(a, *rest), need(b, *rest));
            assert(decreases_to!(s => methods));
            lemma_blocks_grow(a, b, methods, methods.len());
            lemma_put_whole_grows(
                need_blocks(a, methods, methods.len()),
                need_blocks(b, methods, methods.len()),
                bound(a, name, need(a, *rest)),
                bound(b, name, need(b, *rest)),
            );
        },
        StmtV::Extern { blocks, .. } => {
            assert(decreases_to!(s => blocks));
            lemma_blocks_grow(a, b, blocks, blocks.len());
        },
        StmtV::Switch { arms, default, .. } => {
            assert(decreases_to!(s => arms));
            lemma_arms_grow(a, b, arms, arms.len());
            lemma_missing_grows(a, b, *default);
            lemma_put_whole_grows(
                need_arms(a, arms, arms.len()),
                need_arms(b, arms, arms.len()),
                missing(a, *default),
                missing(b, *default),
            );
        },
        _ => {},
    }
}

proof fn lemma_missing_grows(a: Known, b: Known, blk: BlockV)
    requires
        below(a, b),
    ensures
        within(missing(a, blk), missing(b, blk)),
    decreases blk, 0nat,
{
    lemma_need_grows(a, b, blk.body);
    let n = blk.params.len();
    lemma_put_descs_grows(a, b, need(a, blk.body), need(b, blk.body), blk.params, n);
    lemma_but_grows(
        put_descs(a, need(a, blk.body), blk.params, n),
        put_descs(b, need(b, blk.body), blk.params, n),
        blk.params,
    );
}

proof fn lemma_blocks_grow(a: Known, b: Known, bs: Seq<BlockV>, n: nat)
    requires
        below(a, b),
    ensures
        within(need_blocks(a, bs, n), need_blocks(b, bs, n)),
    decreases bs, n,
{
    if n > 0 && n <= bs.len() {
        lemma_blocks_grow(a, b, bs, (n - 1) as nat);
        assert(decreases_to!(bs => bs[n - 1]));
        lemma_missing_grows(a, b, bs[n - 1]);
        lemma_put_whole_grows(
            need_blocks(a, bs, (n - 1) as nat),
            need_blocks(b, bs, (n - 1) as nat),
            missing(a, bs[n - 1]),
            missing(b, bs[n - 1]),
        );
    }
}

proof fn lemma_arms_grow(a: Known, b: Known, arms: Seq<(Tag, BlockV)>, n: nat)
    requires
        below(a, b),
    ensures
        within(need_arms(a, arms, n), need_arms(b, arms, n)),
    decreases arms, n,
{
    if n > 0 && n <= arms.len() {
        lemma_arms_grow(a, b, arms, (n - 1) as nat);
        assert(decreases_to!(arms => arms[n - 1]));
        lemma_missing_grows(a, b, arms[n - 1].1);
        lemma_put_whole_grows(
            need_arms(a, arms, (n - 1) as nat),
            need_arms(b, arms, (n - 1) as nat),
            missing(a, arms[n - 1].1),
            missing(b, arms[n - 1].1),
        );
    }
}

// --- so the passes end ---

/// No two definitions have one label.
pub open spec fn labels_differ(defs: Seq<DefV>) -> bool {
    forall|i: int, j: int| 0 <= i < j < defs.len() ==> (#[trigger] defs[i]).label != (#[trigger] defs[j]).label
}

/// What every block has gained is in order, and something it is missing.
spec fn rising(c: Known, defs: Seq<DefV>) -> bool {
    forall|i: int|
        0 <= i < defs.len() ==> ascending(c.gained((#[trigger] defs[i]).label)) && within(
            c.gained(defs[i].label),
            missing(c, defs[i].block),
        )
}

/// How much the first `n` blocks have gained.
spec fn total(c: Known, defs: Seq<DefV>, n: nat) -> nat
    decreases n,
{
    if n == 0 || n > defs.len() {
        0
    } else {
        total(c, defs, (n - 1) as nat) + c.gained(defs[n - 1].label).len()
    }
}

proof fn lemma_total_grows(a: Known, b: Known, defs: Seq<DefV>, n: nat, at: int)
    requires
        below(a, b),
        rising(a, defs),
        rising(b, defs),
        n <= defs.len(),
    ensures
        total(a, defs, n) <= total(b, defs, n),
        0 <= at < n && a.gained(defs[at].label) != b.gained(defs[at].label) ==> total(a, defs, n) < total(b, defs, n),
    decreases n,
{
    if n > 0 {
        lemma_total_grows(a, b, defs, (n - 1) as nat, at);
        lemma_fewer(a.gained(defs[n - 1].label), b.gained(defs[n - 1].label));
    }
}

proof fn lemma_total_bounded(c: Known, defs: Seq<DefV>, n: nat)
    requires
        rising(c, defs),
        n <= defs.len(),
    ensures
        total(c, defs, n) <= n * 0x1_0000_0000,
    decreases n,
{
    if n > 0 {
        lemma_total_bounded(c, defs, (n - 1) as nat);
        let g = c.gained(defs[n - 1].label);
        assert(ascending(g));
        if g.len() > 0 {
            lemma_so_many(g, g.len() - 1);
        }
        assert(n * 0x1_0000_0000 == (n - 1) * 0x1_0000_0000 + 0x1_0000_0000) by (nonlinear_arith);
    }
}

proof fn lemma_below_trans(a: Known, b: Known, c: Known)
    requires
        below(a, b),
        below(b, c),
    ensures
        below(a, c),
{
    assert forall|l: Label| within(#[trigger] a.gained(l), c.gained(l)) by {
        assert(within(a.gained(l), b.gained(l)));
        assert(within(b.gained(l), c.gained(l)));
    }
}

proof fn lemma_round_rises(c: Known, defs: Seq<DefV>, n: nat)
    requires
        labels_differ(defs),
        rising(c, defs),
        n <= defs.len(),
    ensures
        rising(round(c, defs, n), defs),
        below(c, round(c, defs, n)),
        stirs(c, defs, n) ==> total(c, defs, defs.len()) < total(round(c, defs, n), defs, defs.len()),
        total(c, defs, defs.len()) <= total(round(c, defs, n), defs, defs.len()),
    decreases n,
{
    if n > 0 {
        lemma_round_rises(c, defs, (n - 1) as nat);
        let m = round(c, defs, (n - 1) as nat);
        let d = defs[n - 1];
        let more = missing(m, d.block);
        if m.gained(d.label) != more {
            let r = Known { extra: m.extra.insert(d.label.0, more), ..m };
            assert(r == round(c, defs, n));
            lemma_missing_ascends(m, d.block);
            assert(within(m.gained(d.label), more));
            assert forall|l: Label| within(#[trigger] m.gained(l), r.gained(l)) by {
                if l.0 == d.label.0 {
                    assert(l == d.label);
                }
            }
            assert(below(m, r));
            assert forall|i: int| 0 <= i < defs.len() implies ascending(r.gained((#[trigger] defs[i]).label)) && within(
                r.gained(defs[i].label),
                missing(r, defs[i].block),
            ) by {
                lemma_missing_grows(m, r, defs[i].block);
                if i != n - 1 {
                    if i < n - 1 {
                        assert(defs[i].label != defs[n - 1].label);
                    } else {
                        assert(defs[n - 1].label != defs[i].label);
                    }
                    assert(r.gained(defs[i].label) == m.gained(defs[i].label));
                }
            }
            lemma_total_grows(m, r, defs, defs.len(), n - 1);
            lemma_below_trans(c, m, r);
        }
    }
}

proof fn lemma_settles(c: Known, defs: Seq<DefV>, most: nat)
    requires
        labels_differ(defs),
        rising(c, defs),
        total(c, defs, defs.len()) + most > defs.len() * 0x1_0000_0000,
    ensures
        !stirs(settled(c, defs, most), defs, defs.len()),
    decreases most,
{
    lemma_total_bounded(c, defs, defs.len());
    if stirs(c, defs, defs.len()) {
        lemma_round_rises(c, defs, defs.len());
        lemma_settles(round(c, defs, defs.len()), defs, (most - 1) as nat);
    }
}

/// The passes find nothing new in the end, where no two definitions have one label.
pub proof fn the_descriptor_pass_settles(cx: Known, defs: Seq<DefV>)
    requires
        cx.extra == Map::<u32, Seq<Name>>::empty(),
        labels_differ(defs),
        defs.len() <= u32::MAX,
    ensures
        !stirs(settled(cx, defs, MOST as nat), defs, defs.len()),
{
    let n = defs.len();
    assert(n * 0x1_0000_0000 < MOST) by (nonlinear_arith)
        requires
            n <= 0xffff_ffff,
            MOST == 0xffff_ffff_ffff_ffffu64,
    ;
    lemma_settles(cx, defs, MOST as nat);
}

/// Wherever what the pass writes can be stopped, every value's descriptor is where the
/// value is.
pub proof fn closing_explains_every_value(cx: Known, defs: Seq<DefV>)
    requires
        flat(cx),
        cx.extra == Map::<u32, Seq<Name>>::empty(),
        labels_differ(defs),
        defs.len() <= u32::MAX,
        forall|i: int| 0 <= i < defs.len() ==> scoped((#[trigger] defs[i]).block.body, defs[i].block.params),
    ensures
        ({
            let out = closed(settled(cx, defs, MOST as nat), defs);
            forall|i: int|
                0 <= i < out.len() ==> explained(cx, (#[trigger] out[i]).block.params) && covered(
                    cx,
                    out[i].block.body,
                    out[i].block.params,
                )
        }),
{
    the_descriptor_pass_settles(cx, defs);
    every_descriptor_is_where_its_value_is(cx, defs, MOST as nat);
}

} // verus!
