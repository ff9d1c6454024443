//! The order in which a unit's modules, and a module's bindings, are inferred.
//!
//! Type inference wants bindings in dependency order, and wants mutually
//! recursive ones handed to it together. This works that out at two scales, over
//! a "mentions" graph: [`module_order`] sorts the *modules* of a unit, since
//! they share one flat scope, and [`group_module`] sorts the *bindings* inside
//! one module and records a [`BindGroup`] per strongly connected component.
//!
//! Free variables need no scope tracking: a `VarId` is unique across the whole
//! program, so intersecting "every variable mentioned" with "the top-level
//! names" is exact.

use super::hir::{bind_mentions, binds, mentions, Bind, BindGroup, Decl, Expr, Module, VarId};
use super::tarjan::{components, edge, reaches, scc};
use std::collections::HashMap;
use vstd::prelude::*;

verus! {

broadcast use vstd::std_specs::hash::group_hash_axioms;

/// A declaration of `m` binds `v`.
pub open spec fn defines(m: Module, v: VarId) -> bool {
    exists|i: int| 0 <= i < m.decls@.len() && #[trigger] decl_binds(m.decls@[i], v)
}

pub open spec fn decl_binds(d: Decl, v: VarId) -> bool {
    d matches Decl::Bind(b) && binds(b, v)
}

/// A binding of `m` mentions `v`.
pub open spec fn refers(m: Module, v: VarId) -> bool {
    exists|i: int| 0 <= i < m.decls@.len() && #[trigger] decl_refers(m.decls@[i], v)
}

pub open spec fn decl_refers(d: Decl, v: VarId) -> bool {
    d matches Decl::Bind(b) && bind_mentions(b, v)
}

/// Of `n` slots, `d` is the last whose definitions include `v`.
pub open spec fn owns(holder: spec_fn(int, VarId) -> bool, n: int, v: VarId, d: int) -> bool {
    0 <= d < n && holder(d, v) && forall|e: int| d < e < n ==> !#[trigger] holder(e, v)
}

/// Slot `m` mentions something slot `d` owns.
pub open spec fn depends(
    holder: spec_fn(int, VarId) -> bool,
    names: spec_fn(int, VarId) -> bool,
    n: int,
    m: int,
    d: int,
) -> bool {
    exists|v: VarId| names(m, v) && #[trigger] owns(holder, n, v, d)
}

/// `l` lists, in order, the slots before `n` that `p` holds of.
pub open spec fn ascending(l: Seq<usize>, n: int, p: spec_fn(int) -> bool) -> bool {
    &&& forall|i: int| 0 <= i < l.len() ==> #[trigger] l[i] < n && p(l[i] as int)
    &&& forall|i: int, j: int| 0 <= i < j < l.len() ==> #[trigger] l[i] < #[trigger] l[j]
    &&& forall|d: usize| d < n && p(d as int) ==> #[trigger] l.contains(d)
}

/// The graph whose edges are `deps`.
pub open spec fn graph_of(edges: Seq<Vec<usize>>, n: int, deps: spec_fn(int, int) -> bool) -> bool {
    &&& edges.len() == n
    &&& forall|m: int| 0 <= m < n ==> ascending(#[trigger] edges[m]@, n, |d: int| deps(m, d))
}

/// The nodes of `comps`, one component after the other.
pub open spec fn laid(comps: Seq<Vec<usize>>) -> Seq<usize>
    decreases comps.len(),
{
    if comps.len() == 0 {
        Seq::empty()
    } else {
        laid(comps.drop_last()) + comps.last()@
    }
}

fn note_bound(b: &Bind, slot: usize, owner: &mut HashMap<VarId, usize>)
    ensures
        forall|v: VarId|
            final(owner)@.dom().contains(v) <==> old(owner)@.dom().contains(v) || binds(*b, v),
        forall|v: VarId| binds(*b, v) ==> #[trigger] final(owner)@[v] == slot,
        forall|v: VarId|
            !binds(*b, v) && old(owner)@.dom().contains(v) ==> #[trigger] final(owner)@[v] == old(owner)@[v],
{
    match b {
        Bind::Fun(f, _, _) => {
            owner.insert(*f, slot);
        },
        Bind::Pat(vs, _) => {
            let mut i: usize = 0;
            while i < vs.len()
                invariant
                    i <= vs.len(),
                    forall|v: VarId|
                        owner@.dom().contains(v) <==> old(owner)@.dom().contains(v) || vs@.take(i as int).contains(v),
                    forall|v: VarId| vs@.take(i as int).contains(v) ==> #[trigger] owner@[v] == slot,
                    forall|v: VarId|
                        !vs@.take(i as int).contains(v) && old(owner)@.dom().contains(v) ==> #[trigger] owner@[v]
                            == old(owner)@[v],
                decreases vs.len() - i,
            {
                let ghost now = vs@.take(i + 1);
                owner.insert(vs[i], slot);
                proof {
                    assert forall|v: VarId| now.contains(v) <==> vs@.take(i as int).contains(v) || v == vs@[i as int] by {
                        if now.contains(v) {
                            let k = choose|k: int| 0 <= k < now.len() && now[k] == v;
                            if k < i {
                                assert(vs@.take(i as int)[k] == v);
                            }
                        }
                        if vs@.take(i as int).contains(v) {
                            let k = choose|k: int| 0 <= k < i && vs@.take(i as int)[k] == v;
                            assert(now[k] == v);
                        }
                        assert(now[i as int] == vs@[i as int]);
                    }
                }
                i = i + 1;
            }
            proof {
                assert(vs@.take(i as int) =~= vs@);
            }
        },
        Bind::Error => {},
    }
}

/// Every slot that owns something is in `owner`, and it alone.
spec fn owner_of(owner: Map<VarId, usize>, holder: spec_fn(int, VarId) -> bool, n: int) -> bool {
    &&& forall|v: VarId| owner.dom().contains(v) ==> owns(holder, n, v, #[trigger] owner[v] as int)
    &&& forall|v: VarId, d: int| 0 <= d < n && #[trigger] holder(d, v) ==> owner.dom().contains(v)
}

/// `seen` with the slots added that own something `p` holds of.
spec fn marks(was: Seq<bool>, now: Seq<bool>, owner: Map<VarId, usize>, p: spec_fn(VarId) -> bool) -> bool {
    &&& now.len() == was.len()
    &&& forall|s: int|
        0 <= s < was.len() ==> #[trigger] now[s] == (was[s] || exists|v: VarId|
            p(v) && owner.dom().contains(v) && #[trigger] owner[v] == s)
}

spec fn in_range(owner: Map<VarId, usize>, n: int) -> bool {
    forall|v: VarId| owner.dom().contains(v) ==> #[trigger] owner[v] < n
}

proof fn lemma_marks_or(
    a: Seq<bool>,
    b: Seq<bool>,
    c: Seq<bool>,
    owner: Map<VarId, usize>,
    p: spec_fn(VarId) -> bool,
    q: spec_fn(VarId) -> bool,
    r: spec_fn(VarId) -> bool,
)
    requires
        marks(a, b, owner, p),
        marks(b, c, owner, q),
        forall|v: VarId| #[trigger] r(v) == (p(v) || q(v)),
    ensures
        marks(a, c, owner, r),
{
    assert forall|s: int| 0 <= s < a.len() implies #[trigger] c[s] == (a[s] || exists|v: VarId|
        r(v) && owner.dom().contains(v) && #[trigger] owner[v] == s) by {
        if exists|v: VarId| r(v) && owner.dom().contains(v) && #[trigger] owner[v] == s {
            let v = choose|v: VarId| r(v) && owner.dom().contains(v) && #[trigger] owner[v] == s;
            assert(p(v) || q(v));
            assert(b[s] || q(v));
        }
        assert(c[s] == (b[s] || exists|v: VarId| q(v) && owner.dom().contains(v) && #[trigger] owner[v] == s));
        if exists|v: VarId| q(v) && owner.dom().contains(v) && #[trigger] owner[v] == s {
            let v = choose|v: VarId| q(v) && owner.dom().contains(v) && #[trigger] owner[v] == s;
            assert(r(v));
        }
        if exists|v: VarId| p(v) && owner.dom().contains(v) && #[trigger] owner[v] == s {
            let v = choose|v: VarId| p(v) && owner.dom().contains(v) && #[trigger] owner[v] == s;
            assert(r(v));
        }
    }
}

proof fn lemma_marks_none(a: Seq<bool>, owner: Map<VarId, usize>, p: spec_fn(VarId) -> bool)
    requires
        forall|v: VarId| !#[trigger] p(v),
    ensures
        marks(a, a, owner, p),
{
}

proof fn lemma_marks_same(
    a: Seq<bool>,
    b: Seq<bool>,
    owner: Map<VarId, usize>,
    p: spec_fn(VarId) -> bool,
    q: spec_fn(VarId) -> bool,
)
    requires
        marks(a, b, owner, p),
        forall|v: VarId| #[trigger] p(v) == q(v),
    ensures
        marks(a, b, owner, q),
{
    lemma_marks_none(a, owner, |v: VarId| false);
    lemma_marks_or(a, a, b, owner, |v: VarId| false, p, q);
}

/// The slots of the top-level bindings a binding's body mentions.
fn bind_slots(b: &Bind, owner: &HashMap<VarId, usize>, seen: &mut Vec<bool>)
    requires
        in_range(owner@, old(seen)@.len() as int),
    ensures
        marks(old(seen)@, final(seen)@, owner@, |v: VarId| bind_mentions(*b, v)),
    decreases b,
{
    match b {
        Bind::Fun(_, _, body) => {
            let ghost was = seen@;
            expr_slots(body, owner, seen);
            proof {
                lemma_marks_same(
                    was,
                    seen@,
                    owner@,
                    |v: VarId| mentions(*body, v),
                    |v: VarId| bind_mentions(*b, v),
                );
            }
        },
        Bind::Pat(_, body) => {
            let ghost was = seen@;
            expr_slots(body, owner, seen);
            proof {
                lemma_marks_same(
                    was,
                    seen@,
                    owner@,
                    |v: VarId| mentions(*body, v),
                    |v: VarId| bind_mentions(*b, v),
                );
            }
        },
        Bind::Error => {
            proof {
                lemma_marks_none(seen@, owner@, |v: VarId| bind_mentions(*b, v));
            }
        },
    }
}

fn list_slots(xs: &Vec<Expr>, owner: &HashMap<VarId, usize>, seen: &mut Vec<bool>)
    requires
        in_range(owner@, old(seen)@.len() as int),
    ensures
        marks(
            old(seen)@,
            final(seen)@,
            owner@,
            |v: VarId| exists|i: int| 0 <= i < xs@.len() && mentions(#[trigger] xs@[i], v),
        ),
    decreases xs,
{
    let ghost some = |k: int| |v: VarId| exists|i: int| 0 <= i < k && mentions(#[trigger] xs@[i], v);
    let mut i: usize = 0;
    proof {
        lemma_marks_none(seen@, owner@, some(0));
    }
    while i < xs.len()
        invariant
            i <= xs.len(),
            in_range(owner@, seen@.len() as int),
            some == (|k: int| |v: VarId| exists|i: int| 0 <= i < k && mentions(#[trigger] xs@[i], v)),
            marks(old(seen)@, seen@, owner@, some(i as int)),
        decreases xs.len() - i,
    {
        let ghost was = seen@;
        expr_slots(&xs[i], owner, seen);
        proof {
            let one = |v: VarId| mentions(xs@[i as int], v);
            assert forall|v: VarId| #[trigger] some(i + 1)(v) == (some(i as int)(v) || one(v)) by {
                if mentions(xs@[i as int], v) {
                    assert(some(i + 1)(v));
                }
            }
            lemma_marks_or(old(seen)@, was, seen@, owner@, some(i as int), one, some(i + 1));
        }
        i = i + 1;
    }
    proof {
        lemma_marks_same(
            old(seen)@,
            seen@,
            owner@,
            some(i as int),
            |v: VarId| exists|i: int| 0 <= i < xs@.len() && mentions(#[trigger] xs@[i], v),
        );
    }
}

fn arm_slots(xs: &Vec<(Vec<VarId>, Expr)>, owner: &HashMap<VarId, usize>, seen: &mut Vec<bool>)
    requires
        in_range(owner@, old(seen)@.len() as int),
    ensures
        marks(
            old(seen)@,
            final(seen)@,
            owner@,
            |v: VarId| exists|i: int| 0 <= i < xs@.len() && mentions((#[trigger] xs@[i]).1, v),
        ),
    decreases xs,
{
    let ghost some = |k: int| |v: VarId| exists|i: int| 0 <= i < k && mentions((#[trigger] xs@[i]).1, v);
    let mut i: usize = 0;
    proof {
        lemma_marks_none(seen@, owner@, some(0));
    }
    while i < xs.len()
        invariant
            i <= xs.len(),
            in_range(owner@, seen@.len() as int),
            some == (|k: int| |v: VarId| exists|i: int| 0 <= i < k && mentions((#[trigger] xs@[i]).1, v)),
            marks(old(seen)@, seen@, owner@, some(i as int)),
        decreases xs.len() - i,
    {
        let ghost was = seen@;
        proof {
            assert(decreases_to!(xs => xs@[i as int]));
        }
        expr_slots(&xs[i].1, owner, seen);
        proof {
            let one = |v: VarId| mentions(xs@[i as int].1, v);
            assert forall|v: VarId| #[trigger] some(i + 1)(v) == (some(i as int)(v) || one(v)) by {
                if mentions(xs@[i as int].1, v) {
                    assert(some(i + 1)(v));
                }
            }
            lemma_marks_or(old(seen)@, was, seen@, owner@, some(i as int), one, some(i + 1));
        }
        i = i + 1;
    }
    proof {
        lemma_marks_same(
            old(seen)@,
            seen@,
            owner@,
            some(i as int),
            |v: VarId| exists|i: int| 0 <= i < xs@.len() && mentions((#[trigger] xs@[i]).1, v),
        );
    }
}

fn field_slots(xs: &Vec<(String, Expr)>, owner: &HashMap<VarId, usize>, seen: &mut Vec<bool>)
    requires
        in_range(owner@, old(seen)@.len() as int),
    ensures
        marks(
            old(seen)@,
            final(seen)@,
            owner@,
            |v: VarId| exists|i: int| 0 <= i < xs@.len() && mentions((#[trigger] xs@[i]).1, v),
        ),
    decreases xs,
{
    let ghost some = |k: int| |v: VarId| exists|i: int| 0 <= i < k && mentions((#[trigger] xs@[i]).1, v);
    let mut i: usize = 0;
    proof {
        lemma_marks_none(seen@, owner@, some(0));
    }
    while i < xs.len()
        invariant
            i <= xs.len(),
            in_range(owner@, seen@.len() as int),
            some == (|k: int| |v: VarId| exists|i: int| 0 <= i < k && mentions((#[trigger] xs@[i]).1, v)),
            marks(old(seen)@, seen@, owner@, some(i as int)),
        decreases xs.len() - i,
    {
        let ghost was = seen@;
        proof {
            assert(decreases_to!(xs => xs@[i as int]));
        }
        expr_slots(&xs[i].1, owner, seen);
        proof {
            let one = |v: VarId| mentions(xs@[i as int].1, v);
            assert forall|v: VarId| #[trigger] some(i + 1)(v) == (some(i as int)(v) || one(v)) by {
                if mentions(xs@[i as int].1, v) {
                    assert(some(i + 1)(v));
                }
            }
            lemma_marks_or(old(seen)@, was, seen@, owner@, some(i as int), one, some(i + 1));
        }
        i = i + 1;
    }
    proof {
        lemma_marks_same(
            old(seen)@,
            seen@,
            owner@,
            some(i as int),
            |v: VarId| exists|i: int| 0 <= i < xs@.len() && mentions((#[trigger] xs@[i]).1, v),
        );
    }
}

fn binds_slots(xs: &Vec<Bind>, owner: &HashMap<VarId, usize>, seen: &mut Vec<bool>)
    requires
        in_range(owner@, old(seen)@.len() as int),
    ensures
        marks(
            old(seen)@,
            final(seen)@,
            owner@,
            |v: VarId| exists|i: int| 0 <= i < xs@.len() && bind_mentions(#[trigger] xs@[i], v),
        ),
    decreases xs,
{
    let ghost some = |k: int| |v: VarId| exists|i: int| 0 <= i < k && bind_mentions(#[trigger] xs@[i], v);
    let mut i: usize = 0;
    proof {
        lemma_marks_none(seen@, owner@, some(0));
    }
    while i < xs.len()
        invariant
            i <= xs.len(),
            in_range(owner@, seen@.len() as int),
            some == (|k: int| |v: VarId| exists|i: int| 0 <= i < k && bind_mentions(#[trigger] xs@[i], v)),
            marks(old(seen)@, seen@, owner@, some(i as int)),
        decreases xs.len() - i,
    {
        let ghost was = seen@;
        bind_slots(&xs[i], owner, seen);
        proof {
            let one = |v: VarId| bind_mentions(xs@[i as int], v);
            assert forall|v: VarId| #[trigger] some(i + 1)(v) == (some(i as int)(v) || one(v)) by {
                if bind_mentions(xs@[i as int], v) {
                    assert(some(i + 1)(v));
                }
            }
            lemma_marks_or(old(seen)@, was, seen@, owner@, some(i as int), one, some(i + 1));
        }
        i = i + 1;
    }
    proof {
        lemma_marks_same(
            old(seen)@,
            seen@,
            owner@,
            some(i as int),
            |v: VarId| exists|i: int| 0 <= i < xs@.len() && bind_mentions(#[trigger] xs@[i], v),
        );
    }
}

fn expr_slots(e: &Expr, owner: &HashMap<VarId, usize>, seen: &mut Vec<bool>)
    requires
        in_range(owner@, old(seen)@.len() as int),
    ensures
        marks(old(seen)@, final(seen)@, owner@, |v: VarId| mentions(*e, v)),
    decreases e,
{
    let ghost a = seen@;
    let ghost all = |v: VarId| mentions(*e, v);
    match e {
        Expr::Var(x) => {
            match owner.get(x) {
                Some(s) => {
                    seen.set(*s, true);
                    proof {
                        assert(owner@[*x] == *s);
                    }
                },
                None => {},
            }
        },
        Expr::Lam(_, body) => {
            expr_slots(body, owner, seen);
            proof {
                lemma_marks_same(a, seen@, owner@, |v: VarId| mentions(**body, v), all);
            }
        },
        Expr::App(f, args) => {
            expr_slots(f, owner, seen);
            let ghost b = seen@;
            list_slots(args, owner, seen);
            proof {
                lemma_marks_or(
                    a,
                    b,
                    seen@,
                    owner@,
                    |v: VarId| mentions(**f, v),
                    |v: VarId| exists|i: int| 0 <= i < args@.len() && mentions(#[trigger] args@[i], v),
                    all,
                );
            }
        },
        Expr::Let(bs, body) => {
            expr_slots(body, owner, seen);
            let ghost b = seen@;
            binds_slots(bs, owner, seen);
            proof {
                lemma_marks_or(
                    a,
                    b,
                    seen@,
                    owner@,
                    |v: VarId| mentions(**body, v),
                    |v: VarId| exists|i: int| 0 <= i < bs@.len() && bind_mentions(#[trigger] bs@[i], v),
                    all,
                );
            }
        },
        Expr::If(c, t, f) => {
            expr_slots(c, owner, seen);
            let ghost b = seen@;
            expr_slots(t, owner, seen);
            let ghost d = seen@;
            expr_slots(f, owner, seen);
            proof {
                let two = |v: VarId| mentions(**c, v) || mentions(**t, v);
                lemma_marks_or(a, b, d, owner@, |v: VarId| mentions(**c, v), |v: VarId| mentions(**t, v), two);
                lemma_marks_or(a, d, seen@, owner@, two, |v: VarId| mentions(**f, v), all);
            }
        },
        Expr::Match(s, arms) => {
            expr_slots(s, owner, seen);
            let ghost b = seen@;
            arm_slots(arms, owner, seen);
            proof {
                lemma_marks_or(
                    a,
                    b,
                    seen@,
                    owner@,
                    |v: VarId| mentions(**s, v),
                    |v: VarId| exists|i: int| 0 <= i < arms@.len() && mentions((#[trigger] arms@[i]).1, v),
                    all,
                );
            }
        },
        Expr::Tuple(xs) | Expr::Array(xs) | Expr::List(xs) | Expr::Cons(_, xs) => {
            list_slots(xs, owner, seen);
            proof {
                lemma_marks_same(
                    a,
                    seen@,
                    owner@,
                    |v: VarId| exists|i: int| 0 <= i < xs@.len() && mentions(#[trigger] xs@[i], v),
                    all,
                );
            }
        },
        Expr::Record(fields, base) => {
            field_slots(fields, owner, seen);
            let ghost b = seen@;
            let ghost some = |v: VarId| exists|i: int| 0 <= i < fields@.len() && mentions((#[trigger] fields@[i]).1, v);
            match base {
                Some(o) => {
                    expr_slots(o, owner, seen);
                    proof {
                        lemma_marks_or(a, b, seen@, owner@, some, |v: VarId| mentions(**o, v), all);
                    }
                },
                None => {
                    proof {
                        lemma_marks_same(a, seen@, owner@, some, all);
                    }
                },
            }
        },
        Expr::Field(o, _) => {
            expr_slots(o, owner, seen);
            proof {
                lemma_marks_same(a, seen@, owner@, |v: VarId| mentions(**o, v), all);
            }
        },
        Expr::Handle(body, arms, ret) => {
            expr_slots(body, owner, seen);
            let ghost b = seen@;
            field_slots(arms, owner, seen);
            let ghost c = seen@;
            let ghost some = |v: VarId| exists|i: int| 0 <= i < arms@.len() && mentions((#[trigger] arms@[i]).1, v);
            let ghost two = |v: VarId| mentions(**body, v) || some(v);
            proof {
                lemma_marks_or(a, b, c, owner@, |v: VarId| mentions(**body, v), some, two);
            }
            match ret {
                Some(r) => {
                    expr_slots(&r.1, owner, seen);
                    proof {
                        lemma_marks_or(a, c, seen@, owner@, two, |v: VarId| mentions(*r.1, v), all);
                    }
                },
                None => {
                    proof {
                        lemma_marks_same(a, seen@, owner@, two, all);
                    }
                },
            }
        },
        Expr::Lit | Expr::Unit | Expr::Error => {
            proof {
                lemma_marks_none(a, owner@, all);
            }
        },
    }
}

/// The slots marked in `seen`, in order, but for `but`.
fn marked(seen: &Vec<bool>, but: Option<usize>) -> (l: Vec<usize>)
    ensures
        ascending(l@, seen@.len() as int, |d: int| seen@[d] && but != Some(d as usize)),
{
    let ghost p = |d: int| seen@[d] && but != Some(d as usize);
    let mut l: Vec<usize> = Vec::new();
    let mut i: usize = 0;
    while i < seen.len()
        invariant
            i <= seen@.len(),
            p == (|d: int| seen@[d] && but != Some(d as usize)),
            ascending(l@, i as int, p),
        decreases seen.len() - i,
    {
        let skip: bool = match but {
            Some(b) => b == i,
            None => false,
        };
        let ghost was = l@;
        if seen[i] && !skip {
            l.push(i);
        }
        proof {
            assert forall|d: usize| d < i + 1 && p(d as int) implies #[trigger] l@.contains(d) by {
                if d < i {
                    assert(was.contains(d));
                    let k = choose|k: int| 0 <= k < was.len() && was[k] == d;
                    assert(l@[k] == d);
                } else {
                    assert(l@[l@.len() - 1] == d);
                }
            }
        }
        i = i + 1;
    }
    l
}

proof fn lemma_edges(
    owner: Map<VarId, usize>,
    holder: spec_fn(int, VarId) -> bool,
    names: spec_fn(int, VarId) -> bool,
    n: int,
    m: int,
    seen: Seq<bool>,
    d: int,
)
    requires
        owner_of(owner, holder, n),
        marks(Seq::new(n as nat, |i: int| false), seen, owner, |v: VarId| names(m, v)),
        0 <= d < n,
    ensures
        seen[d] == depends(holder, names, n, m, d),
{
    assert(seen[d] == (Seq::new(n as nat, |i: int| false)[d] || exists|v: VarId|
        names(m, v) && owner.dom().contains(v) && #[trigger] owner[v] == d));
    if seen[d] {
        let v = choose|v: VarId| names(m, v) && owner.dom().contains(v) && #[trigger] owner[v] == d;
        assert(owns(holder, n, v, d));
    }
    if depends(holder, names, n, m, d) {
        let v = choose|v: VarId| names(m, v) && #[trigger] owns(holder, n, v, d);
        assert(holder(d, v));
        let e = owner[v] as int;
        assert(owns(holder, n, v, e));
        if e < d {
            assert(!holder(d, v));
        } else if d < e {
            assert(!holder(e, v));
        }
    }
}

/// Taking one more definition into account.
proof fn lemma_owner_step(
    was: Map<VarId, usize>,
    now: Map<VarId, usize>,
    before: spec_fn(int, VarId) -> bool,
    after: spec_fn(int, VarId) -> bool,
    slot: usize,
    binds_it: spec_fn(VarId) -> bool,
)
    requires
        owner_of(was, before, slot + 1),
        forall|v: VarId| #[trigger] now.dom().contains(v) <==> was.dom().contains(v) || binds_it(v),
        forall|v: VarId| binds_it(v) ==> #[trigger] now[v] == slot,
        forall|v: VarId| !binds_it(v) && was.dom().contains(v) ==> #[trigger] now[v] == was[v],
        forall|d: int, v: VarId|
            0 <= d <= slot ==> #[trigger] after(d, v) == (before(d, v) || (d == slot && binds_it(v))),
    ensures
        owner_of(now, after, slot + 1),
{
    assert forall|v: VarId| now.dom().contains(v) implies owns(after, slot + 1, v, #[trigger] now[v] as int) by {
        if binds_it(v) {
            assert(after(slot as int, v));
        } else {
            let d = was[v] as int;
            assert(owns(before, slot + 1, v, d));
            assert(after(d, v));
            assert forall|e: int| d < e < slot + 1 implies !#[trigger] after(e, v) by {
                assert(!before(e, v));
            }
        }
    }
    assert forall|v: VarId, d: int| 0 <= d < slot + 1 && #[trigger] after(d, v) implies now.dom().contains(v) by {
        if before(d, v) {
            assert(was.dom().contains(v));
        } else {
            assert(binds_it(v));
        }
    }
}

proof fn lemma_owner_grows(
    owner: Map<VarId, usize>,
    before: spec_fn(int, VarId) -> bool,
    after: spec_fn(int, VarId) -> bool,
    n: int,
)
    requires
        owner_of(owner, before, n),
        forall|d: int, v: VarId| 0 <= d < n ==> #[trigger] after(d, v) == before(d, v),
        forall|v: VarId| !#[trigger] after(n, v),
    ensures
        owner_of(owner, after, n + 1),
{
    assert forall|v: VarId| owner.dom().contains(v) implies owns(after, n + 1, v, #[trigger] owner[v] as int) by {
        let d = owner[v] as int;
        assert(owns(before, n, v, d));
        assert(after(d, v));
        assert forall|e: int| d < e < n + 1 implies !#[trigger] after(e, v) by {
            if e < n {
                assert(!before(e, v));
            }
        }
    }
    assert forall|v: VarId, d: int| 0 <= d < n + 1 && #[trigger] after(d, v) implies owner.dom().contains(v) by {
        assert(d < n);
        assert(before(d, v));
    }
}

/// The first `k` declarations of `m` bind `v`.
spec fn defines_in(m: Module, k: int, v: VarId) -> bool {
    exists|i: int| 0 <= i < k && #[trigger] decl_binds(m.decls@[i], v)
}

/// Which module defines which name.
fn owners(modules: &Vec<Module>) -> (owner: HashMap<VarId, usize>)
    ensures
        owner_of(owner@, |d: int, v: VarId| defines(modules@[d], v), modules@.len() as int),
{
    let mut owner: HashMap<VarId, usize> = HashMap::new();
    let ghost holder = |d: int, v: VarId| defines(modules@[d], v);
    let mut m: usize = 0;
    while m < modules.len()
        invariant
            m <= modules@.len(),
            holder == (|d: int, v: VarId| defines(modules@[d], v)),
            owner_of(owner@, holder, m as int),
        decreases modules.len() - m,
    {
        let module: &Module = &modules[m];
        let ghost upto = |k: int|
            |d: int, v: VarId|
                if d == m {
                    defines_in(*module, k, v)
                } else {
                    defines(modules@[d], v)
                };
        proof {
            lemma_owner_grows(owner@, holder, upto(0), m as int);
        }
        let mut i: usize = 0;
        while i < module.decls.len()
            invariant
                i <= module.decls@.len(),
                m < modules@.len(),
                upto == (|k: int|
                    |d: int, v: VarId|
                        if d == m {
                            defines_in(*module, k, v)
                        } else {
                            defines(modules@[d], v)
                        }),
                owner_of(owner@, upto(i as int), m + 1),
            decreases module.decls.len() - i,
        {
            let ghost was = owner@;
            let ghost binds_it = |v: VarId| decl_binds(module.decls@[i as int], v);
            match &module.decls[i] {
                Decl::Bind(b) => note_bound(b, m, &mut owner),
                _ => {},
            }
            proof {
                assert forall|d: int, v: VarId| 0 <= d <= m implies #[trigger] upto(i + 1)(d, v) == (upto(i as int)(d, v)
                    || (d == m && binds_it(v))) by {
                    if d == m && decl_binds(module.decls@[i as int], v) {
                        assert(defines_in(*module, i + 1, v));
                    }
                }
                assert forall|v: VarId| #[trigger] owner@.dom().contains(v) <==> was.dom().contains(v) || binds_it(v) by {
                    if let Decl::Bind(b) = module.decls@[i as int] {
                        assert(binds_it(v) == binds(b, v));
                    }
                }
                lemma_owner_step(was, owner@, upto(i as int), upto(i + 1), m, binds_it);
            }
            i = i + 1;
        }
        proof {
            assert forall|d: int, v: VarId| 0 <= d < m + 1 implies #[trigger] holder(d, v) == upto(
                module.decls@.len() as int,
            )(d, v) by {}
            lemma_owner_same(owner@, upto(module.decls@.len() as int), holder, m + 1);
        }
        m = m + 1;
    }
    owner
}

proof fn lemma_owner_same(
    owner: Map<VarId, usize>,
    before: spec_fn(int, VarId) -> bool,
    after: spec_fn(int, VarId) -> bool,
    n: int,
)
    requires
        owner_of(owner, before, n),
        forall|d: int, v: VarId| 0 <= d < n ==> #[trigger] after(d, v) == before(d, v),
    ensures
        owner_of(owner, after, n),
{
    assert forall|v: VarId| owner.dom().contains(v) implies owns(after, n, v, #[trigger] owner[v] as int) by {
        let d = owner[v] as int;
        assert(owns(before, n, v, d));
        assert(after(d, v));
        assert forall|e: int| d < e < n implies !#[trigger] after(e, v) by {
            assert(!before(e, v));
        }
    }
    assert forall|v: VarId, d: int| 0 <= d < n && #[trigger] after(d, v) implies owner.dom().contains(v) by {
        assert(before(d, v));
    }
}

/// The modules module `m` mentions, other than itself.
pub open spec fn module_deps(modules: Seq<Module>, m: int, d: int) -> bool {
    m != d && depends(
        |d: int, v: VarId| defines(modules[d], v),
        |m: int, v: VarId| refers(modules[m], v),
        modules.len() as int,
        m,
        d,
    )
}

/// `order` is a dependency order of `modules`.
pub open spec fn orders(modules: Seq<Module>, order: Seq<usize>) -> bool {
    exists|edges: Seq<Vec<usize>>, comps: Seq<Vec<usize>>|
        graph_of(edges, modules.len() as int, |m: int, d: int| module_deps(modules, m, d)) && #[trigger] components(
            edges,
            comps,
        ) && order == laid(comps)
}

spec fn refers_in(m: Module, k: int, v: VarId) -> bool {
    exists|i: int| 0 <= i < k && #[trigger] decl_refers(m.decls@[i], v)
}

/// The slots of the modules whose names `module` mentions.
fn module_slots(module: &Module, owner: &HashMap<VarId, usize>, n: usize) -> (seen: Vec<bool>)
    requires
        in_range(owner@, n as int),
    ensures
        marks(Seq::new(n as nat, |i: int| false), seen@, owner@, |v: VarId| refers(*module, v)),
{
    let mut seen: Vec<bool> = Vec::new();
    seen.resize(n, false);
    let ghost none = Seq::new(n as nat, |i: int| false);
    let ghost some = |k: int| |v: VarId| refers_in(*module, k, v);
    proof {
        assert(seen@ =~= none);
        lemma_marks_none(none, owner@, some(0));
    }
    let mut i: usize = 0;
    while i < module.decls.len()
        invariant
            i <= module.decls@.len(),
            in_range(owner@, n as int),
            seen@.len() == n,
            none == Seq::new(n as nat, |i: int| false),
            some == (|k: int| |v: VarId| refers_in(*module, k, v)),
            marks(none, seen@, owner@, some(i as int)),
        decreases module.decls.len() - i,
    {
        let ghost was = seen@;
        let ghost one = |v: VarId| decl_refers(module.decls@[i as int], v);
        match &module.decls[i] {
            Decl::Bind(b) => {
                bind_slots(b, owner, &mut seen);
                proof {
                    lemma_marks_same(was, seen@, owner@, |v: VarId| bind_mentions(*b, v), one);
                }
            },
            _ => {
                proof {
                    lemma_marks_none(was, owner@, one);
                }
            },
        }
        proof {
            assert forall|v: VarId| #[trigger] some(i + 1)(v) == (some(i as int)(v) || one(v)) by {
                if one(v) {
                    assert(decl_refers(module.decls@[i as int], v));
                    assert(some(i + 1)(v));
                }
            }
            lemma_marks_or(none, was, seen@, owner@, some(i as int), one, some(i + 1));
        }
        i = i + 1;
    }
    proof {
        lemma_marks_same(none, seen@, owner@, some(i as int), |v: VarId| refers(*module, v));
    }
    seen
}

/// Dependency order for the modules of one compilation unit, as a permutation:
/// the module to place `k`th is `module_order(..)[k]`.
///
/// A unit's modules are resolved together into one flat scope, so a module can
/// name a sibling's bindings without a `use` and two modules may be mutually
/// recursive. Mutually recursive modules keep their source order relative to one
/// another -- there is no better answer, and source order is the predictable one.
pub fn module_order(modules: &Vec<Module>) -> (order: Vec<usize>)
    ensures
        orders(modules@, order@),
{
    let owner: HashMap<VarId, usize> = owners(modules);
    let n: usize = modules.len();
    let ghost holder = |d: int, v: VarId| defines(modules@[d], v);
    let ghost names = |m: int, v: VarId| refers(modules@[m], v);
    let ghost deps = |m: int, d: int| module_deps(modules@, m, d);
    proof {
        assert forall|v: VarId| owner@.dom().contains(v) implies #[trigger] owner@[v] < n by {
            assert(owns(holder, n as int, v, owner@[v] as int));
        }
    }
    let mut edges: Vec<Vec<usize>> = Vec::new();
    let mut m: usize = 0;
    while m < n
        invariant
            m <= n,
            n == modules@.len(),
            edges@.len() == m,
            holder == (|d: int, v: VarId| defines(modules@[d], v)),
            names == (|m: int, v: VarId| refers(modules@[m], v)),
            deps == (|m: int, d: int| module_deps(modules@, m, d)),
            owner_of(owner@, holder, n as int),
            in_range(owner@, n as int),
            forall|k: int| 0 <= k < m ==> ascending(#[trigger] edges@[k]@, n as int, |d: int| deps(k, d)),
        decreases n - m,
    {
        let seen: Vec<bool> = module_slots(&modules[m], &owner, n);
        let l: Vec<usize> = marked(&seen, Some(m));
        proof {
            let none = Seq::new(n as nat, |i: int| false);
            lemma_marks_same(
                none,
                seen@,
                owner@,
                |v: VarId| refers(modules@[m as int], v),
                |v: VarId| names(m as int, v),
            );
            assert forall|d: int| 0 <= d < n implies #[trigger] seen@[d] == depends(holder, names, n as int, m as int, d) by {
                lemma_edges(owner@, holder, names, n as int, m as int, seen@, d);
            }
            let p = |d: int| seen@[d] && Some(m) != Some(d as usize);
            let q = |d: int| deps(m as int, d);
            assert forall|d: int| 0 <= d < n implies #[trigger] p(d) == q(d) by {}
            lemma_ascending_same(l@, n as int, p, q);
        }
        let ghost was = edges@;
        edges.push(l);
        proof {
            assert forall|k: int| 0 <= k < m + 1 implies ascending(#[trigger] edges@[k]@, n as int, |d: int| deps(k, d)) by {
                if k < m {
                    assert(edges@[k] == was[k]);
                }
            }
        }
        m = m + 1;
    }
    let comps: Vec<Vec<usize>> = sorted(&edges, Ghost(n as int), Ghost(deps));
    let order: Vec<usize> = lay(&comps);
    proof {
        assert(components(edges@, comps@));
    }
    order
}

proof fn lemma_ascending_same(l: Seq<usize>, n: int, p: spec_fn(int) -> bool, q: spec_fn(int) -> bool)
    requires
        ascending(l, n, p),
        forall|d: int| 0 <= d < n ==> #[trigger] p(d) == q(d),
    ensures
        ascending(l, n, q),
{
    assert forall|i: int| 0 <= i < l.len() implies #[trigger] l[i] < n && q(l[i] as int) by {
        assert(p(l[i] as int));
    }
    assert forall|d: usize| d < n && q(d as int) implies #[trigger] l.contains(d) by {
        assert(p(d as int));
    }
}

fn sorted(edges: &Vec<Vec<usize>>, Ghost(n): Ghost<int>, Ghost(deps): Ghost<spec_fn(int, int) -> bool>) -> (comps: Vec<
    Vec<usize>,
>)
    requires
        graph_of(edges@, n, deps),
    ensures
        components(edges@, comps@),
{
    proof {
        assert forall|v: int, i: int| 0 <= v < edges@.len() && 0 <= i < edges@[v]@.len() implies #[trigger] edges@[v]@[i]
            < edges@.len() by {
            assert(ascending(edges@[v]@, n, |d: int| deps(v, d)));
        }
    }
    scc(edges.as_slice())
}

/// The nodes of `comps`, one component after the other.
fn lay(comps: &Vec<Vec<usize>>) -> (r: Vec<usize>)
    ensures
        r@ == laid(comps@),
{
    let mut r: Vec<usize> = Vec::new();
    let mut k: usize = 0;
    proof {
        assert(comps@.take(0) =~= Seq::<Vec<usize>>::empty());
    }
    while k < comps.len()
        invariant
            k <= comps@.len(),
            r@ == laid(comps@.take(k as int)),
        decreases comps.len() - k,
    {
        let ghost was = r@;
        let mut i: usize = 0;
        while i < comps[k].len()
            invariant
                k < comps@.len(),
                i <= comps@[k as int]@.len(),
                r@ == was + comps@[k as int]@.take(i as int),
            decreases comps@[k as int]@.len() - i,
        {
            r.push(comps[k][i]);
            proof {
                assert(comps@[k as int]@.take(i + 1) =~= comps@[k as int]@.take(i as int).push(comps@[k as int]@[i as int]));
                assert(r@ =~= was + comps@[k as int]@.take(i + 1));
            }
            i = i + 1;
        }
        proof {
            assert(comps@[k as int]@.take(i as int) =~= comps@[k as int]@);
            assert(comps@.take(k + 1).drop_last() =~= comps@.take(k as int));
        }
        k = k + 1;
    }
    proof {
        assert(comps@.take(k as int) =~= comps@);
    }
    r
}

/// The components share no node, and none lists a node twice.
pub open spec fn apart(comps: Seq<Vec<usize>>) -> bool {
    &&& forall|j: int, k: int, v: usize|
        0 <= j < comps.len() && 0 <= k < comps.len() && #[trigger] comps[j]@.contains(v)
            && #[trigger] comps[k]@.contains(v) ==> j == k
    &&& forall|k: int, i: int, j: int|
        0 <= k < comps.len() && 0 <= i < j < comps[k]@.len() ==> #[trigger] comps[k]@[i] < #[trigger] comps[k]@[j]
}

/// `v` is at `i` in `laid(comps)` because it is at `o` in `comps[k]`.
pub open spec fn lies(comps: Seq<Vec<usize>>, i: int, k: int, o: int) -> bool {
    &&& 0 <= k < comps.len()
    &&& 0 <= o < comps[k]@.len()
    &&& i == laid(comps.take(k)).len() + o
    &&& 0 <= i < laid(comps).len()
    &&& laid(comps)[i] == comps[k]@[o]
}

proof fn lemma_laid_at(comps: Seq<Vec<usize>>, k: int, o: int)
    requires
        0 <= k < comps.len(),
        0 <= o < comps[k]@.len(),
    ensures
        lies(comps, laid(comps.take(k)).len() + o, k, o),
    decreases comps.len(),
{
    let last = comps.len() - 1;
    assert(comps.drop_last() =~= comps.take(last));
    if k < last {
        let d = comps.drop_last();
        lemma_laid_at(d, k, o);
        assert(d.take(k) =~= comps.take(k));
    }
}

proof fn lemma_laid_from(comps: Seq<Vec<usize>>, i: int)
    requires
        0 <= i < laid(comps).len(),
    ensures
        exists|k: int, o: int| #[trigger] lies(comps, i, k, o),
    decreases comps.len(),
{
    let last = comps.len() - 1;
    let d = comps.drop_last();
    assert(d =~= comps.take(last));
    if i < laid(d).len() {
        lemma_laid_from(d, i);
        let (k, o) = choose|k: int, o: int| #[trigger] lies(d, i, k, o);
        assert(d.take(k) =~= comps.take(k));
        assert(lies(comps, i, k, o));
    } else {
        assert(lies(comps, i, last, i - laid(d).len()));
    }
}

proof fn lemma_laid_grows(comps: Seq<Vec<usize>>, j: int, k: int)
    requires
        0 <= j < k <= comps.len(),
    ensures
        laid(comps.take(j)).len() + comps[j]@.len() <= laid(comps.take(k)).len(),
    decreases k,
{
    assert(comps.take(k).drop_last() =~= comps.take(k - 1));
    if j < k - 1 {
        lemma_laid_grows(comps, j, k - 1);
    }
}

/// What is laid out holds no node twice.
pub proof fn laid_holds_each_once(comps: Seq<Vec<usize>>, i: int, j: int)
    requires
        apart(comps),
        0 <= i < laid(comps).len(),
        0 <= j < laid(comps).len(),
        laid(comps)[i] == laid(comps)[j],
    ensures
        i == j,
{
    lemma_laid_from(comps, i);
    lemma_laid_from(comps, j);
    let (k, o) = choose|k: int, o: int| #[trigger] lies(comps, i, k, o);
    let (l, p) = choose|k: int, o: int| #[trigger] lies(comps, j, k, o);
    assert(comps[k]@.contains(comps[k]@[o]));
    assert(comps[l]@.contains(comps[l]@[p]));
}

/// The order of a unit's modules holds every one of them, once.
pub proof fn an_order_is_a_permutation(edges: Seq<Vec<usize>>, comps: Seq<Vec<usize>>, v: usize)
    requires
        components(edges, comps),
        v < edges.len(),
    ensures
        laid(comps).contains(v),
        apart(comps),
        forall|i: int| 0 <= i < laid(comps).len() ==> #[trigger] laid(comps)[i] < edges.len(),
{
    assert(super::tarjan::placed(comps, v));
    let k = choose|k: int| 0 <= k < comps.len() && #[trigger] comps[k]@.contains(v);
    let o = choose|o: int| 0 <= o < comps[k]@.len() && comps[k]@[o] == v;
    lemma_laid_at(comps, k, o);
    assert(laid(comps)[laid(comps.take(k)).len() + o] == v);
    assert forall|i: int| 0 <= i < laid(comps).len() implies #[trigger] laid(comps)[i] < edges.len() by {
        lemma_laid_from(comps, i);
        let (k, o) = choose|k: int, o: int| #[trigger] lies(comps, i, k, o);
    }
}

/// What is depended on is placed before what depends on it, unless the two
/// depend on each other -- and then in source order, with nothing between that
/// is not of their component.
pub proof fn a_dependency_is_placed_first(
    edges: Seq<Vec<usize>>,
    comps: Seq<Vec<usize>>,
    i: int,
    j: int,
)
    requires
        components(edges, comps),
        0 <= i < laid(comps).len(),
        0 <= j < laid(comps).len(),
        reaches(edges, laid(comps)[i] as int, laid(comps)[j] as int),
        i != j,
    ensures
        !reaches(edges, laid(comps)[j] as int, laid(comps)[i] as int) ==> j < i,
        reaches(edges, laid(comps)[j] as int, laid(comps)[i] as int) ==> (j < i <==> laid(comps)[j] < laid(comps)[i]),
{
    lemma_laid_from(comps, i);
    lemma_laid_from(comps, j);
    let (k, o) = choose|k: int, o: int| #[trigger] lies(comps, i, k, o);
    let (l, p) = choose|k: int, o: int| #[trigger] lies(comps, j, k, o);
    let a = comps[k]@[o];
    let b = comps[l]@[p];
    assert(comps[k]@.contains(a) && comps[l]@.contains(b));
    assert(a < edges.len() && b < edges.len());
    super::tarjan::mutual_reach_is_one_component(edges, comps, a, b, k, l);
    let (x, y) = (a as int, b as int);
    assert(comps[k]@.contains(x as usize) && comps[l]@.contains(y as usize));
    assert(l <= k);
    if l < k {
        lemma_laid_grows(comps, l, k);
    }
    if k == l {
        if o < p {
            assert(comps[k]@[o] < comps[k]@[p]);
        } else if p < o {
            assert(comps[k]@[p] < comps[k]@[o]);
        }
    }
}

/// The declarations that bind nothing, in order.
pub open spec fn others(decls: Seq<Decl>) -> Seq<Decl> {
    decls.filter(|d: Decl| !(d is Bind))
}

/// Binding `m` of `decls`, of those at `at`, mentions something binding `d` binds.
pub open spec fn bind_deps(decls: Seq<Decl>, at: Seq<usize>, m: int, d: int) -> bool {
    depends(
        |d: int, v: VarId| decl_binds(decls[at[d] as int], v),
        |m: int, v: VarId| decl_refers(decls[at[m] as int], v),
        at.len() as int,
        m,
        d,
    )
}

/// The group component `k` makes, in a module with `before` other declarations.
pub open spec fn is_group(g: BindGroup, edges: Seq<Vec<usize>>, comps: Seq<Vec<usize>>, before: int, k: int) -> bool {
    &&& g.members@ == Seq::new(comps[k]@.len(), |i: int| (before + laid(comps.take(k)).len() + i) as usize)
    &&& g.recursive == (comps[k]@.len() > 1 || edge(edges, comps[k]@[0] as int, comps[k]@[0] as int))
}

/// `now` is `decls` in the order `comps` says: what binds nothing first, then
/// the bindings a component after the other, with a group for each.
pub open spec fn is_grouping(
    decls: Seq<Decl>,
    now: Module,
    at: Seq<usize>,
    edges: Seq<Vec<usize>>,
    comps: Seq<Vec<usize>>,
) -> bool {
    &&& ascending(at, decls.len() as int, |i: int| decls[i] is Bind)
    &&& graph_of(edges, at.len() as int, |m: int, d: int| bind_deps(decls, at, m, d))
    &&& components(edges, comps)
    &&& now.decls@ == others(decls) + laid(comps).map_values(|s: usize| decls[at[s as int] as int])
    &&& now.groups@.len() == comps.len()
    &&& forall|k: int|
        0 <= k < comps.len() ==> is_group(#[trigger] now.groups@[k], edges, comps, others(decls).len() as int, k)
}

/// `now` is `decls` in dependency order, with a group for each component.
pub open spec fn grouped(decls: Seq<Decl>, now: Module) -> bool {
    exists|at: Seq<usize>, edges: Seq<Vec<usize>>, comps: Seq<Vec<usize>>|
        #[trigger] is_grouping(decls, now, at, edges, comps)
}

/// Where the bindings of a module are.
fn bindings(decls: &Vec<Decl>) -> (at: Vec<usize>)
    ensures
        ascending(at@, decls@.len() as int, |i: int| decls@[i] is Bind),
{
    let mut seen: Vec<bool> = Vec::new();
    let mut i: usize = 0;
    while i < decls.len()
        invariant
            i <= decls@.len(),
            seen@.len() == i,
            forall|j: int| 0 <= j < i ==> #[trigger] seen@[j] == (decls@[j] is Bind),
        decreases decls.len() - i,
    {
        let is_bind: bool = match &decls[i] {
            Decl::Bind(_) => true,
            _ => false,
        };
        seen.push(is_bind);
        i = i + 1;
    }
    let at: Vec<usize> = marked(&seen, None);
    proof {
        lemma_ascending_same(
            at@,
            decls@.len() as int,
            |d: int| seen@[d] && None::<usize> != Some(d as usize),
            |i: int| decls@[i] is Bind,
        );
    }
    at
}

/// Which binding defines which name, so a mention can be traced to a binding.
fn binders(decls: &Vec<Decl>, at: &Vec<usize>) -> (owner: HashMap<VarId, usize>)
    requires
        forall|i: int| 0 <= i < at@.len() ==> #[trigger] at@[i] < decls@.len(),
    ensures
        owner_of(owner@, |d: int, v: VarId| decl_binds(decls@[at@[d] as int], v), at@.len() as int),
{
    let mut owner: HashMap<VarId, usize> = HashMap::new();
    let ghost holder = |d: int, v: VarId| decl_binds(decls@[at@[d] as int], v);
    let mut m: usize = 0;
    while m < at.len()
        invariant
            m <= at@.len(),
            forall|i: int| 0 <= i < at@.len() ==> #[trigger] at@[i] < decls@.len(),
            holder == (|d: int, v: VarId| decl_binds(decls@[at@[d] as int], v)),
            owner_of(owner@, holder, m as int),
        decreases at.len() - m,
    {
        let ghost was = owner@;
        let ghost before = |d: int, v: VarId| d != m && holder(d, v);
        let ghost binds_it = |v: VarId| holder(m as int, v);
        match &decls[at[m]] {
            Decl::Bind(b) => note_bound(b, m, &mut owner),
            _ => {},
        }
        proof {
            lemma_owner_grows(was, holder, before, m as int);
            assert forall|v: VarId| #[trigger] owner@.dom().contains(v) <==> was.dom().contains(v) || binds_it(v) by {
                if let Decl::Bind(b) = decls@[at@[m as int] as int] {
                    assert(binds_it(v) == binds(b, v));
                }
            }
            assert forall|d: int, v: VarId| 0 <= d <= m implies #[trigger] holder(d, v) == (before(d, v) || (d == m
                && binds_it(v))) by {}
            lemma_owner_step(was, owner@, before, holder, m, binds_it);
        }
        m = m + 1;
    }
    owner
}

/// The graph of which binding mentions which, itself included: that is what
/// makes a lone binding recursive.
fn bind_edges(decls: &Vec<Decl>, at: &Vec<usize>) -> (edges: Vec<Vec<usize>>)
    requires
        forall|i: int| 0 <= i < at@.len() ==> #[trigger] at@[i] < decls@.len(),
    ensures
        graph_of(edges@, at@.len() as int, |m: int, d: int| bind_deps(decls@, at@, m, d)),
{
    let owner: HashMap<VarId, usize> = binders(decls, at);
    let n: usize = at.len();
    let ghost holder = |d: int, v: VarId| decl_binds(decls@[at@[d] as int], v);
    let ghost names = |m: int, v: VarId| decl_refers(decls@[at@[m] as int], v);
    let ghost deps = |m: int, d: int| bind_deps(decls@, at@, m, d);
    proof {
        assert forall|v: VarId| owner@.dom().contains(v) implies #[trigger] owner@[v] < n by {
            assert(owns(holder, n as int, v, owner@[v] as int));
        }
    }
    let mut edges: Vec<Vec<usize>> = Vec::new();
    let mut m: usize = 0;
    while m < n
        invariant
            m <= n,
            n == at@.len(),
            edges@.len() == m,
            forall|i: int| 0 <= i < at@.len() ==> #[trigger] at@[i] < decls@.len(),
            holder == (|d: int, v: VarId| decl_binds(decls@[at@[d] as int], v)),
            names == (|m: int, v: VarId| decl_refers(decls@[at@[m] as int], v)),
            deps == (|m: int, d: int| bind_deps(decls@, at@, m, d)),
            owner_of(owner@, holder, n as int),
            in_range(owner@, n as int),
            forall|k: int| 0 <= k < m ==> ascending(#[trigger] edges@[k]@, n as int, |d: int| deps(k, d)),
        decreases n - m,
    {
        let mut seen: Vec<bool> = Vec::new();
        seen.resize(n, false);
        let ghost none = Seq::new(n as nat, |i: int| false);
        let ghost one = |v: VarId| names(m as int, v);
        proof {
            assert(seen@ =~= none);
        }
        match &decls[at[m]] {
            Decl::Bind(b) => {
                bind_slots(b, &owner, &mut seen);
                proof {
                    lemma_marks_same(none, seen@, owner@, |v: VarId| bind_mentions(*b, v), one);
                }
            },
            _ => {
                proof {
                    lemma_marks_none(none, owner@, one);
                }
            },
        }
        let l: Vec<usize> = marked(&seen, None);
        proof {
            assert forall|d: int| 0 <= d < n implies #[trigger] seen@[d] == depends(
                holder,
                names,
                n as int,
                m as int,
                d,
            ) by {
                lemma_edges(owner@, holder, names, n as int, m as int, seen@, d);
            }
            let p = |d: int| seen@[d] && None::<usize> != Some(d as usize);
            let q = |d: int| deps(m as int, d);
            assert forall|d: int| 0 <= d < n implies #[trigger] p(d) == q(d) by {}
            lemma_ascending_same(l@, n as int, p, q);
        }
        let ghost was = edges@;
        edges.push(l);
        proof {
            assert forall|k: int| 0 <= k < m + 1 implies ascending(#[trigger] edges@[k]@, n as int, |d: int| deps(k, d)) by {
                if k < m {
                    assert(edges@[k] == was[k]);
                }
            }
        }
        m = m + 1;
    }
    edges
}

fn holds(l: &Vec<usize>, x: usize) -> (r: bool)
    ensures
        r == exists|i: int| 0 <= i < l@.len() && #[trigger] l@[i] == x,
{
    let mut i: usize = 0;
    while i < l.len()
        invariant
            i <= l@.len(),
            forall|j: int| 0 <= j < i ==> #[trigger] l@[j] != x,
        decreases l.len() - i,
    {
        if l[i] == x {
            return true;
        }
        i = i + 1;
    }
    false
}

/// The declarations of a module, each to be taken once.
fn loosen(decls: &mut Vec<Decl>) -> (taken: Vec<Option<Decl>>)
    ensures
        final(decls)@.len() == 0,
        taken@ == old(decls)@.map_values(|d: Decl| Some(d)),
{
    let mut back: Vec<Decl> = Vec::new();
    let ghost all = decls@;
    while decls.len() > 0
        invariant
            all == old(decls)@,
            decls@.len() + back@.len() == all.len(),
            decls@ == all.take(decls@.len() as int),
            forall|i: int| 0 <= i < back@.len() ==> #[trigger] back@[i] == all[all.len() - 1 - i],
        decreases decls@.len(),
    {
        if let Some(d) = decls.pop() {
            back.push(d);
        }
    }
    let mut taken: Vec<Option<Decl>> = Vec::new();
    while back.len() > 0
        invariant
            decls@.len() == 0,
            all == old(decls)@,
            back@.len() + taken@.len() == all.len(),
            forall|i: int| 0 <= i < back@.len() ==> #[trigger] back@[i] == all[all.len() - 1 - i],
            forall|i: int| 0 <= i < taken@.len() ==> #[trigger] taken@[i] == Some(all[i]),
        decreases back@.len(),
    {
        if let Some(d) = back.pop() {
            taken.push(Some(d));
        }
    }
    proof {
        assert(taken@ =~= all.map_values(|d: Decl| Some(d)));
    }
    taken
}

/// Order `module`'s declarations by dependency and record its binding groups.
///
/// Non-binding declarations (`data`, `record`, `effect`, `use`, `mod`) keep
/// their relative order and come first; they declare types and bring names into
/// scope, neither of which is sequenced against the bindings.
pub fn group_module(module: &mut Module)
    ensures
        grouped(old(module).decls@, *final(module)),
{
    let ghost all = module.decls@;
    let at: Vec<usize> = bindings(&module.decls);
    let edges: Vec<Vec<usize>> = bind_edges(&module.decls, &at);
    let ghost deps = |m: int, d: int| bind_deps(all, at@, m, d);
    let comps: Vec<Vec<usize>> = sorted(&edges, Ghost(at@.len() as int), Ghost(deps));
    let mut taken: Vec<Option<Decl>> = loosen(&mut module.decls);
    let mut decls: Vec<Decl> = Vec::new();
    let ghost keep = |d: Decl| !(d is Bind);
    let mut i: usize = 0;
    let n: usize = taken.len();
    proof {
        reveal(Seq::filter);
        assert(all.take(0).filter(keep) =~= Seq::<Decl>::empty());
    }
    while i < n
        invariant
            i <= n,
            n == all.len(),
            taken@.len() == n,
            keep == (|d: Decl| !(d is Bind)),
            forall|j: int| 0 <= j < n && (j >= i || all[j] is Bind) ==> #[trigger] taken@[j] == Some(all[j]),
            decls@ == all.take(i as int).filter(keep),
            decls@.len() <= i,
        decreases n - i,
    {
        proof {
            reveal(Seq::filter);
            assert(all.take(i + 1).drop_last() =~= all.take(i as int));
            assert(taken@[i as int] == Some(all[i as int]));
        }
        let is_bind: bool = match &taken[i] {
            Some(Decl::Bind(_)) => true,
            _ => false,
        };
        if !is_bind {
            if let Some(d) = taken[i].take() {
                decls.push(d);
            }
        }
        i = i + 1;
    }
    proof {
        assert(all.take(n as int) =~= all);
        assert(decls@ == others(all));
        if at@.len() > 0 {
            an_order_is_a_permutation(edges@, comps@, 0);
        } else {
            assert forall|i: int| 0 <= i < laid(comps@).len() implies #[trigger] laid(comps@)[i] < edges@.len() by {
                lemma_laid_from(comps@, i);
                let (k, o) = choose|k: int, o: int| #[trigger] lies(comps@, i, k, o);
            }
        }
        assert(apart(comps@));
        assert(comps@.take(0) =~= Seq::<Vec<usize>>::empty());
        lemma_sum_fits(all, at@, comps@, edges@);
    }
    let before: usize = decls.len();
    let ghost moved = |s: usize| all[at@[s as int] as int];
    let mut groups: Vec<BindGroup> = Vec::new();
    let mut k: usize = 0;
    while k < comps.len()
        invariant
            k <= comps@.len(),
            groups@.len() == k,
            before == others(all).len(),
            edges@.len() == at@.len(),
            ascending(at@, all.len() as int, |i: int| all[i] is Bind),
            taken@.len() == all.len(),
            components(edges@, comps@),
            apart(comps@),
            forall|i: int| 0 <= i < laid(comps@).len() ==> #[trigger] laid(comps@)[i] < at@.len(),
            before + laid(comps@).len() <= usize::MAX,
            moved == (|s: usize| all[at@[s as int] as int]),
            decls@ == others(all) + laid(comps@.take(k as int)).map_values(moved),
            forall|s: usize|
                s < at@.len() && !laid(comps@.take(k as int)).contains(s) ==> #[trigger] taken@[at@[s as int] as int]
                    == Some(moved(s)),
            forall|j: int|
                0 <= j < k ==> is_group(#[trigger] groups@[j], edges@, comps@, before as int, j),
        decreases comps.len() - k,
    {
        let comp: &Vec<usize> = &comps[k];
        let ghost done = laid(comps@.take(k as int));
        proof {
            assert(comps@.take(k + 1).drop_last() =~= comps@.take(k as int));
            lemma_component_of(edges@, comps@, k as int);
            lemma_laid_at(comps@, k as int, 0);
            lemma_laid_prefix(comps@, k as int);
        }
        let first: usize = comp[0];
        let recursive: bool = comp.len() > 1 || holds(&edges[first], first);
        let mut members: Vec<usize> = Vec::new();
        let mut i: usize = 0;
        while i < comp.len()
            invariant
                k < comps@.len(),
                *comp == comps@[k as int],
                i <= comp@.len(),
                before == others(all).len(),
                done == laid(comps@.take(k as int)),
                done + comp@ == laid(comps@.take(k + 1)),
                laid(comps@.take(k + 1)).len() <= laid(comps@).len(),
                before + laid(comps@).len() <= usize::MAX,
                ascending(at@, all.len() as int, |i: int| all[i] is Bind),
                taken@.len() == all.len(),
                apart(comps@),
                forall|i: int| 0 <= i < laid(comps@).len() ==> #[trigger] laid(comps@)[i] < at@.len(),
                moved == (|s: usize| all[at@[s as int] as int]),
                members@ == Seq::new(i as nat, |j: int| (before + done.len() + j) as usize),
                decls@ == others(all) + (done + comp@.take(i as int)).map_values(moved),
                forall|s: usize|
                    s < at@.len() && !(done + comp@.take(i as int)).contains(s) ==> #[trigger] taken@[at@[s as int] as int]
                        == Some(moved(s)),
            decreases comp.len() - i,
        {
            let slot: usize = comp[i];
            proof {
                lemma_laid_at(comps@, k as int, i as int);
                let here = done + comp@.take(i as int);
                assert(!here.contains(slot)) by {
                    if here.contains(slot) {
                        let j = choose|j: int| 0 <= j < here.len() && here[j] == slot;
                        lemma_laid_take(comps@, k + 1, j);
                        assert((done + comp@)[j] == slot);
                        laid_holds_each_once(comps@, j, done.len() + i as int);
                    }
                }
                assert(taken@[at@[slot as int] as int] == Some(moved(slot)));
            }
            let ghost was = taken@;
            if let Some(d) = taken[at[slot]].take() {
                members.push(decls.len());
                decls.push(d);
            }
            proof {
                let here = done + comp@.take(i as int);
                let next = done + comp@.take(i + 1);
                assert(next =~= here.push(slot));
                assert(next.map_values(moved) =~= here.map_values(moved).push(moved(slot)));
                assert(decls@ =~= others(all) + next.map_values(moved));
                assert(members@ =~= Seq::new((i + 1) as nat, |j: int| (before + done.len() + j) as usize));
                assert forall|s: usize| s < at@.len() && !next.contains(s) implies #[trigger] taken@[at@[s as int] as int]
                    == Some(moved(s)) by {
                    assert(next[here.len() as int] == slot);
                    assert(s != slot);
                    assert(!here.contains(s)) by {
                        if here.contains(s) {
                            let j = choose|j: int| 0 <= j < here.len() && here[j] == s;
                            assert(next[j] == s);
                        }
                    }
                    assert(at@[s as int] != at@[slot as int]) by {
                        if s < slot {
                            assert(at@[s as int] < at@[slot as int]);
                        } else {
                            assert(at@[slot as int] < at@[s as int]);
                        }
                    }
                    assert(was[at@[s as int] as int] == Some(moved(s)));
                }
            }
            i = i + 1;
        }
        let ghost had = groups@;
        groups.push(BindGroup { members, recursive });
        proof {
            assert(comp@.take(i as int) =~= comp@);
            assert(is_group(groups@[k as int], edges@, comps@, before as int, k as int));
            assert forall|j: int| 0 <= j < k + 1 implies is_group(
                #[trigger] groups@[j],
                edges@,
                comps@,
                before as int,
                j,
            ) by {
                if j < k {
                    assert(groups@[j] == had[j]);
                }
            }
        }
        k = k + 1;
    }
    module.decls = decls;
    module.groups = groups;
    proof {
        assert(comps@.take(k as int) =~= comps@);
        assert(is_grouping(all, *module, at@, edges@, comps@));
    }
}

proof fn lemma_laid_prefix(comps: Seq<Vec<usize>>, k: int)
    requires
        0 <= k < comps.len(),
    ensures
        laid(comps.take(k)) + comps[k]@ == laid(comps.take(k + 1)),
        laid(comps.take(k + 1)).len() <= laid(comps).len(),
{
    assert(comps.take(k + 1).drop_last() =~= comps.take(k));
    if k + 1 < comps.len() {
        lemma_laid_grows(comps, k, comps.len() as int);
    }
    assert(comps.take(comps.len() as int) =~= comps);
}

/// The layout of the first components is where that of them all starts.
proof fn lemma_laid_take(comps: Seq<Vec<usize>>, k: int, j: int)
    requires
        0 <= k <= comps.len(),
        0 <= j < laid(comps.take(k)).len(),
    ensures
        j < laid(comps).len(),
        laid(comps)[j] == laid(comps.take(k))[j],
    decreases comps.len(),
{
    if k == comps.len() {
        assert(comps.take(k) =~= comps);
    } else {
        let d = comps.drop_last();
        assert(d.take(k) =~= comps.take(k));
        lemma_laid_take(d, k, j);
    }
}

proof fn lemma_component_of(edges: Seq<Vec<usize>>, comps: Seq<Vec<usize>>, k: int)
    requires
        components(edges, comps),
        0 <= k < comps.len(),
    ensures
        comps[k]@.len() > 0,
        comps[k]@[0] < edges.len(),
{
    let places = choose|places: Seq<int>|
        places.len() == comps.len() && (forall|k: int|
            0 <= k < comps.len() ==> super::tarjan::left_at(
                super::tarjan::post_order(edges),
                comps[k]@,
                #[trigger] places[k],
            )) && (forall|j: int, k: int| 0 <= j < k < comps.len() ==> #[trigger] places[j] < #[trigger] places[k]);
    assert(super::tarjan::left_at(super::tarjan::post_order(edges), comps[k]@, places[k]));
}

/// A module has room for the declarations it has, in any order.
proof fn lemma_sum_fits(all: Seq<Decl>, at: Seq<usize>, comps: Seq<Vec<usize>>, edges: Seq<Vec<usize>>)
    requires
        all.len() <= usize::MAX,
        ascending(at, all.len() as int, |i: int| all[i] is Bind),
        edges.len() == at.len(),
        apart(comps),
        forall|i: int| 0 <= i < laid(comps).len() ==> #[trigger] laid(comps)[i] < at.len(),
    ensures
        others(all).len() + laid(comps).len() <= all.len(),
{
    // Distinct slots below `at.len()` are no more than that.
    let l = laid(comps);
    assert(l.no_duplicates()) by {
        assert forall|i: int, j: int| 0 <= i < l.len() && 0 <= j < l.len() && i != j implies l[i] != l[j] by {
            if l[i] == l[j] {
                laid_holds_each_once(comps, i, j);
            }
        }
    }
    lemma_distinct_below(l, at.len() as int);
    lemma_filter_count(all, at);
}

proof fn lemma_distinct_below(l: Seq<usize>, n: int)
    requires
        l.no_duplicates(),
        n >= 0,
        forall|i: int| 0 <= i < l.len() ==> #[trigger] l[i] < n,
    ensures
        l.len() <= n,
{
    let m = l.map_values(|x: usize| x as int);
    assert(m.no_duplicates()) by {
        assert forall|i: int, j: int| 0 <= i < m.len() && 0 <= j < m.len() && i != j implies m[i] != m[j] by {
            assert(l[i] != l[j]);
        }
    }
    m.unique_seq_to_set();
    vstd::set_lib::lemma_int_range(0, n);
    assert(m.to_set().subset_of(vstd::set_lib::set_int_range(0, n))) by {
        assert forall|x: int| m.to_set().contains(x) implies vstd::set_lib::set_int_range(0, n).contains(x) by {
            let i = choose|i: int| 0 <= i < m.len() && m[i] == x;
            assert(l[i] < n);
        }
    }
    vstd::set_lib::lemma_len_subset(m.to_set(), vstd::set_lib::set_int_range(0, n));
}

proof fn lemma_filter_count(all: Seq<Decl>, at: Seq<usize>)
    requires
        all.len() <= usize::MAX,
        ascending(at, all.len() as int, |i: int| all[i] is Bind),
    ensures
        others(all).len() + at.len() == all.len(),
    decreases all.len(),
{
    reveal(Seq::filter);
    let keep = |d: Decl| !(d is Bind);
    if all.len() == 0 {
        if at.len() > 0 {
            assert(at[0] < 0);
        }
    } else {
        let n = all.len() - 1;
        let short = all.drop_last();
        let p = |i: int| all[i] is Bind;
        let q = |i: int| short[i] is Bind;
        if all.last() is Bind {
            assert(p(n));
            assert(at.contains(n as usize));
            let i = choose|i: int| 0 <= i < at.len() && at[i] == n as usize;
            if i < at.len() - 1 {
                assert(at[i] < at[at.len() - 1]);
            }
            assert(i == at.len() - 1);
            let rest = at.drop_last();
            assert(ascending(rest, n, q)) by {
                assert forall|j: int| 0 <= j < rest.len() implies #[trigger] rest[j] < n && q(rest[j] as int) by {
                    assert(at[j] < at[at.len() - 1]);
                    assert(p(at[j] as int));
                }
                assert forall|d: usize| d < n && q(d as int) implies #[trigger] rest.contains(d) by {
                    assert(p(d as int));
                    assert(at.contains(d));
                    let j = choose|j: int| 0 <= j < at.len() && at[j] == d;
                    assert(rest[j] == d);
                }
            }
            lemma_filter_count(short, rest);
        } else {
            assert(ascending(at, n, q)) by {
                assert forall|j: int| 0 <= j < at.len() implies #[trigger] at[j] < n && q(at[j] as int) by {
                    assert(p(at[j] as int));
                }
                assert forall|d: usize| d < n && q(d as int) implies #[trigger] at.contains(d) by {
                    assert(p(d as int));
                }
            }
            lemma_filter_count(short, at);
        }
    }
}

} // verus!
