//! Strongly connected components, by Tarjan's algorithm.

use vstd::prelude::*;
use vstd::set_lib::{lemma_int_range, lemma_len_subset, set_int_range};

verus! {

/// A graph: every edge leads to a node.
pub open spec fn is_graph(edges: Seq<Vec<usize>>) -> bool {
    forall|v: int, i: int|
        0 <= v < edges.len() && 0 <= i < edges[v]@.len() ==> #[trigger] edges[v]@[i] < edges.len()
}

/// There is an edge from `a` to `b`.
pub open spec fn edge(edges: Seq<Vec<usize>>, a: int, b: int) -> bool {
    0 <= a < edges.len() && exists|i: int| 0 <= i < edges[a]@.len() && #[trigger] edges[a]@[i] == b
}

/// `p` goes along edges.
pub open spec fn is_path(edges: Seq<Vec<usize>>, p: Seq<int>) -> bool {
    p.len() > 0 && forall|i: int| 0 <= i < p.len() - 1 ==> edge(edges, #[trigger] p[i], p[i + 1])
}

/// `p` goes along edges from `a` to `b`.
pub open spec fn leads(edges: Seq<Vec<usize>>, p: Seq<int>, a: int, b: int) -> bool {
    is_path(edges, p) && p[0] == a && p.last() == b
}

/// `b` can be reached from `a`, in any number of steps.
pub open spec fn reaches(edges: Seq<Vec<usize>>, a: int, b: int) -> bool {
    exists|p: Seq<int>| leads(edges, p, a, b)
}

/// Nodes that have been entered, and those that have been left, in order.
pub type Walk = (Set<int>, Seq<int>);

/// Walking depth first from each of `todo` in turn, where that has not been
/// entered yet, never more than `depth` deep.
pub open spec fn walk(edges: Seq<Vec<usize>>, todo: Seq<usize>, s: Walk, depth: nat) -> Walk
    decreases depth, todo.len(),
{
    if todo.len() == 0 {
        s
    } else {
        walk(edges, todo.skip(1), enter(edges, todo[0] as int, s, depth), depth)
    }
}

/// Walking depth first from `v`.
pub open spec fn enter(edges: Seq<Vec<usize>>, v: int, s: Walk, depth: nat) -> Walk
    decreases depth, 0nat,
{
    if s.0.contains(v) || depth == 0 {
        s
    } else {
        let t = walk(edges, edges[v]@, (s.0.insert(v), s.1), (depth - 1) as nat);
        (t.0, t.1.push(v))
    }
}

/// The nodes of the graph, in order.
pub open spec fn nodes(n: nat) -> Seq<usize> {
    Seq::new(n, |i: int| i as usize)
}

/// The nodes in the order a depth-first walk leaves them, which enters them in
/// source order.
pub open spec fn post_order(edges: Seq<Vec<usize>>) -> Seq<int> {
    walk(edges, nodes(edges.len()), (Set::empty(), Seq::empty()), edges.len()).1
}

/// `p` is where the walk leaves the last of `comp`.
pub open spec fn left_at(post: Seq<int>, comp: Seq<usize>, p: int) -> bool {
    &&& 0 <= p < post.len()
    &&& comp.contains(post[p] as usize)
    &&& forall|i: int| 0 <= i < comp.len() ==> exists|q: int| 0 <= q <= p && post[q] == #[trigger] comp[i]
}

/// `v` is in one of `comps`.
pub open spec fn placed(comps: Seq<Vec<usize>>, v: usize) -> bool {
    exists|k: int| 0 <= k < comps.len() && #[trigger] comps[k]@.contains(v)
}

/// `comps` are the strongly connected components of the graph, in the order a
/// depth-first walk leaves the last of each.
pub open spec fn components(edges: Seq<Vec<usize>>, comps: Seq<Vec<usize>>) -> bool {
    // Every node is in one of them, once, and each lists its own in order.
    &&& forall|v: usize| v < edges.len() ==> #[trigger] placed(comps, v)
    &&& forall|k: int, i: int| 0 <= k < comps.len() && 0 <= i < comps[k]@.len() ==> #[trigger] comps[k]@[i] < edges.len()
    &&& forall|j: int, k: int, v: usize|
        0 <= j < comps.len() && 0 <= k < comps.len() && #[trigger] comps[j]@.contains(v)
            && #[trigger] comps[k]@.contains(v) ==> j == k
    &&& forall|k: int, i: int, j: int|
        0 <= k < comps.len() && 0 <= i < j < comps[k]@.len() ==> #[trigger] comps[k]@[i] < #[trigger] comps[k]@[j]
    // Two nodes are in one exactly when each reaches the other.
    &&& forall|k: int, a: usize, b: usize|
        0 <= k < comps.len() && #[trigger] comps[k]@.contains(a) && #[trigger] comps[k]@.contains(b) ==> reaches(
            edges,
            a as int,
            b as int,
        )
    &&& forall|a: int, b: int, j: int, k: int|
        0 <= a < edges.len() && 0 <= b < edges.len() && reaches(edges, a, b) && 0 <= j < comps.len() && 0 <= k
            < comps.len() && #[trigger] comps[j]@.contains(a as usize) && #[trigger] comps[k]@.contains(b as usize) ==> k <= j
    // A component is placed where the walk leaves the last of it.
    &&& exists|at: Seq<int>|
        at.len() == comps.len() && (forall|k: int|
            0 <= k < comps.len() ==> left_at(post_order(edges), comps[k]@, #[trigger] at[k])) && (forall|j: int, k: int|
            0 <= j < k < comps.len() ==> #[trigger] at[j] < #[trigger] at[k])
}

proof fn lemma_reaches_self(edges: Seq<Vec<usize>>, a: int)
    ensures
        reaches(edges, a, a),
{
    let p = seq![a];
    assert(leads(edges, p, a, a));
}

proof fn lemma_reaches_edge(edges: Seq<Vec<usize>>, a: int, b: int)
    requires
        edge(edges, a, b),
    ensures
        reaches(edges, a, b),
{
    let p = seq![a, b];
    assert(leads(edges, p, a, b));
}

/// What is reached from something reached is reached.
pub proof fn reaching_is_transitive(edges: Seq<Vec<usize>>, a: int, b: int, c: int)
    requires
        reaches(edges, a, b),
        reaches(edges, b, c),
    ensures
        reaches(edges, a, c),
{
    let p = choose|p: Seq<int>| leads(edges, p, a, b);
    let q = choose|q: Seq<int>| leads(edges, q, b, c);
    let r = p + q.skip(1);
    assert forall|i: int| 0 <= i < r.len() - 1 implies edge(edges, #[trigger] r[i], r[i + 1]) by {
        if i < p.len() - 1 {
            assert(r[i] == p[i] && r[i + 1] == p[i + 1]);
        } else {
            assert(r[i] == q[i - p.len() + 1]);
            assert(r[i + 1] == q[i - p.len() + 2]);
        }
    }
    assert(r.last() == c);
    assert(leads(edges, r, a, c));
}

/// Where the algorithm has got to.
struct Tarjan {
    /// When each node was entered, if it has been.
    index: Vec<usize>,
    /// The least index of a node on the stack it is known to reach.
    low: Vec<usize>,
    on_stack: Vec<bool>,
    stack: Vec<usize>,
    next: usize,
    /// The component of each node, once that is known.
    comp: Vec<usize>,
    count: usize,
    /// The nodes left so far.
    left: Ghost<Seq<int>>,
    /// Where each component was left, among those.
    at: Ghost<Seq<int>>,
}

impl Tarjan {
    spec fn entered(self, v: int) -> bool {
        self.index@[v] != usize::MAX
    }

    spec fn known(self, v: int) -> bool {
        self.comp@[v] != usize::MAX
    }

    spec fn seen(self) -> Set<int> {
        Set::new(|v: int| 0 <= v < self.index@.len() && self.entered(v))
    }

    /// From `x` one reaches a node on the stack entered before it, though not
    /// before `low`.
    spec fn climbs(self, edges: Seq<Vec<usize>>, x: int, low: int) -> bool {
        exists|y: int|
            0 <= y < edges.len() && #[trigger] self.on_stack@[y] && low <= self.index@[y] < self.index@[x] && reaches(
                edges,
                x,
                y,
            )
    }

    /// The first `m` edges of `x` lead to nodes that were entered, and of those
    /// on the stack to none entered before `low`.
    spec fn bounded(self, edges: Seq<Vec<usize>>, x: int, m: int, low: int) -> bool {
        forall|i: int|
            0 <= i < m ==> self.entered(#[trigger] edges[x]@[i] as int) && (self.on_stack@[edges[x]@[i] as int]
                ==> low <= self.index@[edges[x]@[i] as int])
    }

    spec fn wf(self, edges: Seq<Vec<usize>>) -> bool {
        let n = edges.len();
        &&& is_graph(edges)
        &&& n <= usize::MAX
        &&& self.index@.len() == n && self.low@.len() == n && self.on_stack@.len() == n && self.comp@.len() == n
        &&& self.next <= n
        &&& self.seen().finite() && self.seen().len() == self.next
        &&& self.count <= self.left@.len() <= self.next
        &&& forall|v: int| 0 <= v < n && self.entered(v) ==> #[trigger] self.index@[v] < self.next
        &&& forall|v: int| 0 <= v < n && #[trigger] self.on_stack@[v] ==> self.entered(v) && !self.known(v)
            && self.stack@.contains(v as usize)
        &&& forall|v: int| 0 <= v < n && self.entered(v) && !self.on_stack@[v] ==> #[trigger] self.comp@[v] != usize::MAX
        &&& forall|v: int| 0 <= v < n && #[trigger] self.comp@[v] != usize::MAX ==> self.entered(v) && self.comp@[v] < self.count
        &&& forall|i: int| 0 <= i < self.stack@.len() ==> #[trigger] self.stack@[i] < n && self.on_stack@[self.stack@[i] as int]
        &&& forall|i: int, j: int|
            0 <= i < j < self.stack@.len() ==> self.index@[#[trigger] self.stack@[i] as int]
                < self.index@[#[trigger] self.stack@[j] as int]
        &&& forall|v: int, i: int|
            0 <= v < n && self.known(v) && 0 <= i < edges[v]@.len() ==> self.known(#[trigger] edges[v]@[i] as int)
                && self.comp@[edges[v]@[i] as int] <= self.comp@[v]
        &&& forall|a: int, b: int|
            0 <= a < n && 0 <= b < n && self.known(a) && self.known(b) && #[trigger] self.comp@[a]
                == #[trigger] self.comp@[b] ==> reaches(edges, a, b)
        &&& self.at@.len() == self.count
        &&& forall|k: int| 0 <= k < self.count ==> 0 <= #[trigger] self.at@[k] < self.left@.len() && 0 <= self.left@[self.at@[k]] < n
            && self.comp@[self.left@[self.at@[k]]] == k
        &&& forall|j: int, k: int| 0 <= j < k < self.count ==> #[trigger] self.at@[j] < #[trigger] self.at@[k]
        &&& forall|v: int| 0 <= v < n && #[trigger] self.comp@[v] != usize::MAX ==> exists|q: int|
            0 <= q <= self.at@[self.comp@[v] as int] && #[trigger] self.left@[q] == v
    }

    /// Every node of `old` is as it was.
    spec fn keeps(self, old: Tarjan) -> bool {
        &&& self.index@.len() == old.index@.len()
        &&& self.low@.len() == old.low@.len() == old.index@.len()
        &&& forall|v: int|
            0 <= v < old.index@.len() && old.entered(v) ==> #[trigger] self.index@[v] == old.index@[v]
        &&& forall|v: int|
            0 <= v < old.index@.len() && old.entered(v) ==> #[trigger] self.low@[v] == old.low@[v]
        &&& forall|v: int|
            0 <= v < old.index@.len() && old.entered(v) ==> #[trigger] self.on_stack@[v] == old.on_stack@[v]
        &&& forall|v: int|
            0 <= v < old.index@.len() && old.entered(v) ==> #[trigger] self.comp@[v] == old.comp@[v]
        &&& forall|v: int|
            0 <= v < old.index@.len() && !old.entered(v) && #[trigger] self.entered(v) ==> self.index@[v] >= old.next
        &&& old.stack@.len() <= self.stack@.len()
        &&& self.stack@.take(old.stack@.len() as int) == old.stack@
        &&& old.next <= self.next
        &&& old.left@.len() <= self.left@.len()
        &&& self.left@.take(old.left@.len() as int) == old.left@
    }

    /// `x` is reached from `v` and has been left, and from it one climbs to `low`
    /// at least, along edges that leave nothing out.
    spec fn settled(self, edges: Seq<Vec<usize>>, v: int, x: int, low: int) -> bool {
        &&& reaches(edges, v, x)
        &&& self.climbs(edges, x, low)
        &&& self.bounded(edges, x, edges[x]@.len() as int, low)
        &&& self.left@.contains(x)
    }

    /// Every node on the stack from `mark` on is settled.
    spec fn segment(self, edges: Seq<Vec<usize>>, v: int, mark: int, low: int) -> bool {
        forall|i: int|
            #![trigger self.stack@[i]]
            mark <= i < self.stack@.len() ==> self.settled(edges, v, self.stack@[i] as int, low)
    }

    /// `low` is the index of a node at most `top` up the stack that `v` reaches.
    spec fn sinks(self, edges: Seq<Vec<usize>>, v: int, top: int, low: int) -> bool {
        exists|j: int|
            0 <= j <= top && j < self.stack@.len() && self.index@[#[trigger] self.stack@[j] as int] == low && reaches(
                edges,
                v,
                self.stack@[j] as int,
            )
    }

    /// `v`, which stands at `mark` on the stack, has been entered and its first
    /// `i` edges followed.
    spec fn frame(self, edges: Seq<Vec<usize>>, v: int, mark: int, i: int) -> bool {
        &&& self.wf(edges)
        &&& 0 <= v < edges.len()
        &&& self.entered(v)
        &&& self.on_stack@[v]
        &&& self.low@[v] <= self.index@[v]
        &&& 0 <= mark < self.stack@.len()
        &&& self.stack@[mark] == v
        &&& 0 <= i <= edges[v]@.len()
        &&& self.segment(edges, v, mark + 1, self.low@[v] as int)
        &&& self.bounded(edges, v, i, self.low@[v] as int)
        &&& self.sinks(edges, v, mark, self.low@[v] as int)
    }

    /// `self` but for what it knows of how low `v` reaches.
    spec fn same_but_low(self, other: Tarjan, v: int, low: usize) -> bool {
        &&& self.index == other.index
        &&& self.on_stack == other.on_stack
        &&& self.stack == other.stack
        &&& self.next == other.next
        &&& self.comp == other.comp
        &&& self.count == other.count
        &&& self.left == other.left
        &&& self.at == other.at
        &&& 0 <= v < other.low@.len()
        &&& self.low@ == other.low@.update(v, low)
    }

    /// What visiting `v` leaves of it: a component of its own, or a segment of
    /// the stack above `mark`.
    spec fn visited(self, edges: Seq<Vec<usize>>, v: int, mark: int) -> bool {
        &&& self.entered(v)
        &&& self.low@[v] <= self.index@[v]
        &&& if self.stack@.len() == mark {
            self.low@[v] == self.index@[v]
        } else {
            &&& self.stack@.len() > mark && self.stack@[mark] == v
            &&& self.low@[v] < self.index@[v]
            &&& self.segment(edges, v, mark, self.low@[v] as int)
            &&& self.sinks(edges, v, mark - 1, self.low@[v] as int)
        }
    }

    proof fn lemma_still_settled(self, old: Tarjan, edges: Seq<Vec<usize>>, v: int, x: int, low: int, less: int)
        requires
            old.wf(edges),
            0 <= x < edges.len(),
            old.entered(x),
            old.settled(edges, v, x, low),
            less <= low,
            self.index@.len() == old.index@.len(),
            forall|u: int| 0 <= u < old.index@.len() && old.entered(u) ==> #[trigger] self.index@[u] == old.index@[u],
            forall|u: int|
                0 <= u < old.index@.len() && old.entered(u) ==> #[trigger] self.on_stack@[u] == old.on_stack@[u],
            old.left@.len() <= self.left@.len(),
            self.left@.take(old.left@.len() as int) == old.left@,
        ensures
            self.settled(edges, v, x, less),
    {
        let y = choose|y: int|
            0 <= y < edges.len() && #[trigger] old.on_stack@[y] && low <= old.index@[y] < old.index@[x] && reaches(
                edges,
                x,
                y,
            );
        assert(self.on_stack@[y]);
        assert(self.climbs(edges, x, less));
        assert forall|i: int| 0 <= i < edges[x]@.len() implies self.entered(#[trigger] edges[x]@[i] as int) && (
        self.on_stack@[edges[x]@[i] as int] ==> less <= self.index@[edges[x]@[i] as int]) by {
            let w = edges[x]@[i] as int;
            assert(old.entered(w));
            assert(self.index@[w] == old.index@[w]);
            assert(self.on_stack@[w] == old.on_stack@[w]);
        }
        let q = choose|q: int| 0 <= q < old.left@.len() && old.left@[q] == x;
        assert(self.left@.take(old.left@.len() as int)[q] == x);
        assert(self.left@[q] == x);
    }

    proof fn lemma_same_wf(self, other: Tarjan, edges: Seq<Vec<usize>>, v: int, low: usize)
        requires
            other.wf(edges),
            self.same_but_low(other, v, low),
        ensures
            self.wf(edges),
            self.seen() == other.seen(),
    {
        assert(self.seen() =~= other.seen());
        assert forall|u: int| 0 <= u < edges.len() implies #[trigger] self.known(u) == other.known(u) && self.entered(u)
            == other.entered(u) by {}
    }

    #[verifier::spinoff_prover]
    proof fn lemma_child_segment(
        self,
        after: Tarjan,
        before: Tarjan,
        edges: Seq<Vec<usize>>,
        v: int,
        w: int,
        mark: int,
        i: int,
    )
        requires
            before.frame(edges, v, mark, i),
            i < edges[v]@.len(),
            edges[v]@[i] == w,
            !before.entered(w),
            after.wf(edges),
            after.keeps(before),
            after.visited(edges, w, before.stack@.len() as int),
            self.same_but_low(
                after,
                v,
                if after.low@[w] < after.low@[v] {
                    after.low@[w]
                } else {
                    after.low@[v]
                },
            ),
        ensures
            self.segment(edges, v, mark + 1, self.low@[v] as int),
    {
        let low = self.low@[v] as int;
        let top = before.stack@.len() as int;
        assert(edge(edges, v, w));
        lemma_reaches_edge(edges, v, w);
        assert(after.low@[v] == before.low@[v]);
        assert forall|j: int|
            #![trigger self.stack@[j]]
            mark + 1 <= j < self.stack@.len() implies self.settled(edges, v, self.stack@[j] as int, low) by {
            let x = self.stack@[j] as int;
            if j < top {
                assert(after.stack@.take(top)[j] == before.stack@[j]);
                assert(before.stack@[j] == x);
                assert(before.settled(edges, v, x, before.low@[v] as int));
                assert(before.on_stack@[x]);
                self.lemma_still_settled(before, edges, v, x, before.low@[v] as int, low);
            } else {
                assert(after.stack@[j] == x);
                assert(after.settled(edges, w, x, after.low@[w] as int));
                assert(after.on_stack@[x]);
                assert(self.left@.take(after.left@.len() as int) =~= after.left@);
                self.lemma_still_settled(after, edges, w, x, after.low@[w] as int, low);
                reaching_is_transitive(edges, v, w, x);
            }
        }
    }

    #[verifier::spinoff_prover]
    proof fn lemma_child_sinks(
        self,
        after: Tarjan,
        before: Tarjan,
        edges: Seq<Vec<usize>>,
        v: int,
        w: int,
        mark: int,
        i: int,
    )
        requires
            before.frame(edges, v, mark, i),
            i < edges[v]@.len(),
            edges[v]@[i] == w,
            !before.entered(w),
            after.wf(edges),
            after.keeps(before),
            after.visited(edges, w, before.stack@.len() as int),
            self.same_but_low(
                after,
                v,
                if after.low@[w] < after.low@[v] {
                    after.low@[w]
                } else {
                    after.low@[v]
                },
            ),
        ensures
            self.sinks(edges, v, mark, self.low@[v] as int),
    {
        let low = self.low@[v] as int;
        let top = before.stack@.len() as int;
        assert(edge(edges, v, w));
        lemma_reaches_edge(edges, v, w);
        assert(after.low@[v] == before.low@[v]);
        assert(after.index@[v] == before.index@[v]);
        assert(after.stack@.take(top)[mark] == before.stack@[mark]);
        if after.low@[w] < after.low@[v] {
            assert(after.index@[w] >= before.next);
            assert(before.index@[v] < before.next);
            let j = choose|j: int|
                0 <= j <= top - 1 && j < after.stack@.len() && after.index@[#[trigger] after.stack@[j] as int]
                    == after.low@[w] && reaches(edges, w, after.stack@[j] as int);
            reaching_is_transitive(edges, v, w, after.stack@[j] as int);
            if j > mark {
                assert(after.index@[after.stack@[mark] as int] < after.index@[after.stack@[j] as int]);
            }
            assert(self.stack@[j] == after.stack@[j]);
        } else {
            let j = choose|j: int|
                0 <= j <= mark && j < before.stack@.len() && before.index@[#[trigger] before.stack@[j] as int]
                    == before.low@[v] && reaches(edges, v, before.stack@[j] as int);
            let y = before.stack@[j] as int;
            assert(before.on_stack@[y]);
            assert(after.stack@.take(top)[j] == before.stack@[j]);
            assert(self.stack@[j] == before.stack@[j]);
            assert(after.index@[y] == before.index@[y]);
        }
    }

    #[verifier::spinoff_prover]
    proof fn lemma_child(
        self,
        after: Tarjan,
        before: Tarjan,
        edges: Seq<Vec<usize>>,
        v: int,
        w: int,
        mark: int,
        i: int,
    )
        requires
            before.frame(edges, v, mark, i),
            i < edges[v]@.len(),
            edges[v]@[i] == w,
            !before.entered(w),
            after.wf(edges),
            after.keeps(before),
            after.visited(edges, w, before.stack@.len() as int),
            self.same_but_low(
                after,
                v,
                if after.low@[w] < after.low@[v] {
                    after.low@[w]
                } else {
                    after.low@[v]
                },
            ),
        ensures
            self.frame(edges, v, mark, i + 1),
    {
        let low = self.low@[v] as int;
        let top = before.stack@.len() as int;
        self.lemma_same_wf(after, edges, v, self.low@[v]);
        self.lemma_child_segment(after, before, edges, v, w, mark, i);
        self.lemma_child_sinks(after, before, edges, v, w, mark, i);
        assert(after.low@[v] == before.low@[v]);
        assert(after.index@[v] == before.index@[v]);
        assert(after.on_stack@[v] == before.on_stack@[v]);
        assert(after.stack@.take(top)[mark] == before.stack@[mark]);
        assert(self.bounded(edges, v, i + 1, low)) by {
            assert forall|k: int| 0 <= k < i + 1 implies self.entered(#[trigger] edges[v]@[k] as int) && (
            self.on_stack@[edges[v]@[k] as int] ==> low <= self.index@[edges[v]@[k] as int]) by {
                let u = edges[v]@[k] as int;
                if k < i {
                    assert(before.entered(u));
                    assert(after.index@[u] == before.index@[u]);
                    assert(after.on_stack@[u] == before.on_stack@[u]);
                }
            }
        }
    }

    proof fn lemma_back(self, before: Tarjan, edges: Seq<Vec<usize>>, v: int, w: int, mark: int, i: int)
        requires
            before.frame(edges, v, mark, i),
            i < edges[v]@.len(),
            edges[v]@[i] == w,
            before.entered(w),
            before.on_stack@[w],
            self.same_but_low(
                before,
                v,
                if before.index@[w] < before.low@[v] {
                    before.index@[w]
                } else {
                    before.low@[v]
                },
            ),
        ensures
            self.frame(edges, v, mark, i + 1),
    {
        let low = self.low@[v] as int;
        self.lemma_same_wf(before, edges, v, self.low@[v]);
        assert(edge(edges, v, w));
        lemma_reaches_edge(edges, v, w);
        assert(self.left@.take(before.left@.len() as int) =~= before.left@);
        assert(self.segment(edges, v, mark + 1, low)) by {
            assert forall|j: int|
                #![trigger self.stack@[j]]
                mark + 1 <= j < self.stack@.len() implies self.settled(edges, v, self.stack@[j] as int, low) by {
                let x = before.stack@[j] as int;
                assert(before.on_stack@[x]);
                self.lemma_still_settled(before, edges, v, x, before.low@[v] as int, low);
            }
        }
        assert(self.bounded(edges, v, i + 1, low)) by {
            assert forall|k: int| 0 <= k < i + 1 implies self.entered(#[trigger] edges[v]@[k] as int) && (
            self.on_stack@[edges[v]@[k] as int] ==> low <= self.index@[edges[v]@[k] as int]) by {
                if k < i {
                    assert(before.entered(edges[v]@[k] as int));
                }
            }
        }
        if before.index@[w] < before.low@[v] {
            assert(before.stack@.contains(w as usize));
            let j = choose|j: int| 0 <= j < before.stack@.len() && before.stack@[j] == w as usize;
            if j > mark {
                assert(before.index@[before.stack@[mark] as int] < before.index@[before.stack@[j] as int]);
            }
            assert(self.stack@[j] == w);
            assert(self.sinks(edges, v, mark, low));
        } else {
            let j = choose|j: int|
                0 <= j <= mark && j < before.stack@.len() && before.index@[#[trigger] before.stack@[j] as int]
                    == before.low@[v] && reaches(edges, v, before.stack@[j] as int);
            assert(self.stack@[j] == before.stack@[j]);
            assert(self.sinks(edges, v, mark, low));
        }
    }

    proof fn lemma_keeps_on(self, after: Tarjan, before: Tarjan, start: Tarjan, v: int, low: usize)
        requires
            before.keeps(start),
            after.keeps(before),
            self.same_but_low(after, v, low),
            !start.entered(v),
        ensures
            self.keeps(start),
    {
        assert forall|u: int| 0 <= u < start.index@.len() && start.entered(u) implies before.entered(u)
            && self.index@[u] == start.index@[u] && self.low@[u] == start.low@[u] && self.on_stack@[u]
            == start.on_stack@[u] && self.comp@[u] == start.comp@[u] by {
            assert(before.index@[u] == start.index@[u]);
            assert(after.index@[u] == before.index@[u]);
            assert(after.low@[u] == before.low@[u] && before.low@[u] == start.low@[u]);
            assert(after.on_stack@[u] == before.on_stack@[u] && before.on_stack@[u] == start.on_stack@[u]);
            assert(after.comp@[u] == before.comp@[u] && before.comp@[u] == start.comp@[u]);
        }
        assert forall|u: int|
            0 <= u < start.index@.len() && !start.entered(u) && #[trigger] self.entered(u) implies self.index@[u]
            >= start.next by {
            assert(after.entered(u));
            if before.entered(u) {
                assert(after.index@[u] == before.index@[u]);
            }
        }
        let m = start.stack@.len() as int;
        assert(self.stack@.take(m) =~= before.stack@.take(m)) by {
            assert forall|k: int| 0 <= k < m implies self.stack@[k] == before.stack@[k] by {
                assert(after.stack@.take(before.stack@.len() as int)[k] == before.stack@[k]);
            }
        }
        let l = start.left@.len() as int;
        assert(self.left@.take(l) =~= before.left@.take(l)) by {
            assert forall|k: int| 0 <= k < l implies self.left@[k] == before.left@[k] by {
                assert(after.left@.take(before.left@.len() as int)[k] == before.left@[k]);
            }
        }
    }

    /// From every node of `v`'s segment one reaches `v`, if `v` reaches no lower.
    proof fn lemma_climb(self, edges: Seq<Vec<usize>>, v: int, mark: int, j: int)
        requires
            self.frame(edges, v, mark, edges[v]@.len() as int),
            self.low@[v] == self.index@[v],
            mark <= j < self.stack@.len(),
        ensures
            reaches(edges, self.stack@[j] as int, v),
        decreases j,
    {
        let x = self.stack@[j] as int;
        if j == mark {
            lemma_reaches_self(edges, v);
        } else {
            assert(self.settled(edges, v, x, self.low@[v] as int));
            let y = choose|y: int|
                0 <= y < edges.len() && #[trigger] self.on_stack@[y] && self.low@[v] <= self.index@[y] < self.index@[x]
                    && reaches(edges, x, y);
            assert(self.stack@.contains(y as usize));
            let k = choose|k: int| 0 <= k < self.stack@.len() && self.stack@[k] == y as usize;
            if k < mark {
                assert(self.index@[self.stack@[k] as int] < self.index@[self.stack@[mark] as int]);
            }
            if k > j {
                assert(self.index@[self.stack@[j] as int] < self.index@[self.stack@[k] as int]);
            }
            assert(mark <= k < j);
            self.lemma_climb(edges, v, mark, k);
            reaching_is_transitive(edges, x, y, v);
        }
    }

    /// What taking `v`'s segment off the stack as a component leaves.
    spec fn popped(self, whole: Tarjan, mark: int) -> bool {
        &&& self.index == whole.index
        &&& self.low == whole.low
        &&& self.next == whole.next
        &&& self.count == whole.count + 1
        &&& self.left == whole.left
        &&& self.at@ == whole.at@.push(whole.left@.len() - 1)
        &&& self.stack@ == whole.stack@.take(mark)
        &&& self.on_stack@.len() == whole.on_stack@.len()
        &&& self.comp@.len() == whole.comp@.len()
        &&& forall|u: int|
            0 <= u < whole.comp@.len() ==> #[trigger] self.on_stack@[u] == (whole.on_stack@[u] && !whole.stack@.skip(
                mark,
            ).contains(u as usize))
        &&& forall|u: int|
            0 <= u < whole.comp@.len() ==> #[trigger] self.comp@[u] == (if whole.stack@.skip(mark).contains(u as usize) {
                whole.count
            } else {
                whole.comp@[u]
            })
    }

    proof fn lemma_popped(self, whole: Tarjan, edges: Seq<Vec<usize>>, v: int, mark: int)
        requires
            whole.frame(edges, v, mark, edges[v]@.len() as int),
            whole.low@[v] == whole.index@[v],
            whole.left@.len() > 0,
            whole.left@.last() == v,
            whole.count < whole.left@.len(),
            whole.count < usize::MAX,
            forall|k: int| 0 <= k < whole.count ==> #[trigger] whole.at@[k] < whole.left@.len() - 1,
            self.popped(whole, mark),
        ensures
            self.wf(edges),
            self.seen() == whole.seen(),
    {
        let n = edges.len();
        let seg = whole.stack@.skip(mark);
        assert(self.seen() =~= whole.seen());
        // The segment is the nodes on the stack that were not entered before `v`.
        assert forall|u: int| 0 <= u < n implies #[trigger] seg.contains(u as usize) == (whole.on_stack@[u]
            && whole.index@[u] >= whole.index@[v]) by {
            if seg.contains(u as usize) {
                let j = choose|j: int| 0 <= j < seg.len() && seg[j] == u as usize;
                assert(whole.stack@[mark + j] == u as usize);
                if j > 0 {
                    assert(whole.index@[whole.stack@[mark] as int] < whole.index@[whole.stack@[mark + j] as int]);
                }
            }
            if whole.on_stack@[u] && whole.index@[u] >= whole.index@[v] {
                let j = choose|j: int| 0 <= j < whole.stack@.len() && whole.stack@[j] == u as usize;
                if j < mark {
                    assert(whole.index@[whole.stack@[j] as int] < whole.index@[whole.stack@[mark] as int]);
                }
                assert(seg[j - mark] == u as usize);
            }
        }
        assert forall|u: int| 0 <= u < n && seg.contains(u as usize) implies reaches(edges, v, u) && #[trigger] reaches(
            edges,
            u,
            v,
        ) && whole.left@.contains(u) && whole.bounded(edges, u, edges[u]@.len() as int, whole.low@[v] as int) by {
            let j = choose|j: int| 0 <= j < seg.len() && seg[j] == u as usize;
            assert(whole.stack@[mark + j] == u as usize);
            whole.lemma_climb(edges, v, mark, mark + j);
            lemma_reaches_self(edges, v);
            if j > 0 {
                assert(whole.settled(edges, v, u, whole.low@[v] as int));
            } else {
                assert(whole.left@[whole.left@.len() - 1] == v);
            }
        }
        assert forall|u: int| 0 <= u < n && #[trigger] self.on_stack@[u] implies self.entered(u) && !self.known(u)
            && self.stack@.contains(u as usize) by {
            let j = choose|j: int| 0 <= j < whole.stack@.len() && whole.stack@[j] == u as usize;
            if j >= mark {
                assert(seg[j - mark] == u as usize);
            }
            assert(self.stack@[j] == u as usize);
            assert(!whole.known(u));
        }
        assert forall|u: int| 0 <= u < n && self.entered(u) && !self.on_stack@[u] implies #[trigger] self.known(u) by {
            if !seg.contains(u as usize) {
                assert(whole.known(u));
            }
        }
        assert forall|u: int| 0 <= u < n && #[trigger] self.known(u) implies self.entered(u) && self.comp@[u] < self.count by {
            if !seg.contains(u as usize) {
                assert(whole.known(u));
            }
        }
        assert forall|i: int| 0 <= i < self.stack@.len() implies #[trigger] self.stack@[i] < n
            && self.on_stack@[self.stack@[i] as int] by {
            assert(whole.stack@[i] == self.stack@[i]);
            let u = whole.stack@[i] as int;
            assert(whole.index@[whole.stack@[i] as int] < whole.index@[whole.stack@[mark] as int]);
            assert(!seg.contains(u as usize));
        }
        assert forall|i: int, j: int| 0 <= i < j < self.stack@.len() implies self.index@[#[trigger] self.stack@[i] as int]
            < self.index@[#[trigger] self.stack@[j] as int] by {
            assert(whole.stack@[i] == self.stack@[i] && whole.stack@[j] == self.stack@[j]);
        }
        assert forall|u: int, i: int| 0 <= u < n && self.known(u) && 0 <= i < edges[u]@.len() implies self.known(
            #[trigger] edges[u]@[i] as int,
        ) && self.comp@[edges[u]@[i] as int] <= self.comp@[u] by {
            let w = edges[u]@[i] as int;
            if seg.contains(u as usize) {
                assert(whole.bounded(edges, u, edges[u]@.len() as int, whole.low@[v] as int));
                assert(whole.entered(w));
                if !whole.on_stack@[w] {
                    assert(whole.known(w));
                    assert(!seg.contains(w as usize));
                } else {
                    assert(seg.contains(w as usize));
                }
            } else {
                assert(whole.known(u));
                assert(whole.known(w));
                assert(!whole.on_stack@[w]);
                assert(!seg.contains(w as usize));
            }
        }
        assert forall|a: int, b: int|
            0 <= a < n && 0 <= b < n && #[trigger] self.known(a) && #[trigger] self.known(b) && self.comp@[a]
                == self.comp@[b] implies reaches(edges, a, b) by {
            if seg.contains(a as usize) && seg.contains(b as usize) {
                assert(reaches(edges, a, v) && reaches(edges, b, v));
                reaching_is_transitive(edges, a, v, b);
            } else {
                if !seg.contains(a as usize) {
                    assert(whole.known(a));
                }
                if !seg.contains(b as usize) {
                    assert(whole.known(b));
                }
            }
        }
        assert forall|k: int| 0 <= k < self.count implies 0 <= #[trigger] self.at@[k] < self.left@.len() && 0
            <= self.left@[self.at@[k]] < n && self.comp@[self.left@[self.at@[k]]] == k by {
            if k < whole.count {
                assert(self.at@[k] == whole.at@[k]);
                let u = whole.left@[whole.at@[k]];
                assert(whole.comp@[u] == k);
                assert(whole.known(u));
                assert(!whole.on_stack@[u]);
                assert(!seg.contains(u as usize));
            } else {
                assert(seg.contains(v as usize));
            }
        }
        assert forall|u: int| 0 <= u < n && #[trigger] self.known(u) implies exists|q: int|
            0 <= q <= self.at@[self.comp@[u] as int] && #[trigger] self.left@[q] == u by {
            if seg.contains(u as usize) {
                assert(reaches(edges, u, v));
                let q = choose|q: int| 0 <= q < whole.left@.len() && whole.left@[q] == u;
                assert(self.left@[q] == u);
            } else {
                assert(whole.known(u));
                let q = choose|q: int| 0 <= q <= whole.at@[whole.comp@[u] as int] && #[trigger] whole.left@[q] == u;
                assert(self.at@[self.comp@[u] as int] == whole.at@[whole.comp@[u] as int]);
                assert(self.left@[q] == u);
            }
        }
    }

    proof fn lemma_room(self, edges: Seq<Vec<usize>>, v: int)
        requires
            self.wf(edges),
            0 <= v < edges.len(),
            !self.entered(v),
        ensures
            self.next < edges.len(),
    {
        let all = set_int_range(0, edges.len() as int);
        lemma_int_range(0, edges.len() as int);
        lemma_len_subset(self.seen().insert(v), all);
        assert(!self.seen().contains(v));
    }

    /// Enter `v`, and everything reached from it that has not been entered.
    fn visit(&mut self, edges: &[Vec<usize>], v: usize, Ghost(depth): Ghost<nat>)
        requires
            old(self).wf(edges@),
            v < edges@.len(),
            !old(self).entered(v as int),
            depth >= edges@.len() - old(self).next,
        ensures
            final(self).wf(edges@),
            final(self).keeps(*old(self)),
            final(self).left@.len() - old(self).left@.len() == final(self).next - old(self).next,
            (final(self).seen(), final(self).left@) == enter(
                edges@,
                v as int,
                (old(self).seen(), old(self).left@),
                depth,
            ),
            final(self).visited(edges@, v as int, old(self).stack@.len() as int),
        decreases depth,
    {
        let n: usize = edges.len();
        let mark: usize = self.stack.len();
        let ghost start = *self;
        proof {
            self.lemma_room(edges@, v as int);
        }
        self.index.set(v, self.next);
        self.low.set(v, self.next);
        self.next = self.next + 1;
        self.stack.push(v);
        self.on_stack.set(v, true);
        let ghost begun = *self;
        proof {
            assert(self.seen() =~= start.seen().insert(v as int));
            assert(!start.seen().contains(v as int));
            assert(self.stack@[mark as int] == v);
            assert forall|u: int| 0 <= u < n && #[trigger] self.on_stack@[u] implies self.entered(u) && !self.known(u)
                && self.stack@.contains(u as usize) by {
                if u != v {
                    assert(start.on_stack@[u]);
                    let i = choose|i: int| 0 <= i < start.stack@.len() && start.stack@[i] == u as usize;
                    assert(self.stack@[i] == u as usize);
                } else {
                    assert(!start.known(v as int));
                }
            }
            assert forall|u: int, i: int| 0 <= u < n && self.known(u) && 0 <= i < edges@[u]@.len() implies self.known(
                #[trigger] edges@[u]@[i] as int,
            ) && self.comp@[edges@[u]@[i] as int] <= self.comp@[u] by {
                assert(start.known(u));
                assert(start.known(edges@[u]@[i] as int));
            }
            assert(self.stack@.take(mark as int) =~= start.stack@);
            assert(self.left@.take(start.left@.len() as int) =~= start.left@);
            assert(self.wf(edges@));
            assert(self.keeps(start));
            lemma_reaches_self(edges@, v as int);
            assert(self.sinks(edges@, v as int, mark as int, self.low@[v as int] as int));
            assert(edges@[v as int]@.skip(0) =~= edges@[v as int]@);
        }
        let mut i: usize = 0;
        let m: usize = edges[v].len();
        while i < m
            invariant
                m == edges@[v as int]@.len(),
                n == edges@.len(),
                v < n,
                i <= m,
                mark == start.stack@.len(),
                self.frame(edges@, v as int, mark as int, i as int),
                start.wf(edges@),
                !start.entered(v as int),
                self.keeps(start),
                depth > 0,
                depth >= n - start.next,
                self.index@[v as int] == start.next,
                self.next > start.next,
                self.left@.len() - start.left@.len() == self.next - start.next - 1,
                walk(
                    edges@,
                    edges@[v as int]@,
                    (start.seen().insert(v as int), start.left@),
                    (depth - 1) as nat,
                ) == walk(
                    edges@,
                    edges@[v as int]@.skip(i as int),
                    (self.seen(), self.left@),
                    (depth - 1) as nat,
                ),
            decreases m - i,
        {
            let w: usize = edges[v][i];
            let ghost before = *self;
            proof {
                let todo = edges@[v as int]@.skip(i as int);
                assert(todo[0] == w);
                assert(todo.skip(1) =~= edges@[v as int]@.skip(i + 1));
                assert(edges@[v as int]@[i as int] < n);
                assert(walk(edges@, todo, (before.seen(), before.left@), (depth - 1) as nat) == walk(
                    edges@,
                    todo.skip(1),
                    enter(edges@, w as int, (before.seen(), before.left@), (depth - 1) as nat),
                    (depth - 1) as nat,
                ));
            }
            if self.index[w] == usize::MAX {
                assert(!self.entered(w as int));
                self.visit(edges, w, Ghost((depth - 1) as nat));
                let ghost after = *self;
                let l: usize = if self.low[w] < self.low[v] {
                    self.low[w]
                } else {
                    self.low[v]
                };
                self.low.set(v, l);
                proof {
                    self.lemma_child(after, before, edges@, v as int, w as int, mark as int, i as int);
                    assert(self.seen() =~= after.seen());
                    self.lemma_keeps_on(after, before, start, v as int, l);
                    assert(after.index@[v as int] == before.index@[v as int]);
                }
            } else if self.on_stack[w] {
                let l: usize = if self.index[w] < self.low[v] {
                    self.index[w]
                } else {
                    self.low[v]
                };
                self.low.set(v, l);
                proof {
                    self.lemma_back(before, edges@, v as int, w as int, mark as int, i as int);
                    assert(self.seen() =~= before.seen());
                    assert(before.seen().contains(w as int));
                    assert(enter(edges@, w as int, (before.seen(), before.left@), (depth - 1) as nat) == (
                        before.seen(),
                        before.left@,
                    ));
                    assert(before.keeps(before)) by {
                        assert(before.stack@.take(before.stack@.len() as int) =~= before.stack@);
                        assert(before.left@.take(before.left@.len() as int) =~= before.left@);
                    }
                    self.lemma_keeps_on(before, before, start, v as int, l);
                }
            } else {
                proof {
                    assert(before.seen().contains(w as int));
                    assert(enter(edges@, w as int, (before.seen(), before.left@), (depth - 1) as nat) == (
                        before.seen(),
                        before.left@,
                    ));
                    assert(self.bounded(edges@, v as int, i + 1, self.low@[v as int] as int));
                }
            }
            i = i + 1;
        }
        let ghost ended = *self;
        proof {
            self.left@ = self.left@.push(v as int);
            assert(edges@[v as int]@.skip(m as int) =~= Seq::<usize>::empty());
            assert(self.seen() =~= ended.seen());
            assert(!start.seen().contains(v as int));
            assert((self.seen(), self.left@) == enter(edges@, v as int, (start.seen(), start.left@), depth));
            self.lemma_leave(ended, start, edges@, v as int, mark as int);
        }
        if self.low[v] == self.index[v] {
            let ghost whole = *self;
            while self.stack.len() > mark
                invariant
                    mark <= self.stack@.len() <= whole.stack@.len(),
                    n == edges@.len(),
                    whole.wf(edges@),
                    self.index == whole.index,
                    self.low == whole.low,
                    self.next == whole.next,
                    self.count == whole.count,
                    self.left == whole.left,
                    self.at == whole.at,
                    self.stack@ == whole.stack@.take(self.stack@.len() as int),
                    self.on_stack@.len() == n,
                    self.comp@.len() == n,
                    forall|u: int|
                        0 <= u < n ==> #[trigger] self.on_stack@[u] == (whole.on_stack@[u] && !whole.stack@.skip(
                            self.stack@.len() as int,
                        ).contains(u as usize)),
                    forall|u: int|
                        0 <= u < n ==> #[trigger] self.comp@[u] == (if whole.stack@.skip(
                            self.stack@.len() as int,
                        ).contains(u as usize) {
                            whole.count
                        } else {
                            whole.comp@[u]
                        }),
                decreases self.stack@.len(),
            {
                let ghost popping = *self;
                let last: usize = self.stack.len() - 1;
                let w: usize = self.stack[last];
                assert(w == whole.stack@[last as int]);
                self.stack.truncate(last);
                self.on_stack.set(w, false);
                let c: usize = self.count;
                self.comp.set(w, c);
                proof {
                    assert(self.stack@ =~= whole.stack@.take(last as int));
                    assert forall|u: usize| #[trigger] whole.stack@.skip(last as int).contains(u) == (u == w
                        || whole.stack@.skip(last + 1).contains(u)) by {
                        lemma_skip_contains(whole.stack@, last as int, u);
                    }
                }
            }
            self.count = self.count + 1;
            proof {
                self.at@ = self.at@.push(whole.left@.len() - 1);
                self.lemma_popped(whole, edges@, v as int, mark as int);
                self.lemma_popped_keeps(whole, start, edges@, v as int, mark as int);
            }
        }
    }

    proof fn lemma_leave(self, ended: Tarjan, start: Tarjan, edges: Seq<Vec<usize>>, v: int, mark: int)
        requires
            ended.frame(edges, v, mark, edges[v]@.len() as int),
            ended.keeps(start),
            start.wf(edges),
            mark == start.stack@.len(),
            ended.left@.len() < ended.next,
            self == (Tarjan { left: Ghost(ended.left@.push(v)), ..ended }),
        ensures
            self.frame(edges, v, mark, edges[v]@.len() as int),
            self.keeps(start),
            self.low@[v] < self.index@[v] ==> self.visited(edges, v, mark),
    {
        let low = self.low@[v] as int;
        assert(self.seen() =~= ended.seen());
        assert(self.left@.take(ended.left@.len() as int) =~= ended.left@);
        assert forall|u: int| 0 <= u < edges.len() && #[trigger] self.known(u) implies exists|q: int|
            0 <= q <= self.at@[self.comp@[u] as int] && #[trigger] self.left@[q] == u by {
            assert(ended.known(u));
            let q = choose|q: int| 0 <= q <= ended.at@[ended.comp@[u] as int] && #[trigger] ended.left@[q] == u;
            assert(self.left@[q] == u);
        }
        assert forall|k: int| 0 <= k < self.count implies 0 <= #[trigger] self.at@[k] < self.left@.len() && 0
            <= self.left@[self.at@[k]] < edges.len() && self.comp@[self.left@[self.at@[k]]] == k by {
            assert(ended.at@[k] == self.at@[k]);
        }
        assert(self.wf(edges));
        assert(self.segment(edges, v, mark + 1, low)) by {
            assert forall|j: int|
                #![trigger self.stack@[j]]
                mark + 1 <= j < self.stack@.len() implies self.settled(edges, v, self.stack@[j] as int, low) by {
                let x = ended.stack@[j] as int;
                assert(ended.on_stack@[x]);
                self.lemma_still_settled(ended, edges, v, x, low, low);
            }
        }
        let j = choose|j: int|
            0 <= j <= mark && j < ended.stack@.len() && ended.index@[#[trigger] ended.stack@[j] as int] == low && reaches(
                edges,
                v,
                ended.stack@[j] as int,
            );
        assert(self.stack@[j] == ended.stack@[j]);
        assert(self.sinks(edges, v, mark, low));
        assert(self.left@.take(start.left@.len() as int) =~= start.left@) by {
            assert(ended.left@.take(start.left@.len() as int) == start.left@);
            assert forall|k: int| 0 <= k < start.left@.len() implies self.left@[k] == start.left@[k] by {
                assert(ended.left@.take(start.left@.len() as int)[k] == start.left@[k]);
            }
        }
        if self.low@[v] < self.index@[v] {
            assert(j < mark);
            let y = self.stack@[j] as int;
            assert(self.on_stack@[y]);
            assert(self.climbs(edges, v, low));
            lemma_reaches_self(edges, v);
            assert(self.left@[self.left@.len() - 1] == v);
            assert(self.settled(edges, v, v, low));
            assert(self.segment(edges, v, mark, low));
            assert(self.sinks(edges, v, mark - 1, low));
        }
    }

    proof fn lemma_popped_keeps(self, whole: Tarjan, start: Tarjan, edges: Seq<Vec<usize>>, v: int, mark: int)
        requires
            whole.frame(edges, v, mark, edges[v]@.len() as int),
            whole.keeps(start),
            start.wf(edges),
            mark == start.stack@.len(),
            whole.index@[v] == start.next,
            self.popped(whole, mark),
        ensures
            self.keeps(start),
    {
        let seg = whole.stack@.skip(mark);
        assert forall|u: int| 0 <= u < start.index@.len() && start.entered(u) implies !seg.contains(u as usize)
            && self.on_stack@[u] == start.on_stack@[u] && self.comp@[u] == start.comp@[u] by {
            assert(whole.index@[u] == start.index@[u]);
            if seg.contains(u as usize) {
                let j = choose|j: int| 0 <= j < seg.len() && seg[j] == u as usize;
                assert(whole.stack@[mark + j] == u as usize);
                if j > 0 {
                    assert(whole.index@[whole.stack@[mark] as int] < whole.index@[whole.stack@[mark + j] as int]);
                }
            }
            assert(whole.on_stack@[u] == start.on_stack@[u]);
            assert(whole.comp@[u] == start.comp@[u]);
        }
        assert(self.stack@.take(mark) =~= start.stack@);
    }
}

proof fn lemma_skip_contains(s: Seq<usize>, k: int, u: usize)
    requires
        0 <= k < s.len(),
    ensures
        s.skip(k).contains(u) == (u == s[k] || s.skip(k + 1).contains(u)),
{
    if s.skip(k).contains(u) {
        let i = choose|i: int| 0 <= i < s.skip(k).len() && s.skip(k)[i] == u;
        if i > 0 {
            assert(s.skip(k + 1)[i - 1] == u);
        }
    }
    if u == s[k] {
        assert(s.skip(k)[0] == u);
    }
    if s.skip(k + 1).contains(u) {
        let rest = s.skip(k + 1);
        let i = choose|i: int| 0 <= i < rest.len() && rest[i] == u;
        assert(s.skip(k)[i + 1] == u);
    }
}

proof fn lemma_path_order(edges: Seq<Vec<usize>>, comp: Seq<usize>, p: Seq<int>, a: int, b: int)
    requires
        is_graph(edges),
        comp.len() == edges.len(),
        leads(edges, p, a, b),
        0 <= a < edges.len(),
        forall|v: int, i: int|
            0 <= v < edges.len() && 0 <= i < edges[v]@.len() ==> comp[#[trigger] edges[v]@[i] as int] <= comp[v],
    ensures
        0 <= b < edges.len(),
        comp[b] <= comp[a],
    decreases p.len(),
{
    if p.len() > 1 {
        let q = p.drop_last();
        let c = q.last();
        assert(is_path(edges, q)) by {
            assert forall|i: int| 0 <= i < q.len() - 1 implies edge(edges, #[trigger] q[i], q[i + 1]) by {
                assert(p[i] == q[i] && p[i + 1] == q[i + 1]);
            }
        }
        assert(leads(edges, q, a, c));
        lemma_path_order(edges, comp, q, a, c);
        assert(edge(edges, p[p.len() - 2], p[p.len() - 2 + 1]));
    }
}

/// The nodes before `n` of component `k`, in order.
spec fn lists(comp: Seq<usize>, k: int, n: int, l: Seq<usize>) -> bool {
    &&& forall|i: int| 0 <= i < l.len() ==> #[trigger] l[i] < n && comp[l[i] as int] == k
    &&& forall|i: int, j: int| 0 <= i < j < l.len() ==> #[trigger] l[i] < #[trigger] l[j]
    &&& forall|v: usize| v < n && comp[v as int] == k ==> #[trigger] l.contains(v)
}

/// Strongly connected components of `edges`, in dependency order: a component
/// appears only after every component it points at.
///
/// That is exactly the order Tarjan's algorithm closes them in, since it closes
/// a component only once everything reachable from it is already closed. The
/// walk is rooted in source order, so independent nodes keep the order they were
/// written in, and the members of a component are in source order too.
pub fn scc(edges: &[Vec<usize>]) -> (comps: Vec<Vec<usize>>)
    requires
        is_graph(edges@),
    ensures
        components(edges@, comps@),
{
    let n: usize = edges.len();
    let mut st: Tarjan = Tarjan {
        index: Vec::new(),
        low: Vec::new(),
        on_stack: Vec::new(),
        stack: Vec::new(),
        next: 0,
        comp: Vec::new(),
        count: 0,
        left: Ghost(Seq::empty()),
        at: Ghost(Seq::empty()),
    };
    st.index.resize(n, usize::MAX);
    st.low.resize(n, 0);
    st.on_stack.resize(n, false);
    st.comp.resize(n, usize::MAX);
    proof {
        assert(st.seen() =~= Set::empty());
        assert(nodes(n as nat).skip(0) =~= nodes(n as nat));
    }
    let mut v: usize = 0;
    while v < n
        invariant
            v <= n,
            n == edges@.len(),
            st.wf(edges@),
            st.stack@.len() == 0,
            forall|u: int| 0 <= u < v ==> #[trigger] st.index@[u] != usize::MAX,
            walk(edges@, nodes(n as nat), (Set::empty(), Seq::empty()), n as nat) == walk(
                edges@,
                nodes(n as nat).skip(v as int),
                (st.seen(), st.left@),
                n as nat,
            ),
        decreases n - v,
    {
        let ghost before = st;
        proof {
            let todo = nodes(n as nat).skip(v as int);
            assert(todo[0] == v);
            assert(todo.skip(1) =~= nodes(n as nat).skip(v + 1));
            assert(walk(edges@, todo, (st.seen(), st.left@), n as nat) == walk(
                edges@,
                todo.skip(1),
                enter(edges@, v as int, (st.seen(), st.left@), n as nat),
                n as nat,
            ));
        }
        if st.index[v] == usize::MAX {
            assert(!st.entered(v as int));
            st.visit(edges, v, Ghost(n as nat));
            proof {
                assert forall|u: int| 0 <= u < v + 1 implies #[trigger] st.index@[u] != usize::MAX by {
                    if u < v {
                        assert(before.index@[u] != usize::MAX);
                    }
                }
                if st.stack@.len() > 0 {
                    assert(!st.sinks(edges@, v as int, -1, st.low@[v as int] as int));
                }
            }
        } else {
            proof {
                assert(st.seen().contains(v as int));
            }
        }
        v = v + 1;
    }
    let ghost post = post_order(edges@);
    proof {
        assert(nodes(n as nat).skip(n as int) =~= Seq::<usize>::empty());
        assert(post == st.left@);
        assert forall|u: int| 0 <= u < n implies #[trigger] st.comp@[u] < st.count by {
            if st.on_stack@[u] {
                assert(st.stack@.contains(u as usize));
            }
            assert(st.entered(u));
        }
    }
    let mut comps: Vec<Vec<usize>> = Vec::new();
    while comps.len() < st.count
        invariant
            comps@.len() <= st.count,
            forall|k: int| 0 <= k < comps@.len() ==> lists(st.comp@, k, 0, #[trigger] comps@[k]@),
        decreases st.count - comps@.len(),
    {
        comps.push(Vec::new());
    }
    let mut u: usize = 0;
    while u < n
        invariant
            u <= n,
            st.comp@.len() == n,
            comps@.len() == st.count,
            forall|w: int| 0 <= w < n ==> #[trigger] st.comp@[w] < st.count,
            forall|k: int| 0 <= k < comps@.len() ==> lists(st.comp@, k, u as int, #[trigger] comps@[k]@),
        decreases n - u,
    {
        let k: usize = st.comp[u];
        let ghost before = comps@;
        comps[k].push(u);
        proof {
            assert forall|j: int| 0 <= j < comps@.len() implies lists(st.comp@, j, u + 1, #[trigger] comps@[j]@) by {
                assert(lists(st.comp@, j, u as int, before[j]@));
                if j == k {
                    let l = before[j]@;
                    assert(comps@[j]@ == l.push(u));
                    assert forall|w: usize| w < u + 1 && st.comp@[w as int] == j implies #[trigger] l.push(u).contains(w) by {
                        if w == u {
                            assert(l.push(u)[l.len() as int] == u);
                        } else {
                            assert(l.contains(w));
                            let i = choose|i: int| 0 <= i < l.len() && l[i] == w;
                            assert(l.push(u)[i] == w);
                        }
                    }
                } else {
                    assert(comps@[j]@ == before[j]@);
                }
            }
        }
        u = u + 1;
    }
    proof {
        let c = st.comp@;
        assert forall|k: int, w: usize| 0 <= k < comps@.len() && #[trigger] comps@[k]@.contains(w) implies w < n
            && c[w as int] == k by {
            assert(lists(c, k, n as int, comps@[k]@));
            let i = choose|i: int| 0 <= i < comps@[k]@.len() && comps@[k]@[i] == w;
        }
        assert forall|w: usize| w < n implies #[trigger] placed(comps@, w) by {
            let k = c[w as int] as int;
            assert(lists(c, k, n as int, comps@[k]@));
            assert(comps@[k]@.contains(w));
        }
        assert forall|k: int, a: usize, b: usize|
            0 <= k < comps@.len() && #[trigger] comps@[k]@.contains(a) && #[trigger] comps@[k]@.contains(b) implies reaches(
            edges@,
            a as int,
            b as int,
        ) by {
            assert(c[a as int] == c[b as int]);
        }
        assert forall|w: int, i: int| 0 <= w < n && 0 <= i < edges@[w]@.len() implies c[#[trigger] edges@[w]@[i] as int]
            <= c[w] by {
            assert(c[w] < st.count);
            assert(st.known(w));
        }
        assert forall|a: int, b: int, j: int, k: int|
            0 <= a < n && 0 <= b < n && reaches(edges@, a, b) && 0 <= j < comps@.len() && 0 <= k < comps@.len()
                && #[trigger] comps@[j]@.contains(a as usize) && #[trigger] comps@[k]@.contains(b as usize) implies k
            <= j by {
            let p = choose|p: Seq<int>| leads(edges@, p, a, b);
            lemma_path_order(edges@, c, p, a, b);
        }
        let at = st.at@;
        assert forall|k: int| 0 <= k < comps@.len() implies left_at(post, comps@[k]@, #[trigger] at[k]) by {
            assert(lists(c, k, n as int, comps@[k]@));
            let r = post[at[k]];
            assert(comps@[k]@.contains(r as usize));
            assert forall|i: int| 0 <= i < comps@[k]@.len() implies exists|q: int|
                0 <= q <= at[k] && post[q] == #[trigger] comps@[k]@[i] by {
                let w = comps@[k]@[i] as int;
                assert(c[w] != usize::MAX);
                let q = choose|q: int| 0 <= q <= at[c[w] as int] && #[trigger] st.left@[q] == w;
                assert(post[q] == comps@[k]@[i]);
            }
        }
        assert forall|k: int, i: int| 0 <= k < comps@.len() && 0 <= i < comps@[k]@.len() implies #[trigger] comps@[k]@[i]
            < n by {
            assert(lists(c, k, n as int, comps@[k]@));
        }
        assert forall|k: int, i: int, j: int|
            0 <= k < comps@.len() && 0 <= i < j < comps@[k]@.len() implies #[trigger] comps@[k]@[i]
            < #[trigger] comps@[k]@[j] by {
            assert(lists(c, k, n as int, comps@[k]@));
        }
    }
    comps
}

/// Two nodes are in one component exactly when each reaches the other.
pub proof fn mutual_reach_is_one_component(edges: Seq<Vec<usize>>, comps: Seq<Vec<usize>>, a: usize, b: usize, j: int, k: int)
    requires
        components(edges, comps),
        a < edges.len(),
        b < edges.len(),
        0 <= j < comps.len(),
        0 <= k < comps.len(),
        comps[j]@.contains(a),
        comps[k]@.contains(b),
    ensures
        j == k <==> reaches(edges, a as int, b as int) && reaches(edges, b as int, a as int),
{
    let (x, y) = (a as int, b as int);
    assert(comps[j]@.contains(x as usize) && comps[k]@.contains(y as usize));
}

/// A component comes only after every other one it points at.
pub proof fn dependencies_come_first(edges: Seq<Vec<usize>>, comps: Seq<Vec<usize>>, a: usize, b: usize, j: int, k: int)
    requires
        components(edges, comps),
        edge(edges, a as int, b as int),
        b < edges.len(),
        0 <= j < comps.len(),
        0 <= k < comps.len(),
        comps[j]@.contains(a),
        comps[k]@.contains(b),
    ensures
        k <= j,
{
    let (x, y) = (a as int, b as int);
    lemma_reaches_edge(edges, x, y);
    assert(comps[j]@.contains(x as usize) && comps[k]@.contains(y as usize));
}

} // verus!
