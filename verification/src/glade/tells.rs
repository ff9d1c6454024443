//! What a count of pauses tells of the pauses themselves.

use super::pauses::{clamped, count_at, falls_in, falls_in_one, sum, upper_is_increasing, upper_of, Pauses};
use vstd::prelude::*;

verus! {

/// How many of some pauses fall in bucket `b`.
pub open spec fn within(ns: Seq<u64>, b: nat) -> nat
    decreases ns.len(),
{
    if ns.len() == 0 {
        0
    } else {
        within(ns.drop_last(), b) + (if falls_in(ns.last() as nat, b) {
            1nat
        } else {
            0nat
        })
    }
}

/// How many of some pauses are no longer than `r`.
pub open spec fn no_longer(ns: Seq<u64>, r: int) -> nat
    decreases ns.len(),
{
    if ns.len() == 0 {
        0
    } else {
        no_longer(ns.drop_last(), r) + (if ns.last() <= r {
            1nat
        } else {
            0nat
        })
    }
}

/// The longest of some pauses.
pub open spec fn longest(ns: Seq<u64>) -> u64
    decreases ns.len(),
{
    if ns.len() == 0 {
        0
    } else if longest(ns.drop_last()) < ns.last() {
        ns.last()
    } else {
        longest(ns.drop_last())
    }
}

/// What `p` says is what recording the pauses `ns`, and no others, comes to.
pub open spec fn tells(p: Pauses, ns: Seq<u64>) -> bool {
    &&& p.wf()
    &&& p.count == ns.len()
    &&& p.total_nanos == sum(ns)
    &&& p.max_nanos == longest(ns)
    &&& forall|i: nat| count_at(p.buckets(), i as int) == #[trigger] within(ns, i)
}

/// What recording a pause promises: `q` is `p` with a pause of `n` in bucket `b`.
pub open spec fn recorded(p: Pauses, n: u64, q: Pauses, b: int) -> bool {
    &&& q.wf()
    &&& q.count == p.count + 1
    &&& q.total_nanos == p.total_nanos + n
    &&& q.max_nanos == (if p.max_nanos < n {
        n
    } else {
        p.max_nanos
    })
    &&& falls_in(n as nat, b as nat)
    &&& 0 <= b < q.buckets().len()
    &&& q.buckets().len() == (if p.buckets().len() <= b {
        b + 1
    } else {
        p.buckets().len() as int
    })
    &&& forall|i: int|
        0 <= i < q.buckets().len() ==> #[trigger] q.buckets()[i] == count_at(p.buckets(), i) + (if i == b {
            1nat
        } else {
            0nat
        })
}

/// What merging promises: `r` is the pauses of `p` and of `q`.
pub open spec fn merged(p: Pauses, q: Pauses, r: Pauses) -> bool {
    &&& r.wf()
    &&& r.count == p.count + q.count
    &&& r.total_nanos == p.total_nanos + q.total_nanos
    &&& r.max_nanos == (if p.max_nanos < q.max_nanos {
        q.max_nanos
    } else {
        p.max_nanos
    })
    &&& r.buckets().len() == (if p.buckets().len() < q.buckets().len() {
        q.buckets().len()
    } else {
        p.buckets().len()
    })
    &&& forall|i: int|
        0 <= i < r.buckets().len() ==> #[trigger] r.buckets()[i] == count_at(p.buckets(), i) + count_at(
            q.buckets(),
            i,
        )
}

/// What a percentile promises: `v` is the pause of rank `rank` of `p`.
pub open spec fn ranked(p: Pauses, rank: u64, v: u64) -> bool {
    &&& p.count == 0 ==> v == 0
    &&& p.count > 0 ==> exists|i: int| #[trigger]
        p.at_rank(clamped(rank, p.count), i) && v == (if upper_of(i as nat) < p.max_nanos {
            upper_of(i as nat)
        } else {
            p.max_nanos as int
        })
}

/// Recording a pause adds it to the pauses told of.
pub proof fn recording_adds_a_pause(p: Pauses, n: u64, q: Pauses, b: int, ns: Seq<u64>)
    requires
        tells(p, ns),
        recorded(p, n, q, b),
    ensures
        tells(q, ns.push(n)),
{
    assert(ns.push(n).drop_last() =~= ns);
    assert forall|i: nat| count_at(q.buckets(), i as int) == #[trigger] within(ns.push(n), i) by {
        assert(count_at(p.buckets(), i as int) == within(ns, i));
        if falls_in(n as nat, i) {
            falls_in_one(n as nat, i, b as nat);
        }
        if i < q.buckets().len() {
            assert(q.buckets()[i as int] == count_at(p.buckets(), i as int) + (if i == b {
                1nat
            } else {
                0nat
            }));
        }
    }
}

proof fn lemma_both(xs: Seq<u64>, ys: Seq<u64>)
    ensures
        sum(xs + ys) == sum(xs) + sum(ys),
        longest(xs + ys) == (if longest(xs) < longest(ys) {
            longest(ys)
        } else {
            longest(xs)
        }),
        forall|b: nat| #[trigger] within(xs + ys, b) == within(xs, b) + within(ys, b),
    decreases ys.len(),
{
    if ys.len() == 0 {
        assert(xs + ys =~= xs);
    } else {
        assert((xs + ys).drop_last() =~= xs + ys.drop_last());
        lemma_both(xs, ys.drop_last());
        assert forall|b: nat| #[trigger] within(xs + ys, b) == within(xs, b) + within(ys, b) by {
            assert(within(xs + ys.drop_last(), b) == within(xs, b) + within(ys.drop_last(), b));
        }
    }
}

/// Merging tells what recording all of the pauses, first the one's and then the
/// other's, would have told.
pub proof fn merging_is_recording_both(p: Pauses, q: Pauses, r: Pauses, xs: Seq<u64>, ys: Seq<u64>)
    requires
        tells(p, xs),
        tells(q, ys),
        merged(p, q, r),
    ensures
        tells(r, xs + ys),
{
    lemma_both(xs, ys);
    assert forall|i: nat| count_at(r.buckets(), i as int) == #[trigger] within(xs + ys, i) by {
        assert(count_at(p.buckets(), i as int) == within(xs, i));
        assert(count_at(q.buckets(), i as int) == within(ys, i));
    }
}

/// Merging comes to the same either way round, and so every percentile does.
pub proof fn merging_is_the_same_either_way_round(p: Pauses, q: Pauses, r: Pauses, s: Pauses, rank: u64, v: u64)
    requires
        merged(p, q, r),
        merged(q, p, s),
    ensures
        r.buckets() == s.buckets(),
        r.count == s.count,
        r.total_nanos == s.total_nanos,
        r.max_nanos == s.max_nanos,
        ranked(r, rank, v) == ranked(s, rank, v),
{
    assert(r.buckets() =~= s.buckets());
    assert forall|i: int| r.at_rank(clamped(rank, r.count), i) == #[trigger] s.at_rank(clamped(rank, s.count), i) by {}
    if ranked(r, rank, v) && r.count > 0 {
        let i = choose|i: int| #[trigger]
            r.at_rank(clamped(rank, r.count), i) && v == (if upper_of(i as nat) < r.max_nanos {
                upper_of(i as nat)
            } else {
                r.max_nanos as int
            });
        assert(s.at_rank(clamped(rank, s.count), i));
    }
    if ranked(s, rank, v) && s.count > 0 {
        let i = choose|i: int| #[trigger]
            s.at_rank(clamped(rank, s.count), i) && v == (if upper_of(i as nat) < s.max_nanos {
                upper_of(i as nat)
            } else {
                s.max_nanos as int
            });
        assert(r.at_rank(clamped(rank, r.count), i));
    }
}

proof fn lemma_sum_grows(s: Seq<u64>, i: int, j: int)
    requires
        0 <= i <= j <= s.len(),
    ensures
        sum(s.take(i)) <= sum(s.take(j)),
    decreases j - i,
{
    if i < j {
        assert(s.take(j).drop_last() =~= s.take(j - 1));
        lemma_sum_grows(s, i, j - 1);
    }
}

/// A higher rank is of no shorter pause, and none is longer than the longest.
pub proof fn percentiles_are_in_order(p: Pauses, a: u64, b: u64, u: u64, v: u64)
    requires
        a <= b,
        ranked(p, a, u),
        ranked(p, b, v),
    ensures
        u <= v,
        p.count > 0 ==> v <= p.max_nanos,
{
    if p.count > 0 {
        let i = choose|i: int| #[trigger]
            p.at_rank(clamped(a, p.count), i) && u == (if upper_of(i as nat) < p.max_nanos {
                upper_of(i as nat)
            } else {
                p.max_nanos as int
            });
        let j = choose|j: int| #[trigger]
            p.at_rank(clamped(b, p.count), j) && v == (if upper_of(j as nat) < p.max_nanos {
                upper_of(j as nat)
            } else {
                p.max_nanos as int
            });
        if j < i {
            lemma_sum_grows(p.buckets(), j + 1, i);
        } else if i < j {
            upper_is_increasing(i as nat, j as nat);
        }
    }
}

proof fn lemma_next_bucket(ns: Seq<u64>, b: nat)
    ensures
        no_longer(ns, upper_of(b)) == (if b == 0 {
            0
        } else {
            no_longer(ns, upper_of((b - 1) as nat))
        }) + within(ns, b),
    decreases ns.len(),
{
    if b > 0 {
        upper_is_increasing((b - 1) as nat, b);
    }
    if ns.len() > 0 {
        lemma_next_bucket(ns.drop_last(), b);
    }
}

proof fn lemma_counted(p: Pauses, ns: Seq<u64>, k: int)
    requires
        tells(p, ns),
        0 < k <= p.buckets().len(),
    ensures
        sum(p.buckets().take(k)) == no_longer(ns, upper_of((k - 1) as nat)),
    decreases k,
{
    let s = p.buckets();
    assert(s.take(k).drop_last() =~= s.take(k - 1));
    assert(s.take(k).last() == s[k - 1]);
    lemma_next_bucket(ns, (k - 1) as nat);
    assert(count_at(s, k - 1) == within(ns, (k - 1) as nat));
    if k > 1 {
        lemma_counted(p, ns, k - 1);
    } else {
        assert(s.take(0) =~= Seq::<u64>::empty());
        assert(sum(s.take(0)) == 0);
    }
}

proof fn lemma_longest(ns: Seq<u64>, r: int)
    requires
        longest(ns) <= r,
    ensures
        no_longer(ns, r) == ns.len(),
    decreases ns.len(),
{
    if ns.len() > 0 {
        lemma_longest(ns.drop_last(), r);
    }
}

proof fn lemma_all_counted(ns: Seq<u64>, r: int)
    requires
        no_longer(ns, r) == ns.len(),
        ns.len() > 0,
    ensures
        longest(ns) <= r,
    decreases ns.len(),
{
    lemma_at_most(ns.drop_last(), r);
    if ns.len() > 1 {
        lemma_all_counted(ns.drop_last(), r);
    } else {
        assert(longest(ns.drop_last()) == 0);
    }
}

proof fn lemma_at_most(ns: Seq<u64>, r: int)
    ensures
        no_longer(ns, r) <= ns.len(),
    decreases ns.len(),
{
    if ns.len() > 0 {
        lemma_at_most(ns.drop_last(), r);
    }
}

/// At least as many pauses as the rank says are no longer than its percentile, and the
/// last rank's is the longest.
pub proof fn a_percentile_covers_its_rank(p: Pauses, ns: Seq<u64>, rank: u64, v: u64)
    requires
        tells(p, ns),
        ranked(p, rank, v),
        p.count > 0,
    ensures
        no_longer(ns, v as int) >= clamped(rank, p.count),
        rank >= p.count ==> v == p.max_nanos,
{
    let i = choose|i: int| #[trigger]
        p.at_rank(clamped(rank, p.count), i) && v == (if upper_of(i as nat) < p.max_nanos {
            upper_of(i as nat)
        } else {
            p.max_nanos as int
        });
    lemma_counted(p, ns, i + 1);
    lemma_at_most(ns, upper_of(i as nat));
    if upper_of(i as nat) >= p.max_nanos {
        lemma_longest(ns, v as int);
    }
    if rank >= p.count {
        lemma_all_counted(ns, upper_of(i as nat));
    }
}

} // verus!
