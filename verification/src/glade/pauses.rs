//! How long the program was stopped for the collector: every pause, kept as a
//! histogram so a run of millions of collections costs a few hundred bytes.
//!
//! Buckets are quarter octaves of nanoseconds -- each about 19% wider than the
//! one before -- so a percentile is exact to within that, and the longest pause
//! is kept exactly. Low latency is about the tail, and the tail is what an
//! average hides, so the report is percentiles and the maximum.

use super::tells::{merged, ranked, recorded};
use vstd::arithmetic::div_mod::{lemma_div_denominator, lemma_fundamental_div_mod};
use vstd::arithmetic::power2::{
    lemma2_to64, lemma2_to64_rest, lemma_pow2_adds, lemma_pow2_pos, lemma_pow2_strictly_increases,
    lemma_pow2_unfold, pow2,
};
use vstd::prelude::*;

verus! {

/// Buckets per doubling.
pub const STEPS: usize = 4;

/// Buckets there can be: every quarter octave of the pauses `u64` can count.
pub const BUCKETS: usize = 248;

/// `p` to the fourth.
pub open spec fn fourth(p: int) -> int {
    (p * p) * (p * p)
}

/// `p` is at or past the end of bucket `i`, a quarter octave after the one before: the
/// first ends at two to the nine quarters.
pub open spec fn reaches(p: nat, i: nat) -> bool {
    fourth(p as int) >= pow2(i + 9)
}

/// One more than the longest pause bucket `i` holds: the least number that reaches its
/// end.
pub open spec fn past(i: nat) -> nat {
    choose|p: nat| #[trigger] reaches(p, i) && forall|q: nat| q < p ==> !reaches(q, i)
}

/// The longest pause bucket `i` holds.
pub open spec fn upper_of(i: nat) -> int {
    past(i) - 1
}

/// Bucket `b` is the one a pause of `n` nanoseconds falls in: the first whose
/// longest pause is not shorter.
pub open spec fn falls_in(n: nat, b: nat) -> bool {
    &&& n <= upper_of(b)
    &&& b > 0 ==> n > upper_of((b - 1) as nat)
}

/// The sum of all counts.
pub open spec fn sum(s: Seq<u64>) -> nat
    decreases s.len(),
{
    if s.len() == 0 {
        0
    } else {
        sum(s.drop_last()) + s.last() as nat
    }
}

/// A rank among `count`, taken to the nearest there is.
pub open spec fn clamped(rank: u64, count: u64) -> u64 {
    if rank < 1 {
        1
    } else if rank > count {
        count
    } else {
        rank
    }
}

/// What bucket `i` counts, when buckets past the end count nothing.
pub open spec fn count_at(s: Seq<u64>, i: int) -> nat {
    if 0 <= i < s.len() {
        s[i] as nat
    } else {
        0
    }
}

proof fn lemma_fourth_is(p: int, s: int, t: int)
    requires
        p * p == s,
        s * s == t,
    ensures
        fourth(p) == t,
{
}

proof fn lemma_fourth_grows(a: int, b: int)
    requires
        0 <= a < b,
    ensures
        0 <= fourth(a) < fourth(b),
{
    assert(0 <= a * a < b * b) by (nonlinear_arith)
        requires
            0 <= a < b,
    ;
    let (x, y) = (a * a, b * b);
    assert(0 <= x * x < y * y) by (nonlinear_arith)
        requires
            0 <= x < y,
    ;
}

proof fn lemma_fourth_times(c: int, a: int)
    ensures
        fourth(c * a) == fourth(c) * fourth(a),
{
    assert((c * a) * (c * a) == (c * c) * (a * a)) by (nonlinear_arith);
    let (x, y) = (c * c, a * a);
    assert((x * y) * (x * y) == (x * x) * (y * y)) by (nonlinear_arith);
}

proof fn lemma_fourth_scaled(c: int, t: int, a: int)
    requires
        fourth(c) == t,
    ensures
        fourth(c * a) == t * fourth(a),
{
    lemma_fourth_times(c, a);
}

proof fn lemma_least(p: nat, i: nat)
    requires
        reaches(p, i),
    ensures
        exists|p: nat| #[trigger] reaches(p, i) && forall|q: nat| q < p ==> !reaches(q, i),
    decreases p,
{
    if exists|q: nat| q < p && reaches(q, i) {
        let q = choose|q: nat| q < p && reaches(q, i);
        lemma_least(q, i);
    }
}

proof fn lemma_past(i: nat)
    ensures
        reaches(past(i), i),
        forall|q: nat| q < past(i) ==> !reaches(q, i),
{
    let t = pow2(i + 9);
    lemma_pow2_pos(i + 9);
    assert(t * t >= t) by (nonlinear_arith)
        requires
            t >= 1,
    ;
    let u = t * t;
    assert(u * u >= u) by (nonlinear_arith)
        requires
            u >= 1,
    ;
    lemma_least(t, i);
}

/// What reaches the end of a bucket, where nothing shorter does, is where it ends.
proof fn lemma_is_past(p: nat, i: nat)
    requires
        p > 0,
        reaches(p, i),
        !reaches((p - 1) as nat, i),
    ensures
        past(i) == p,
{
    lemma_past(i);
    let m = past(i);
    if m < p - 1 {
        lemma_fourth_grows(m as int, p - 1);
    }
}

/// Every fourth bucket ends where an octave does.
proof fn lemma_octave(q: nat)
    ensures
        past(4 * q + 3) == pow2(q + 3),
{
    let e = q + 3;
    let p = pow2(e);
    lemma_pow2_pos(e);
    lemma_pow2_adds(e, e);
    lemma_pow2_adds(2 * e, 2 * e);
    assert(fourth(p as int) == pow2(4 * e));
    assert(4 * e == 4 * q + 3 + 9);
    lemma_fourth_grows(p - 1, p as int);
    lemma_is_past(p, 4 * q + 3);
}

proof fn lemma_first_buckets()
    ensures
        past(0) == 5,
        past(1) == 6,
        past(2) == 7,
        past(3) == 8,
{
    lemma2_to64();
    lemma_fourth_is(4, 16, 256);
    lemma_fourth_is(5, 25, 625);
    lemma_fourth_is(6, 36, 1296);
    lemma_fourth_is(7, 49, 2401);
    lemma_fourth_is(8, 64, 4096);
    lemma_is_past(5, 0);
    lemma_is_past(6, 1);
    lemma_is_past(7, 2);
    lemma_is_past(8, 3);
}

proof fn lemma_past_step(i: nat)
    ensures
        past(i) < past(i + 1),
        past(i) > 0,
{
    lemma_past(i);
    lemma_past(i + 1);
    lemma_first_buckets();
    lemma_pow2_pos(i + 9);
    lemma_pow2_unfold(i + 10);
    if i >= 3 {
        lemma2_to64();
        if i > 3 {
            lemma_pow2_strictly_increases(12, i + 9);
        }
        let p = past(i) as int;
        let m = p - 1;
        if p < 8 {
            lemma_fourth_grows(p, 8);
        }
        assert(!reaches(m as nat, i));
        // From seven on, one more is less than twice as much to the fourth.
        lemma_fourth_is(7, 49, 2401);
        lemma_fourth_is(8, 64, 4096);
        lemma_fourth_scaled(7, 2401, m + 1);
        lemma_fourth_scaled(8, 4096, m);
        if 7 * (m + 1) < 8 * m {
            lemma_fourth_grows(7 * (m + 1), 8 * m);
        }
        lemma_fourth_grows(0, m);
        assert(fourth(p) < 2 * pow2(i + 9));
        let r = past(i + 1) as int;
        if r < p {
            lemma_fourth_grows(r, p);
        }
    }
}

/// A later bucket holds longer pauses.
pub proof fn upper_is_increasing(i: nat, j: nat)
    requires
        i < j,
    ensures
        upper_of(i) < upper_of(j),
    decreases j,
{
    lemma_past_step((j - 1) as nat);
    if i < j - 1 {
        upper_is_increasing(i, (j - 1) as nat);
    }
}

/// A pause falls in one bucket only.
pub proof fn falls_in_one(n: nat, a: nat, b: nat)
    requires
        falls_in(n, a),
        falls_in(n, b),
    ensures
        a == b,
{
    if a < b {
        if a < b - 1 {
            upper_is_increasing(a, (b - 1) as nat);
        }
    } else if b < a {
        if b < a - 1 {
            upper_is_increasing(b, (a - 1) as nat);
        }
    }
}

/// A longer pause never falls in an earlier bucket.
pub proof fn buckets_are_ordered(m: nat, n: nat, a: nat, b: nat)
    requires
        m <= n,
        falls_in(m, a),
        falls_in(n, b),
    ensures
        a <= b,
{
    if b < a {
        if b < a - 1 {
            upper_is_increasing(b, (a - 1) as nat);
        }
    }
}

/// A bucket's top is within 19% of any pause in it, past the first four nanoseconds,
/// which share one bucket.
pub proof fn a_bucket_is_tight(n: nat, b: nat)
    requires
        falls_in(n, b),
        n >= 4,
    ensures
        100 * (upper_of(b) - n) <= 19 * n,
{
    lemma_past(b);
    lemma_first_buckets();
    if b > 0 {
        lemma_past((b - 1) as nat);
        lemma_past_step((b - 1) as nat);
        lemma_pow2_unfold(b + 9);
        let low = past((b - 1) as nat) as int;
        let u = upper_of(b);
        assert(!reaches(u as nat, b));
        if low < n {
            lemma_fourth_grows(low, n as int);
        }
        assert(fourth(u) < 2 * fourth(n as int));
        if 100 * u > 119 * n {
            lemma_fourth_grows(119 * n as int, 100 * u);
            assert(14161int * 14161int == 200533921int);
            lemma_fourth_is(119, 14161, 200533921);
            lemma_fourth_is(100, 10000, 100000000);
            lemma_fourth_scaled(119, 200533921, n as int);
            lemma_fourth_scaled(100, 100000000, u);
        }
    }
}

/// The longest pause bucket `r` of the last octave holds. Those of an earlier octave hold
/// half as much for each octave between.
pub open spec fn top_of(r: nat) -> u64 {
    if r == 0 {
        0x9837_f051_8db8_a96f
    } else if r == 1 {
        0xb504_f333_f9de_6484
    } else if r == 2 {
        0xd744_fcca_d69d_6af4
    } else {
        0xffff_ffff_ffff_ffff
    }
}

fn top(r: usize) -> (t: u64)
    ensures
        t == top_of(r as nat),
{
    if r == 0 {
        0x9837_f051_8db8_a96f
    } else if r == 1 {
        0xb504_f333_f9de_6484
    } else if r == 2 {
        0xd744_fcca_d69d_6af4
    } else {
        0xffff_ffff_ffff_ffff
    }
}

proof fn lemma_tops(r: nat)
    requires
        r < 4,
    ensures
        fourth(top_of(r) as int) < pow2(253 + r),
        fourth(top_of(r) + 1) >= pow2(253 + r),
{
    lemma2_to64();
    lemma2_to64_rest();
    lemma_pow2_adds(63, 63);
    lemma_pow2_adds(64, 63);
    lemma_pow2_adds(64, 64);
    if r == 0 {
        lemma_pow2_adds(127, 126);
        assert(0x9837f0518db8a96fint * 0x9837f0518db8a96fint == 0x5a827999fcef3241d8b2481645b3be21int);
        assert(0x9837f0518db8a970int * 0x9837f0518db8a970int == 0x5a827999fcef3243092228b961251100int);
        assert(0x5a827999fcef3241d8b2481645b3be21int * 0x5a827999fcef3241d8b2481645b3be21int < (0x80000000000000000000000000000000int) * (0x40000000000000000000000000000000int));
        assert(0x5a827999fcef3243092228b961251100int * 0x5a827999fcef3243092228b961251100int >= (0x80000000000000000000000000000000int) * (0x40000000000000000000000000000000int));
    } else if r == 1 {
        lemma_pow2_adds(127, 127);
        assert(0xb504f333f9de6484int * 0xb504f333f9de6484int == 0x7fffffffffffffff8171055344676410int);
        assert(0xb504f333f9de6485int * 0xb504f333f9de6485int == 0x8000000000000000eb7aebbb38242d19int);
        assert(0x7fffffffffffffff8171055344676410int * 0x7fffffffffffffff8171055344676410int < (0x80000000000000000000000000000000int) * (0x80000000000000000000000000000000int));
        assert(0x8000000000000000eb7aebbb38242d19int * 0x8000000000000000eb7aebbb38242d19int >= (0x80000000000000000000000000000000int) * (0x80000000000000000000000000000000int));
    } else if r == 2 {
        lemma_pow2_adds(128, 127);
        assert(0xd744fccad69d6af4int * 0xd744fccad69d6af4int == 0xb504f333f9de6483f888b8ac4bf6f890int);
        assert(0xd744fccad69d6af5int * 0xd744fccad69d6af5int == 0xb504f333f9de6485a712b241f931ce79int);
        assert(0xb504f333f9de6483f888b8ac4bf6f890int * 0xb504f333f9de6483f888b8ac4bf6f890int < (0x1_0000_0000_0000_0000int * 0x1_0000_0000_0000_0000int) * (0x80000000000000000000000000000000int));
        assert(0xb504f333f9de6485a712b241f931ce79int * 0xb504f333f9de6485a712b241f931ce79int >= (0x1_0000_0000_0000_0000int * 0x1_0000_0000_0000_0000int) * (0x80000000000000000000000000000000int));
    } else {
        lemma_pow2_adds(128, 128);
        let t = 0x1_0000_0000_0000_0000int;
        assert(fourth(t) == pow2(256));
        lemma_fourth_grows(t - 1, t);
    }
}

/// The top of bucket `r` of an octave is that of the last one, shifted.
proof fn lemma_shifted(by: nat, q: nat, r: nat)
    requires
        r < 4,
        q + by == 61,
    ensures
        upper_of(4 * q + r) == top_of(r) as int / pow2(by) as int,
{
    lemma_tops(r);
    let i = 4 * q + r;
    let top = top_of(r) as int;
    let w = pow2(by) as int;
    lemma_pow2_pos(by);
    let u = top / w;
    lemma_fundamental_div_mod(top, w);
    assert(0 <= top % w < w) by (nonlinear_arith)
        requires
            w >= 1,
    ;
    assert(u >= 0) by (nonlinear_arith)
        requires
            top >= 0,
            w >= 1,
            top == w * u + top % w,
            top % w < w,
    ;
    assert(w * (u + 1) == w * u + w) by (nonlinear_arith);
    assert(w * u >= 0) by (nonlinear_arith)
        requires
            w >= 1,
            u >= 0,
    ;
    // The octaves between take the fourth down by two to the fourth each.
    lemma_pow2_adds(by, by);
    lemma_pow2_adds(2 * by, 2 * by);
    let ww = fourth(w);
    assert(ww == pow2(4 * by));
    lemma_pow2_adds(4 * by, i + 9);
    assert(4 * by + (i + 9) == 253 + r);
    let t = pow2(i + 9) as int;
    lemma_pow2_pos(4 * by);
    if w * u < top {
        lemma_fourth_grows(w * u, top);
    }
    lemma_fourth_times(w, u);
    let fu = fourth(u);
    assert(fu < t) by (nonlinear_arith)
        requires
            ww * fu < ww * t,
            ww >= 1,
    ;
    if top + 1 < w * (u + 1) {
        lemma_fourth_grows(top + 1, w * (u + 1));
    }
    lemma_fourth_times(w, u + 1);
    let fv = fourth(u + 1);
    assert(fv >= t) by (nonlinear_arith)
        requires
            ww * fv >= ww * t,
            ww >= 1,
    ;
    lemma_is_past((u + 1) as nat, i);
}

/// The bucket a pause of `nanos` falls in.
pub fn bucket(nanos: u64) -> (b: usize)
    ensures
        b < BUCKETS,
        falls_in(nanos as nat, b as nat),
{
    proof {
        lemma_first_buckets();
        lemma2_to64();
        lemma2_to64_rest();
    }
    if nanos <= 4 {
        return 0;
    }
    // The octave, and then the quarter of it.
    let mut q: usize = 0;
    let mut rest: u64 = nanos / 8;
    proof {
        lemma_pow2_unfold(3);
        assert(pow2(2) == 4 && pow2(3) == 8);
    }
    while rest > 0
        invariant
            q <= 61,
            nanos > 4,
            rest == nanos as int / pow2((q + 3) as nat) as int,
            pow2((q + 2) as nat) <= nanos,
        decreases rest,
    {
        let ghost e = (q + 3) as nat;
        proof {
            lemma_pow2_pos(e);
            lemma_pow2_unfold(e + 1);
            lemma_div_denominator(nanos as int, pow2(e) as int, 2);
            assert(pow2(e) * 2 == pow2(e + 1));
            let (w, r) = (pow2(e) as int, rest as int);
            lemma_fundamental_div_mod(nanos as int, w);
            assert(0 <= nanos as int % w) by (nonlinear_arith)
                requires
                    w >= 1,
            ;
            assert(w * r >= w) by (nonlinear_arith)
                requires
                    w >= 1,
                    r >= 1,
            ;
            if e >= 64 {
                lemma2_to64_rest();
                assert(e == 64);
            }
        }
        rest = rest / 2;
        q = q + 1;
    }
    proof {
        let w = pow2((q + 3) as nat) as int;
        lemma_pow2_pos((q + 3) as nat);
        lemma_fundamental_div_mod(nanos as int, w);
        assert(nanos as int % w < w) by (nonlinear_arith)
            requires
                w >= 1,
        ;
        assert(w * 0 == 0);
        lemma_octave(q as nat);
        if q > 0 {
            lemma_octave((q - 1) as nat);
            assert(4 * (q - 1) + 3 == 4 * q - 1);
        }
    }
    let mut b: usize = q * STEPS;
    while upper(b) < nanos
        invariant
            q <= 61,
            4 * q <= b <= 4 * q + 3,
            nanos <= upper_of((4 * q + 3) as nat),
            b > 0 ==> nanos > upper_of((b - 1) as nat),
        decreases 4 * q + 3 - b,
    {
        b = b + 1;
    }
    b
}

/// The longest pause bucket `i` holds.
pub fn upper(i: usize) -> (r: u64)
    requires
        i < BUCKETS,
    ensures
        r == upper_of(i as nat),
{
    let octave: usize = i / STEPS;
    let frac: usize = i % STEPS;
    let by: u64 = (61 - octave) as u64;
    let t: u64 = top(frac);
    proof {
        lemma_shifted(by as nat, octave as nat, frac as nat);
        vstd::bits::lemma_u64_shr_is_div(t, by);
        assert(4 * (i as nat / 4) + i as nat % 4 == i);
    }
    t >> by
}

proof fn lemma_sum_update(s: Seq<u64>, i: int, v: u64)
    requires
        0 <= i < s.len(),
    ensures
        sum(s.update(i, v)) == sum(s) - s[i] + v,
    decreases s.len(),
{
    let t = s.update(i, v);
    if i == s.len() - 1 {
        assert(t.drop_last() =~= s.drop_last());
    } else {
        assert(t.drop_last() =~= s.drop_last().update(i, v));
        lemma_sum_update(s.drop_last(), i, v);
    }
}

proof fn lemma_sum_grow(s: Seq<u64>, t: Seq<u64>)
    requires
        s.len() <= t.len(),
        forall|i: int| 0 <= i < t.len() ==> t[i] as nat == count_at(s, i),
    ensures
        sum(t) == sum(s),
    decreases t.len(),
{
    if t.len() == s.len() {
        assert(t =~= s);
    } else {
        lemma_sum_grow(s, t.drop_last());
    }
}

proof fn lemma_sum_at_most(s: Seq<u64>, i: int)
    requires
        0 <= i < s.len(),
    ensures
        s[i] <= sum(s),
    decreases s.len(),
{
    if i < s.len() - 1 {
        lemma_sum_at_most(s.drop_last(), i);
    }
}

proof fn lemma_sum_take(s: Seq<u64>, k: int)
    requires
        0 <= k <= s.len(),
    ensures
        sum(s.take(k)) <= sum(s),
    decreases s.len(),
{
    if k == s.len() {
        assert(s.take(k) =~= s);
    } else {
        assert(s.take(k) =~= s.drop_last().take(k));
        lemma_sum_take(s.drop_last(), k);
    }
}

/// Every pause of a run.
#[derive(Debug, Clone)]
pub struct Pauses {
    /// Pauses in each bucket, grown only as far as the longest pause needs.
    pub counts: Vec<u64>,
    pub count: u64,
    pub total_nanos: u64,
    pub max_nanos: u64,
}

impl Default for Pauses {
    fn default() -> (p: Pauses)
        ensures
            p.wf(),
            p.buckets() == Seq::<u64>::empty(),
            p.count == 0,
            p.total_nanos == 0,
            p.max_nanos == 0,
    {
        Pauses { counts: Vec::new(), count: 0, total_nanos: 0, max_nanos: 0 }
    }
}

impl Pauses {
    /// The pauses counted in each bucket.
    pub open spec fn buckets(&self) -> Seq<u64> {
        self.counts@
    }

    /// Every pause is in one bucket.
    pub open spec fn wf(&self) -> bool {
        &&& self.buckets().len() <= BUCKETS
        &&& sum(self.buckets()) == self.count
    }

    /// The pause that `rank` of the pauses were no longer than, as far as the
    /// buckets tell: the top of the first bucket by which `rank` were counted.
    pub open spec fn at_rank(&self, rank: u64, i: int) -> bool {
        &&& 0 <= i < self.buckets().len()
        &&& sum(self.buckets().take(i)) < rank
        &&& sum(self.buckets().take(i + 1)) >= rank
    }

    /// Count a pause of `nanos`.
    pub fn record(&mut self, nanos: u64)
        requires
            old(self).wf(),
            old(self).count < u64::MAX,
            old(self).total_nanos + nanos <= u64::MAX,
        ensures
            exists|b: int| recorded(*old(self), nanos, *final(self), b),
    {
        let b: usize = bucket(nanos);
        let ghost before = self.counts@;
        if self.counts.len() <= b {
            self.counts.resize(b + 1, 0);
        }
        let ghost grown = self.counts@;
        proof {
            lemma_sum_grow(before, grown);
            lemma_sum_at_most(grown, b as int);
            lemma_sum_update(grown, b as int, (grown[b as int] + 1) as u64);
        }
        let c: u64 = self.counts[b];
        self.counts.set(b, c + 1);
        self.count = self.count + 1;
        self.total_nanos = self.total_nanos + nanos;
        if self.max_nanos < nanos {
            self.max_nanos = nanos;
        }
        proof {
            assert(self.buckets()[b as int] == count_at(before, b as int) + 1);
            assert(recorded(*old(self), nanos, *self, b as int));
        }
    }

    /// Count every pause `other` counted.
    pub fn merge(&mut self, other: &Pauses)
        requires
            old(self).wf(),
            other.wf(),
            old(self).count + other.count <= u64::MAX,
            old(self).total_nanos + other.total_nanos <= u64::MAX,
        ensures
            merged(*old(self), *other, *final(self)),
    {
        let ghost before = self.counts@;
        if self.counts.len() < other.counts.len() {
            self.counts.resize(other.counts.len(), 0);
        }
        let ghost grown = self.counts@;
        proof {
            lemma_sum_grow(before, grown);
            assert(other.counts@.take(0) =~= Seq::<u64>::empty());
        }
        let mut i: usize = 0;
        while i < other.counts.len()
            invariant
                i <= other.counts.len(),
                other.counts.len() <= self.counts.len() == grown.len(),
                forall|j: int| 0 <= j < i ==> #[trigger] self.counts@[j] == grown[j] + other.counts@[j],
                forall|j: int| i <= j < grown.len() ==> #[trigger] self.counts@[j] == grown[j],
                sum(self.counts@) == sum(grown) + sum(other.counts@.take(i as int)),
                sum(grown) + sum(other.counts@) <= u64::MAX,
                self.count == old(self).count,
                self.total_nanos == old(self).total_nanos,
                self.max_nanos == old(self).max_nanos,
            decreases other.counts.len() - i,
        {
            proof {
                let k = i as int;
                lemma_sum_at_most(self.counts@, k);
                lemma_sum_take(other.counts@, k + 1);
                assert(other.counts@.take(k + 1).drop_last() =~= other.counts@.take(k));
                lemma_sum_update(self.counts@, k, (self.counts@[k] + other.counts@[k]) as u64);
            }
            let c: u64 = self.counts[i];
            self.counts.set(i, c + other.counts[i]);
            i = i + 1;
        }
        proof {
            assert(other.counts@.take(i as int) =~= other.counts@);
        }
        self.count = self.count + other.count;
        self.total_nanos = self.total_nanos + other.total_nanos;
        if self.max_nanos < other.max_nanos {
            self.max_nanos = other.max_nanos;
        }
    }

    /// The pause `rank` of all pauses were no longer than: the top of the
    /// bucket it falls in, and never more than the maximum. A rank below one
    /// is taken as one, and a rank past the last as the last.
    pub fn percentile(&self, rank: u64) -> (r: u64)
        requires
            self.wf(),
        ensures
            ranked(*self, rank, r),
    {
        if self.count == 0 {
            return 0;
        }
        let wanted: u64 = if rank < 1 {
            1
        } else if rank > self.count {
            self.count
        } else {
            rank
        };
        let mut seen: u64 = 0;
        let mut i: usize = 0;
        proof {
            assert(self.counts@.take(0) =~= Seq::<u64>::empty());
        }
        while i < self.counts.len()
            invariant
                self.wf(),
                i <= self.counts.len(),
                seen == sum(self.counts@.take(i as int)),
                seen < wanted,
                wanted == clamped(rank, self.count),
            decreases self.counts.len() - i,
        {
            proof {
                lemma_sum_take(self.counts@, i + 1);
                assert(self.counts@.take(i + 1).drop_last() =~= self.counts@.take(i as int));
            }
            seen = seen + self.counts[i];
            if seen >= wanted {
                let top: u64 = upper(i);
                assert(self.at_rank(wanted, i as int));
                return if top < self.max_nanos {
                    top
                } else {
                    self.max_nanos
                };
            }
            i = i + 1;
        }
        proof {
            assert(self.counts@.take(i as int) =~= self.counts@);
        }
        self.max_nanos
    }
}

} // verus!
