//! What an *unhandled* effect operation means.
//!
//! `Std.Fs`, `Std.Process`, `Std.Random` and `Std.Time` each pair an effect
//! declaration with a handler that fakes it. Reaching one with no handler
//! installed is a request for the real thing. Here the operation and its
//! argument are read into a [`Request`], which whoever runs the program carries
//! out, and what came of that is described as a [`Build`].
//!
//! # Building results
//!
//! A native answer is a tree -- `Ok(Just(#[1, 2, 3]))`, a record of file
//! metadata, a list of directory names -- and building it one object at a time
//! would mean holding an address across an allocation, which a copying collector
//! makes wrong. So a native describes what it wants as a [`Build`], which has no
//! addresses in it. The whole tree is then measured, room is made once, and it
//! is built with no collection possible in between.

use super::object::{header_slots, slots};
use vstd::prelude::*;

verus! {

/// A result to build, described before any of it exists.
pub enum Build {
    Unit,
    Int(i64),
    Bool(bool),
    /// The bits of a `Float`.
    Float(u64),
    Str(String),
    Data(&'static str, Vec<Build>),
    Tuple(Vec<Build>),
    Record(Vec<(&'static str, Build)>),
    /// An `Array` of `UInt8`, a byte to an element.
    Bytes(Vec<u8>),
    /// A `Std.Collections.Vector`, in the shape `Vector.fromArray` gives one --
    /// see [`vector_shape`].
    Vector(Vec<Build>),
}

/// `vWidth` in `Std.Collections.Vector`.
pub const VECTOR_WIDTH: usize = 32;

/// How many groups of at most [`VECTOR_WIDTH`] `n` make.
pub open spec fn groups(n: nat) -> nat {
    (n + 31) as nat / 32
}

/// The numbers of nodes of the levels of a tree with `n` of them at the bottom,
/// up to the level whose nodes fit one.
pub open spec fn tower(n: nat) -> Seq<nat>
    decreases n,
{
    if n <= 32 {
        seq![n]
    } else {
        seq![n] + tower(groups(n))
    }
}

fn group_count(n: usize) -> (r: usize)
    ensures
        r == groups(n as nat),
{
    n / VECTOR_WIDTH + (if n % VECTOR_WIDTH == 0 {
        0usize
    } else {
        1usize
    })
}

proof fn lemma_tower(n: nat)
    ensures
        tower(n).len() >= 1,
        tower(n).len() <= n + 1,
        tower(n)[0] == n,
    decreases n,
{
    if n > 32 {
        lemma_tower(groups(n));
    }
}

/// How `Vector.fromArray` lays out `n` elements: nothing, one chunk, or a
/// radix-balanced tree of chunks of [`VECTOR_WIDTH`] under a `Full` with empty
/// side buffers. Returns the shift and, level by level from the leaves up, how
/// many nodes each level has.
pub fn vector_shape(n: usize) -> (r: (i64, Vec<usize>))
    ensures
        r.1@.map_values(|k: usize| k as nat) == tower(groups(n as nat)),
        r.0 == 5 * r.1@.len(),
{
    let mut levels: Vec<usize> = Vec::new();
    let mut last: usize = group_count(n);
    let ghost whole = tower(last as nat);
    levels.push(last);
    let mut shift: i64 = 5;
    proof {
        lemma_tower(last as nat);
        let done = levels@.map_values(|k: usize| k as nat);
        assert(done.drop_last() + tower(last as nat) =~= whole);
    }
    while last > VECTOR_WIDTH
        invariant
            levels@.len() > 0,
            last == levels@.last(),
            shift == 5 * levels@.len(),
            levels@.len() + last <= n / 32 + 3,
            levels@.map_values(|k: usize| k as nat).drop_last() + tower(last as nat) == whole,
        decreases last,
    {
        let ghost was = levels@.map_values(|k: usize| k as nat);
        let ghost before = last as nat;
        last = group_count(last);
        levels.push(last);
        proof {
            let now = levels@.map_values(|k: usize| k as nat);
            assert(now =~= was.push(last as nat));
            assert(now.drop_last() =~= was);
            assert(was =~= was.drop_last().push(before));
            assert(was.drop_last() + (seq![before] + tower(last as nat)) =~= was + tower(last as nat));
        }
        shift = shift + 5;
    }
    proof {
        let done = levels@.map_values(|k: usize| k as nat);
        assert(tower(last as nat) =~= seq![last as nat]);
        assert(done =~= done.drop_last().push(done.last()));
        assert(done.drop_last() + seq![last as nat] =~= done);
    }
    (shift, levels)
}

/// A node of a vector's tree, over a range of its elements.
pub enum Node {
    Leaf(usize, usize),
    Branch(Vec<Node>),
}

/// The smaller of two.
pub open spec fn least(a: int, b: int) -> int {
    if a < b {
        a
    } else {
        b
    }
}

/// How many parts of `width` a range of `n` makes.
pub open spec fn parts(n: int, width: int) -> int {
    (n + width - 1) / width
}

/// `node` holds elements `from..to`, and is of a kind that can hold `width` of
/// them: a leaf, or a branch whose children can hold a thirty-second of that
/// each, all of them full but the last.
pub open spec fn covers(node: Node, from: int, to: int, width: int) -> bool
    decreases node,
{
    match node {
        Node::Leaf(a, b) => width == 32 && a == from && b == to && from < to <= from + 32,
        Node::Branch(kids) => {
            let w = width / 32;
            &&& width > 32 && width % 32 == 0
            &&& from < to <= from + width
            &&& kids@.len() == parts(to - from, w)
            &&& forall|i: int|
                0 <= i < kids@.len() ==> covers(
                    #[trigger] kids@[i],
                    from + i * w,
                    least(from + (i + 1) * w, to),
                    w,
                )
        },
    }
}

/// `nodes` hold `n` elements between them, each of a kind that can hold `width`,
/// all full but the last.
pub open spec fn row(nodes: Seq<Node>, n: int, width: int) -> bool {
    &&& nodes.len() == parts(n, width)
    &&& forall|i: int|
        0 <= i < nodes.len() ==> covers(#[trigger] nodes[i], i * width, least((i + 1) * width, n), width)
}

/// The leaves over `n` elements.
fn leaves(n: usize) -> (r: Vec<Node>)
    requires
        n > 0,
    ensures
        row(r@, n as int, 32),
{
    let mut r: Vec<Node> = Vec::new();
    let mut from: usize = 0;
    while from < n
        invariant
            from <= n,
            from < n ==> from == 32 * r@.len(),
            from == n ==> r@.len() == parts(n as int, 32),
            n > 0,
            32 * r@.len() <= n + 31,
            forall|i: int| 0 <= i < r@.len() ==> covers(#[trigger] r@[i], i * 32, least((i + 1) * 32, n as int), 32),
        decreases n - from,
    {
        let to: usize = if n - from > VECTOR_WIDTH {
            from + VECTOR_WIDTH
        } else {
            n
        };
        r.push(Node::Leaf(from, to));
        from = to;
    }
    r
}

proof fn lemma_parts(n: int, w: int)
    requires
        n > 0,
        w > 0,
    ensures
        parts(n, w) >= 1,
        (parts(n, w) - 1) * w < n <= parts(n, w) * w,
{
    let p = parts(n, w);
    vstd::arithmetic::div_mod::lemma_fundamental_div_mod(n + w - 1, w);
    assert(0 <= (n + w - 1) % w < w) by (nonlinear_arith)
        requires
            w > 0,
    ;
    assert((p - 1) * w == w * p - w) by (nonlinear_arith);
    assert(p * w == w * p) by (nonlinear_arith);
    assert(p >= 1) by (nonlinear_arith)
        requires
            w * p >= n,
            n > 0,
            w > 0,
    ;
}

proof fn lemma_parts_is(n: int, w: int, p: int)
    requires
        n > 0,
        w > 0,
        (p - 1) * w < n <= p * w,
    ensures
        p == parts(n, w),
{
    lemma_parts(n, w);
    let q = parts(n, w);
    assert(p == q) by (nonlinear_arith)
        requires
            w > 0,
            (p - 1) * w < n,
            n <= p * w,
            (q - 1) * w < n,
            n <= q * w,
    ;
}

/// The level above `nodes`: a branch over every thirty-two of them.
fn regroup(nodes: Vec<Node>, Ghost(n): Ghost<int>, Ghost(w): Ghost<int>) -> (r: Vec<Node>)
    requires
        n > 0,
        w >= 32,
        w % 32 == 0,
        row(nodes@, n, w),
    ensures
        row(r@, n, 32 * w),
        r@.len() == groups(nodes@.len()),
{
    let ghost all = nodes@;
    let ghost wide = 32 * w;
    let mut rest: Vec<Node> = nodes;
    let mut r: Vec<Node> = Vec::new();
    proof {
        lemma_parts(n, w);
        assert(all.skip(0) =~= all);
    }
    while rest.len() > VECTOR_WIDTH
        invariant
            n > 0,
            w >= 32,
            w % 32 == 0,
            wide == 32 * w,
            row(all, n, w),
            32 * r@.len() < all.len(),
            rest@ == all.skip(32 * r@.len() as int),
            forall|i: int| 0 <= i < r@.len() ==> covers(#[trigger] r@[i], i * wide, least((i + 1) * wide, n), wide),
        decreases rest@.len(),
    {
        let ghost k = r@.len() as int;
        let tail: Vec<Node> = rest.split_off(VECTOR_WIDTH);
        proof {
            assert(rest@ =~= all.subrange(32 * k, 32 * k + 32));
            assert(tail@ =~= all.skip(32 * (k + 1)));
            lemma_group(all, n, w, k, rest);
        }
        r.push(Node::Branch(rest));
        rest = tail;
    }
    let ghost k = r@.len() as int;
    proof {
        assert(rest@ =~= all.subrange(32 * k, all.len() as int));
        lemma_group(all, n, w, k, rest);
        lemma_parts(n, w);
        assert((k + 1 - 1) * wide < n <= (k + 1) * wide) by {
            let m = all.len() as int;
            assert(m == parts(n, w));
            assert(k * wide <= (m - 1) * w) by (nonlinear_arith)
                requires
                    32 * k <= m - 1,
                    wide == 32 * w,
                    w > 0,
            ;
            assert(m * w <= (k + 1) * wide) by (nonlinear_arith)
                requires
                    m <= 32 * k + 32,
                    wide == 32 * w,
                    w > 0,
            ;
        }
        lemma_parts_is(n, wide, k + 1);
    }
    r.push(Node::Branch(rest));
    r
}

proof fn lemma_group(all: Seq<Node>, n: int, w: int, k: int, kids: Vec<Node>)
    requires
        n > 0,
        w >= 32,
        w % 32 == 0,
        row(all, n, w),
        0 <= k,
        32 * k < all.len(),
        kids@ == all.subrange(32 * k, least(32 * k + 32, all.len() as int)),
    ensures
        covers(Node::Branch(kids), k * (32 * w), least((k + 1) * (32 * w), n), 32 * w),
{
    let wide = 32 * w;
    let m = all.len() as int;
    let from = k * wide;
    let to = least((k + 1) * wide, n);
    lemma_parts(n, w);
    assert(wide / 32 == w);
    assert(from == (32 * k) * w) by (nonlinear_arith)
        requires
            from == k * wide,
            wide == 32 * w,
    ;
    assert((k + 1) * wide == from + wide) by (nonlinear_arith)
        requires
            from == k * wide,
    ;
    assert((32 * k) * w <= (m - 1) * w) by (nonlinear_arith)
        requires
            32 * k <= m - 1,
            w > 0,
    ;
    assert(kids@.len() == parts(to - from, w)) by {
        let p = kids@.len() as int;
        if 32 * k + 32 <= m {
            if 32 * k + 32 == m {
                assert(m * w == from + wide) by (nonlinear_arith)
                    requires
                        m == 32 * k + 32,
                        from == (32 * k) * w,
                        wide == 32 * w,
                ;
                assert((m - 1) * w == from + 31 * w) by (nonlinear_arith)
                    requires
                        m == 32 * k + 32,
                        from == (32 * k) * w,
                ;
            } else {
                assert(from + wide <= (m - 1) * w) by (nonlinear_arith)
                    requires
                        32 * k + 32 <= m - 1,
                        from == (32 * k) * w,
                        wide == 32 * w,
                        w > 0,
                ;
            }
            assert((p - 1) * w == 31 * w && p * w == 32 * w) by (nonlinear_arith)
                requires
                    p == 32,
            ;
        } else {
            assert((p - 1) * w == (m - 1) * w - from && p * w == m * w - from) by (nonlinear_arith)
                requires
                    p == m - 32 * k,
                    from == (32 * k) * w,
            ;
            assert(p * w <= 32 * w) by (nonlinear_arith)
                requires
                    p <= 32,
                    w > 0,
            ;
        }
        lemma_parts_is(to - from, w, p);
    }
    assert forall|i: int| 0 <= i < kids@.len() implies covers(
        #[trigger] kids@[i],
        from + i * w,
        least(from + (i + 1) * w, to),
        w,
    ) by {
        let j = 32 * k + i;
        assert(kids@[i] == all[j]);
        assert(covers(all[j], j * w, least((j + 1) * w, n), w));
        assert(j * w == from + i * w) by (nonlinear_arith)
            requires
                j == 32 * k + i,
                from == (32 * k) * w,
        ;
        assert((j + 1) * w == from + (i + 1) * w) by (nonlinear_arith)
            requires
                j == 32 * k + i,
                from == (32 * k) * w,
        ;
        assert((i + 1) * w <= 32 * w) by (nonlinear_arith)
            requires
                i + 1 <= 32,
                w > 0,
        ;
    }
}

/// How a vector is laid out.
pub enum Layout {
    /// `Vector.Empty`.
    Empty,
    /// `Vector.Single`, of one chunk.
    Single,
    /// `Vector.Full`: the shift, and the root of the tree.
    Full(i64, Node),
}

/// Thirty-two to the power of `k`.
pub open spec fn power(k: nat) -> int
    decreases k,
{
    if k == 0 {
        1
    } else {
        32 * power((k - 1) as nat)
    }
}

proof fn lemma_power(k: nat)
    ensures
        power(k) >= 1,
        k >= 1 ==> power(k) >= 32 && power(k) % 32 == 0,
    decreases k,
{
    if k > 0 {
        lemma_power((k - 1) as nat);
    }
}

/// Lay `n` elements out as `Vector.fromArray` would.
pub fn vector_layout(n: usize) -> (r: Layout)
    ensures
        n == 0 ==> r is Empty,
        0 < n <= VECTOR_WIDTH ==> r is Single,
        n > VECTOR_WIDTH ==> match r {
            Layout::Full(shift, root) => shift == 5 * tower(groups(n as nat)).len() && covers(
                root,
                0,
                n as int,
                power(tower(groups(n as nat)).len() + 1),
            ),
            _ => false,
        },
{
    if n == 0 {
        return Layout::Empty;
    }
    if n <= VECTOR_WIDTH {
        return Layout::Single;
    }
    let (shift, levels) = vector_shape(n);
    let mut nodes: Vec<Node> = leaves(n);
    let mut level: usize = 0;
    let ghost whole = tower(groups(n as nat));
    proof {
        assert(power(0) == 1);
        assert(power(1) == 32);
        assert(levels@.map_values(|k: usize| k as nat).len() == levels@.len());
        lemma_tower(groups(n as nat));
    }
    while nodes.len() > VECTOR_WIDTH
        invariant
            n > VECTOR_WIDTH,
            row(nodes@, n as int, power((level + 1) as nat)),
            nodes@.len() == tower(nodes@.len())[0],
            level + tower(nodes@.len()).len() == whole.len(),
            whole.len() <= usize::MAX,
        decreases nodes@.len(),
    {
        proof {
            lemma_power((level + 1) as nat);
            lemma_tower(nodes@.len());
            lemma_tower(groups(nodes@.len()));
        }
        nodes = regroup(nodes, Ghost(n as int), Ghost(power((level + 1) as nat)));
        level = level + 1;
    }
    proof {
        lemma_power((level + 1) as nat);
        lemma_parts(n as int, power((level + 1) as nat));
        assert(tower(nodes@.len()).len() == 1);
        assert(nodes@.subrange(0, nodes@.len() as int) =~= nodes@);
        lemma_group(nodes@, n as int, power((level + 1) as nat), 0, nodes);
        let w = power((level + 1) as nat);
        assert(power((level + 2) as nat) == 32 * w);
        assert(least((0 + 1) * (32 * w), n as int) == n) by {
            assert(nodes@.len() * w <= 32 * w) by (nonlinear_arith)
                requires
                    nodes@.len() <= 32,
                    w > 0,
            ;
        }
        assert(0 * (32 * w) == 0);
    }
    Layout::Full(shift, Node::Branch(nodes))
}

/// The slots an object of `len` fields takes, one descriptor for all of them or
/// one each.
pub open spec fn cells(uniform: bool, len: nat) -> nat {
    slots(uniform, len) + len
}

/// The slots `len` bytes take, eight to a slot, after a header.
pub open spec fn packed(len: nat) -> nat {
    2 + (len + 7) as nat / 8
}

/// The sum of the levels of a shape.
pub open spec fn sum(levels: Seq<nat>) -> nat
    decreases levels.len(),
{
    if levels.len() == 0 {
        0
    } else {
        sum(levels.drop_last()) + levels.last()
    }
}

/// The slots a vector's own objects take, over `n` elements.
pub open spec fn vector_cells(n: nat) -> nat {
    let levels = tower(groups(n));
    if n <= VECTOR_WIDTH {
        // `Single` and its array, or a bare `Empty`.
        cells(false, 1) + cells(true, n)
    } else {
        // `Full` and its four empty buffers; every leaf a `Leaf` and an array of
        // elements; every branch a `Branch`, a `None` and an array of children.
        (9 + 8 + 5 * levels[0] + n + 8 * (sum(levels) - levels[0] + 1) + sum(levels)) as nat
    }
}

/// The slots a tree takes.
pub open spec fn needs(b: Build) -> nat
    decreases b,
{
    match b {
        Build::Unit | Build::Int(_) | Build::Bool(_) | Build::Float(_) => 0,
        Build::Str(s) => packed(vstd::utf8::encode_utf8(s@).len()),
        Build::Data(_, xs) => cells(false, xs@.len()) + needs_all(xs@),
        Build::Tuple(xs) => cells(false, xs@.len()) + needs_all(xs@),
        Build::Record(fs) => cells(false, 2 * fs@.len()) + needs_fields(fs@),
        Build::Bytes(b) => packed(b@.len()) + cells(true, 0),
        Build::Vector(xs) => vector_cells(xs@.len()) + needs_all(xs@),
    }
}

/// The slots some trees take.
pub open spec fn needs_all(xs: Seq<Build>) -> nat
    decreases xs,
{
    if xs.len() == 0 {
        0
    } else {
        needs_all(xs.drop_last()) + needs(xs.last())
    }
}

/// The slots the fields of a record take.
pub open spec fn needs_fields(fs: Seq<(&'static str, Build)>) -> nat
    decreases fs,
{
    if fs.len() == 0 {
        0
    } else {
        needs_fields(fs.drop_last()) + needs(fs.last().1)
    }
}

fn size_of(uniform: bool, len: usize) -> (r: usize)
    requires
        cells(uniform, len as nat) <= usize::MAX,
    ensures
        r == cells(uniform, len as nat),
{
    header_slots(uniform, len) + len
}

fn packed_slots(len: usize) -> (r: usize)
    ensures
        r == packed(len as nat),
{
    2 + len / 8 + (if len % 8 == 0 {
        0usize
    } else {
        1usize
    })
}

proof fn lemma_needs_take(xs: Seq<Build>, k: int)
    requires
        0 <= k <= xs.len(),
    ensures
        needs_all(xs.take(k)) <= needs_all(xs),
    decreases xs.len(),
{
    if k == xs.len() {
        assert(xs.take(k) =~= xs);
    } else {
        assert(xs.take(k) =~= xs.drop_last().take(k));
        lemma_needs_take(xs.drop_last(), k);
    }
}

proof fn lemma_fields_take(xs: Seq<(&'static str, Build)>, k: int)
    requires
        0 <= k <= xs.len(),
    ensures
        needs_fields(xs.take(k)) <= needs_fields(xs),
    decreases xs.len(),
{
    if k == xs.len() {
        assert(xs.take(k) =~= xs);
    } else {
        assert(xs.take(k) =~= xs.drop_last().take(k));
        lemma_fields_take(xs.drop_last(), k);
    }
}

fn slots_all(xs: &Vec<Build>) -> (r: usize)
    requires
        needs_all(xs@) <= usize::MAX,
    ensures
        r == needs_all(xs@),
    decreases xs,
{
    let mut r: usize = 0;
    let mut i: usize = 0;
    while i < xs.len()
        invariant
            i <= xs@.len(),
            needs_all(xs@) <= usize::MAX,
            r == needs_all(xs@.take(i as int)),
        decreases xs.len() - i,
    {
        proof {
            assert(xs@.take(i + 1).drop_last() =~= xs@.take(i as int));
            lemma_needs_take(xs@, i + 1);
        }
        r = r + xs[i].slots();
        i = i + 1;
    }
    proof {
        assert(xs@.take(i as int) =~= xs@);
    }
    r
}

fn slots_fields(xs: &Vec<(&'static str, Build)>) -> (r: usize)
    requires
        needs_fields(xs@) <= usize::MAX,
    ensures
        r == needs_fields(xs@),
    decreases xs,
{
    let mut r: usize = 0;
    let mut i: usize = 0;
    while i < xs.len()
        invariant
            i <= xs@.len(),
            needs_fields(xs@) <= usize::MAX,
            r == needs_fields(xs@.take(i as int)),
        decreases xs.len() - i,
    {
        proof {
            assert(xs@.take(i + 1).drop_last() =~= xs@.take(i as int));
            lemma_fields_take(xs@, i + 1);
            assert(decreases_to!(xs => xs@[i as int]));
        }
        r = r + xs[i].1.slots();
        i = i + 1;
    }
    proof {
        assert(xs@.take(i as int) =~= xs@);
    }
    r
}

proof fn lemma_sum_split(a: Seq<nat>, b: Seq<nat>)
    ensures
        sum(a + b) == sum(a) + sum(b),
    decreases b.len(),
{
    if b.len() == 0 {
        assert(a + b =~= a);
    } else {
        assert((a + b).drop_last() =~= a + b.drop_last());
        lemma_sum_split(a, b.drop_last());
    }
}

proof fn lemma_sum_take(s: Seq<nat>, k: int)
    requires
        0 <= k <= s.len(),
    ensures
        sum(s.take(k)) <= sum(s),
{
    lemma_sum_split(s.take(k), s.skip(k));
    assert(s.take(k) + s.skip(k) =~= s);
}

fn total(levels: &Vec<usize>) -> (r: usize)
    requires
        sum(levels@.map_values(|k: usize| k as nat)) <= usize::MAX,
    ensures
        r == sum(levels@.map_values(|k: usize| k as nat)),
{
    let ghost all = levels@.map_values(|k: usize| k as nat);
    let mut r: usize = 0;
    let mut i: usize = 0;
    while i < levels.len()
        invariant
            i <= levels@.len(),
            all == levels@.map_values(|k: usize| k as nat),
            sum(all) <= usize::MAX,
            r == sum(all.take(i as int)),
        decreases levels.len() - i,
    {
        proof {
            assert(all.take(i + 1).drop_last() =~= all.take(i as int));
            lemma_sum_take(all, i + 1);
        }
        r = r + levels[i];
        i = i + 1;
    }
    proof {
        assert(all.take(i as int) =~= all);
    }
    r
}

impl Build {
    pub fn unit() -> (b: Build)
        ensures
            b == Build::Unit,
    {
        Build::Unit
    }

    pub fn number(n: i64) -> (b: Build)
        ensures
            b == Build::Int(n),
    {
        Build::Int(n)
    }

    pub fn ok(v: Build) -> (b: Build)
        ensures
            b matches Build::Data(name, xs) && name@ == "Result.Ok"@ && xs@ == seq![v],
    {
        Build::Data("Result.Ok", vec![v])
    }

    pub fn error(msg: String) -> (b: Build)
        ensures
            b matches Build::Data(name, xs) && name@ == "Result.Err"@ && xs@ == seq![Build::Str(msg)],
    {
        Build::Data("Result.Err", vec![Build::Str(msg)])
    }

    pub fn just(v: Build) -> (b: Build)
        ensures
            b matches Build::Data(name, xs) && name@ == "Maybe.Just"@ && xs@ == seq![v],
    {
        Build::Data("Maybe.Just", vec![v])
    }

    pub fn none() -> (b: Build)
        ensures
            b matches Build::Data(name, xs) && name@ == "Maybe.None"@ && xs@ == Seq::<Build>::empty(),
    {
        Build::Data("Maybe.None", Vec::new())
    }

    /// How many heap slots the whole tree needs.
    pub fn slots(&self) -> (r: usize)
        requires
            needs(*self) <= usize::MAX,
        ensures
            r == needs(*self),
        decreases self,
    {
        match self {
            Build::Unit | Build::Int(_) | Build::Bool(_) | Build::Float(_) => 0,
            Build::Str(s) => packed_slots(s.as_str().as_bytes().len()),
            Build::Data(_, xs) | Build::Tuple(xs) => size_of(false, xs.len()) + slots_all(xs),
            Build::Record(fs) => {
                proof {
                    assert(2 * fs@.len() <= cells(false, 2 * fs@.len()));
                }
                size_of(false, 2 * fs.len()) + slots_fields(fs)
            },
            Build::Bytes(b) => packed_slots(b.len()) + size_of(true, 0),
            Build::Vector(xs) => {
                let n: usize = xs.len();
                let inner: usize = slots_all(xs);
                if n <= VECTOR_WIDTH {
                    return size_of(false, 1) + size_of(true, n) + inner;
                }
                let (_, levels) = vector_shape(n);
                let ghost all = levels@.map_values(|k: usize| k as nat);
                proof {
                    lemma_tower(groups(n as nat));
                    assert(all.len() == levels@.len());
                    assert(all[0] == levels@[0]);
                    assert(all.take(1) =~= seq![all[0]]);
                    assert(all.take(1).drop_last() =~= Seq::<nat>::empty());
                    assert(sum(Seq::<nat>::empty()) == 0);
                    assert(sum(all.take(1)) == all[0]);
                    lemma_sum_take(all, 1);
                }
                let children: usize = total(&levels);
                let bottom: usize = levels[0];
                let branches: usize = children - bottom + 1;
                9 + 8 + 5 * bottom + n + 8 * branches + children + inner
            },
        }
    }
}

} // verus!
