//! A plan computes what the loop does: laws.
//!
//! A loop's body is run here as its instructions say, one element at a time, and as the
//! plan's operations say, in one of the two lanes. What is read of an array is whatever it
//! holds; what is written is which element gets which float.

use super::arm::{wrap, Floats};
use super::code::{prim_of, word_of, FloatOp, Instr, Op, Program, Reg};
use super::vector::{
    around, array_at, array_in, array_reg, body_of, float_in, int_in, loaded, moved, planned, read_all, read_one,
    reg_at, with_floats, with_imm, with_store, with_two, Array, AroundV, BodyV, Expr, Lanes, Sym, VOp,
};
use crate::terms::prim::Prim;
use vstd::arithmetic::power2::pow2;
use vstd::prelude::*;

verus! {

/// Where a run of the body is: what registers hold, and what has been written, each to which
/// array, at which index, which float.
pub struct Run {
    pub regs: Map<Reg, u64>,
    pub stores: Seq<(u64, u64, u64)>,
}

impl Run {
    pub open spec fn set(self, r: Reg, v: u64) -> Run {
        Run { regs: self.regs.insert(r, v), ..self }
    }
}

/// The immediate of an instruction, which is signed.
pub open spec fn imm_of(i: Instr) -> int {
    if i.imm < 0x8000_0000 {
        i.imm as int
    } else {
        i.imm - 0x1_0000_0000
    }
}

/// One instruction, as the bytecode says it. `load` is what an array holds at an index.
pub open spec fn instr(p: Program, fl: Floats, load: spec_fn(u64, u64) -> u64, s: Run, i: Instr) -> Run {
    let (b, c) = (s.regs[i.b], s.regs[i.c]);
    match i.op {
        Op::Move => s.set(i.a, b),
        Op::Const => s.set(i.a, word_of(p, i.imm)->0),
        Op::AddI => s.set(i.a, wrap(b + c)),
        Op::SubI => s.set(i.a, wrap(b - c)),
        Op::MulI => s.set(i.a, wrap(b * c)),
        Op::AddIK => s.set(i.a, wrap(b + imm_of(i))),
        Op::SubIK => s.set(i.a, wrap(b - imm_of(i))),
        Op::MulIK => s.set(i.a, wrap(b * imm_of(i))),
        Op::ShlIK => s.set(i.a, wrap(b * pow2((imm_of(i) % 64) as nat))),
        Op::AddF => s.set(i.a, (fl.sum)(b, c)),
        Op::SubF => s.set(i.a, (fl.difference)(b, c)),
        Op::MulF => s.set(i.a, (fl.product)(b, c)),
        Op::DivF => s.set(i.a, (fl.quotient)(b, c)),
        Op::Prim2 => s.set(i.a, load(b, c)),
        Op::Prim => Run {
            stores: s.stores.push((b, s.regs[i.b.wrapping_add(1)], s.regs[i.b.wrapping_add(2)])),
            ..s
        }.set(i.a, 0),
        _ => s,
    }
}

/// The first `n` instructions at `pcs`.
pub open spec fn body_run(
    p: Program,
    fl: Floats,
    load: spec_fn(u64, u64) -> u64,
    start: Map<Reg, u64>,
    pcs: Seq<usize>,
    n: nat,
) -> Run
    decreases n,
{
    if n == 0 || n > pcs.len() {
        Run { regs: start, stores: Seq::empty() }
    } else {
        instr(p, fl, load, body_run(p, fl, load, start, pcs, (n - 1) as nat), p.code@[pcs[n - 1] as int])
    }
}

/// Where a lane of the vector loop is: what the registers hold for the first lane, what this
/// lane of the vector registers does, and what this lane has written.
pub struct Lane {
    pub run: Run,
    pub vecs: Map<u8, u64>,
}

/// What the vector loop knows before it starts: the arrays, what is broadcast, and what the
/// registers held.
pub struct Before {
    pub arrays: Seq<Array>,
    pub broadcasts: Seq<Reg>,
    pub start: Map<Reg, u64>,
}

pub open spec fn lane_value(k: Before, s: Lane, x: Lanes) -> u64 {
    match x {
        Lanes::V(n) => s.vecs[n],
        Lanes::B(n) => k.start[k.broadcasts[n as int]],
    }
}

/// One operation of the plan, in lane `at`: its elements are that many behind those of the
/// first lane.
pub open spec fn vector_op(
    p: Program,
    fl: Floats,
    load: spec_fn(u64, u64) -> u64,
    k: Before,
    at: int,
    s: Lane,
    o: VOp,
) -> Lane {
    match o {
        VOp::Scalar(i) => Lane { run: instr(p, fl, load, s.run, i), ..s },
        VOp::Const(r, w) => Lane { run: s.run.set(r, w), ..s },
        VOp::Load { lane, array, idx } => Lane {
            vecs: s.vecs.insert(lane, load(k.start[k.arrays[array as int].reg], wrap(s.run.regs[idx] + at))),
            ..s
        },
        VOp::Store { array, idx, val } => Lane {
            run: Run {
                stores: s.run.stores.push(
                    (k.start[k.arrays[array as int].reg], wrap(s.run.regs[idx] + at), lane_value(k, s, val)),
                ),
                ..s.run
            },
            ..s
        },
        VOp::Float { op, lane, a, b } => Lane {
            vecs: s.vecs.insert(
                lane,
                match op {
                    FloatOp::Add => (fl.sum)(lane_value(k, s, a), lane_value(k, s, b)),
                    FloatOp::Sub => (fl.difference)(lane_value(k, s, a), lane_value(k, s, b)),
                    FloatOp::Mul => (fl.product)(lane_value(k, s, a), lane_value(k, s, b)),
                    FloatOp::Div => (fl.quotient)(lane_value(k, s, a), lane_value(k, s, b)),
                },
            ),
            ..s
        },
    }
}

/// The first `n` operations of a plan, in lane `at`.
pub open spec fn plan_run(
    p: Program,
    fl: Floats,
    load: spec_fn(u64, u64) -> u64,
    k: Before,
    at: int,
    ops: Seq<VOp>,
    n: nat,
) -> Lane
    decreases n,
{
    if n == 0 || n > ops.len() {
        Lane { run: Run { regs: k.start, stores: Seq::empty() }, vecs: Map::empty() }
    } else {
        vector_op(p, fl, load, k, at, plan_run(p, fl, load, k, at, ops, (n - 1) as nat), ops[n - 1])
    }
}

/// An instruction reads a register.
pub open spec fn reads(i: Instr, r: Reg) -> bool {
    match i.op {
        Op::Move | Op::AddIK | Op::SubIK | Op::MulIK | Op::ShlIK => r == i.b,
        Op::AddI | Op::SubI | Op::MulI | Op::AddF | Op::SubF | Op::MulF | Op::DivF | Op::Prim2 => r == i.b || r == i.c,
        Op::Prim => r == i.b || r == i.b.wrapping_add(1) || r == i.b.wrapping_add(2),
        _ => false,
    }
}

/// Nothing reads what a write to an array answers.
pub open spec fn answers_unread(p: Program, pcs: Seq<usize>) -> bool {
    forall|i: int, k: int|
        0 <= i < pcs.len() && 0 <= k < pcs.len() && p.code@[#[trigger] pcs[i] as int].op == Op::Prim ==> !reads(
            p.code@[#[trigger] pcs[k] as int],
            p.code@[pcs[i] as int].a,
        )
}

/// A register is one that a write to an array answers in.
pub open spec fn answers(p: Program, pcs: Seq<usize>, r: Reg) -> bool {
    exists|i: int| 0 <= i < pcs.len() && p.code@[#[trigger] pcs[i] as int].op == Op::Prim && p.code@[pcs[i] as int].a == r
}

// --- wrapping ---

proof fn lemma_wrap(a: int, b: int, k: int)
    requires
        a == b + k * 0x1_0000_0000_0000_0000,
    ensures
        wrap(a) == wrap(b),
{
    vstd::arithmetic::div_mod::lemma_mod_multiples_vanish(k, b, 0x1_0000_0000_0000_0000);
}

proof fn lemma_wrapped(x: int) -> (k: int)
    ensures
        wrap(x) == x + k * 0x1_0000_0000_0000_0000,
{
    let big = 0x1_0000_0000_0000_0000int;
    vstd::arithmetic::div_mod::lemma_fundamental_div_mod(x, big);
    -(x / big)
}

/// Adding to what was wrapped.
proof fn lemma_wrap_plus(x: int, y: int)
    ensures
        wrap(wrap(x) + y) == wrap(x + y),
        wrap(wrap(x) - y) == wrap(x - y),
        wrap(y + wrap(x)) == wrap(y + x),
        wrap(y - wrap(x)) == wrap(y - x),
{
    let k = lemma_wrapped(x);
    lemma_wrap(wrap(x) + y, x + y, k);
    lemma_wrap(wrap(x) - y, x - y, k);
    lemma_wrap(y + wrap(x), y + x, k);
    assert(y - wrap(x) == (y - x) + (-k) * 0x1_0000_0000_0000_0000);
    lemma_wrap(y - wrap(x), y - x, -k);
}

proof fn lemma_wrap_same(x: u64)
    ensures
        wrap(x as int) == x,
        wrap(x + 0) == x,
{
}

// --- the relation between the two runs ---

/// What a register holds in the body's run, given what it does in the lane's.
pub open spec fn agrees(k: Before, l: AroundV, at: int, lanes: u8, broadcasts: nat, sc: Run, ve: Lane, r: Reg, s: Sym) -> bool {
    match s {
        Sym::Int { j, expr, .. } => {
            &&& sc.regs[r] == wrap(ve.run.regs[r] + j * at)
            &&& match *expr {
                Expr::Reg(src) => sc.regs[r] == k.start[src] && ve.run.regs[r] == k.start[src],
                _ => true,
            }
        },
        Sym::Float(x) => {
            &&& sc.regs[r] == lane_value(k, ve, x)
            &&& match x {
                Lanes::V(n) => n < lanes,
                Lanes::B(n) => n < broadcasts,
            }
        },
    }
}

pub open spec fn related(
    p: Program,
    pcs: Seq<usize>,
    k: Before,
    l: AroundV,
    at: int,
    b: BodyV,
    sc: Run,
    ve: Lane,
) -> bool {
    &&& forall|r: Reg| #[trigger]
        b.syms.contains_key(r) && !answers(p, pcs, r) ==> agrees(
            k,
            l,
            at,
            b.lanes,
            b.broadcasts.len(),
            sc,
            ve,
            r,
            b.syms[r],
        )
    &&& forall|r: Reg|
        !(#[trigger] b.syms.contains_key(r)) ==> sc.regs[r] == (if r == l.j {
            wrap(k.start[r] + at)
        } else {
            k.start[r]
        }) && ve.run.regs[r] == k.start[r]
    &&& sc.stores == ve.run.stores
}

/// The arrays and broadcasts known so far are the first of those there will be, and no two
/// are of one register.
pub open spec fn known(k: Before, b: BodyV) -> bool {
    &&& b.arrays.len() <= k.arrays.len()
    &&& forall|i: int| 0 <= i < b.arrays.len() ==> (#[trigger] k.arrays[i]).reg == b.arrays[i].reg
    &&& b.broadcasts.len() <= k.broadcasts.len()
    &&& forall|i: int| 0 <= i < b.broadcasts.len() ==> #[trigger] k.broadcasts[i] == b.broadcasts[i]
}

pub open spec fn distinct(b: BodyV) -> bool {
    &&& forall|i: int, j: int| 0 <= i < j < b.broadcasts.len() ==> #[trigger] b.broadcasts[i] != #[trigger] b.broadcasts[j]
    &&& forall|i: int, j: int|
        0 <= i < j < b.arrays.len() ==> (#[trigger] b.arrays[i]).reg != (#[trigger] b.arrays[j]).reg
}

/// There are only so many registers.
proof fn lemma_few(s: Seq<Reg>, most: nat)
    requires
        forall|i: int, j: int| 0 <= i < j < s.len() ==> #[trigger] s[i] != #[trigger] s[j],
        forall|i: int| 0 <= i < s.len() ==> #[trigger] s[i] < most,
    ensures
        s.len() <= most,
    decreases most,
{
    if s.len() > 0 && most > 0 {
        let top = (most - 1) as nat;
        if exists|i: int| 0 <= i < s.len() && #[trigger] s[i] == top {
            let i = choose|i: int| 0 <= i < s.len() && #[trigger] s[i] == top;
            let t = s.remove(i);
            assert forall|a: int, b: int| 0 <= a < b < t.len() implies #[trigger] t[a] != #[trigger] t[b] by {
                let x = if a < i {
                    a
                } else {
                    a + 1
                };
                let y = if b < i {
                    b
                } else {
                    b + 1
                };
                assert(t[a] == s[x] && t[b] == s[y]);
            }
            assert forall|a: int| 0 <= a < t.len() implies #[trigger] t[a] < top by {
                let x = if a < i {
                    a
                } else {
                    a + 1
                };
                assert(t[a] == s[x]);
                if s[x] == top {
                    if x < i {
                        assert(s[x] != s[i]);
                    } else {
                        assert(s[i] != s[x]);
                    }
                }
            }
            lemma_few(t, top);
        } else {
            lemma_few(s, top);
        }
    } else if s.len() > 0 {
        assert(s[0] < most);
    }
}

proof fn lemma_reg_at(rs: Seq<Reg>, r: Reg, i: nat)
    requires
        i <= rs.len(),
    ensures
        i <= reg_at(rs, r, i) <= rs.len(),
        reg_at(rs, r, i) < rs.len() ==> rs[reg_at(rs, r, i) as int] == r,
        forall|j: int| i <= j < reg_at(rs, r, i) ==> #[trigger] rs[j] != r,
    decreases rs.len() - i,
{
    if i < rs.len() && rs[i as int] != r {
        lemma_reg_at(rs, r, i + 1);
    }
}

proof fn lemma_array_at(xs: Seq<Array>, r: Reg, i: nat)
    requires
        i <= xs.len(),
    ensures
        i <= array_at(xs, r, i) <= xs.len(),
        array_at(xs, r, i) < xs.len() ==> xs[array_at(xs, r, i) as int].reg == r,
        forall|j: int| i <= j < array_at(xs, r, i) ==> (#[trigger] xs[j]).reg != r,
    decreases xs.len() - i,
{
    if i < xs.len() && xs[i as int].reg != r {
        lemma_array_at(xs, r, i + 1);
    }
}

proof fn lemma_at_most(b: BodyV)
    requires
        distinct(b),
    ensures
        b.broadcasts.len() <= 256,
        b.arrays.len() <= 256,
{
    lemma_few(b.broadcasts, 256);
    let rs = Seq::new(b.arrays.len(), |i: int| b.arrays[i].reg);
    assert forall|i: int, j: int| 0 <= i < j < rs.len() implies #[trigger] rs[i] != #[trigger] rs[j] by {
        assert(b.arrays[i].reg != b.arrays[j].reg);
    }
    lemma_few(rs, 256);
}

/// A register read as a float: the lane has it.
proof fn lemma_float_in(p: Program, pcs: Seq<usize>, k: Before, l: AroundV, at: int, b: BodyV, sc: Run, ve: Lane, r: Reg)
    requires
        related(p, pcs, k, l, at, b, sc, ve),
        distinct(b),
        !answers(p, pcs, r),
        float_in(b, l, r) is Some,
        known(k, (float_in(b, l, r)->0).0),
    ensures
        ({
            let (b1, x) = float_in(b, l, r)->0;
            &&& sc.regs[r] == lane_value(k, ve, x)
            &&& related(p, pcs, k, l, at, b1, sc, ve)
            &&& distinct(b1)
            &&& match x {
                Lanes::V(n) => n < b1.lanes,
                Lanes::B(n) => n < b1.broadcasts.len(),
            }
            &&& b1.ops == b.ops
            &&& b1.lanes == b.lanes
            &&& b1.syms == b.syms
            &&& b1.arrays == b.arrays
            &&& b1.broadcasts.len() >= b.broadcasts.len()
            &&& known(k, b)
        }),
{
    let (b1, x) = float_in(b, l, r)->0;
    lemma_reg_at(b.broadcasts, r, 0);
    lemma_at_most(b);
    if b.syms.contains_key(r) {
        assert(agrees(k, l, at, b.lanes, b.broadcasts.len(), sc, ve, r, b.syms[r]));
    } else {
        let n = reg_at(b.broadcasts, r, 0);
        assert(distinct(b1)) by {
            assert forall|i: int, j: int| 0 <= i < j < b1.broadcasts.len() implies #[trigger] b1.broadcasts[i]
                != #[trigger] b1.broadcasts[j] by {
                if j < b.broadcasts.len() {
                    assert(b.broadcasts[i] != b.broadcasts[j]);
                }
            }
        }
        lemma_at_most(b1);
        assert(n < 256);
        assert(k.broadcasts[n as int] == b1.broadcasts[n as int]);
        assert(b1.broadcasts[n as int] == r);
    }
    assert(known(k, b)) by {
        assert forall|i: int| 0 <= i < b.broadcasts.len() implies #[trigger] k.broadcasts[i] == b.broadcasts[i] by {
            assert(b1.broadcasts[i] == b.broadcasts[i]);
        }
    }
    assert forall|q: Reg| #[trigger] b1.syms.contains_key(q) && !answers(p, pcs, q) implies agrees(
        k,
        l,
        at,
        b1.lanes,
        b1.broadcasts.len(),
        sc,
        ve,
        q,
        b1.syms[q],
    ) by {
        assert(agrees(k, l, at, b.lanes, b.broadcasts.len(), sc, ve, q, b.syms[q]));
    }
}

/// A register read as an integer: the lane's is `j` times the lane behind.
proof fn lemma_int_in(p: Program, pcs: Seq<usize>, k: Before, l: AroundV, at: int, b: BodyV, sc: Run, ve: Lane, r: Reg)
    requires
        related(p, pcs, k, l, at, b, sc, ve),
        !answers(p, pcs, r),
        int_in(b, l, r) is Some,
        0 <= at <= 1,
    ensures
        agrees(k, l, at, b.lanes, b.broadcasts.len(), sc, ve, r, int_in(b, l, r)->0),
{
    if b.syms.contains_key(r) {
    } else {
        lemma_wrap_same(k.start[r]);
    }
}

proof fn lemma_array_in(
    p: Program,
    pcs: Seq<usize>,
    k: Before,
    l: AroundV,
    at: int,
    b: BodyV,
    sc: Run,
    ve: Lane,
    r: Reg,
    kind: u8,
    stored: bool,
)
    requires
        related(p, pcs, k, l, at, b, sc, ve),
        distinct(b),
        !answers(p, pcs, r),
        array_in(b, l, r, kind, stored) is Some,
        known(k, (array_in(b, l, r, kind, stored)->0).0),
    ensures
        ({
            let (b1, n) = array_in(b, l, r, kind, stored)->0;
            &&& sc.regs[r] == k.start[k.arrays[n as int].reg]
            &&& related(p, pcs, k, l, at, b1, sc, ve)
            &&& distinct(b1)
            &&& b1.ops == b.ops
            &&& b1.lanes == b.lanes
            &&& b1.syms == b.syms
            &&& b1.broadcasts == b.broadcasts
            &&& known(k, b)
        }),
{
    let (b1, n) = array_in(b, l, r, kind, stored)->0;
    let src = array_reg(b, l, r)->0;
    if b.syms.contains_key(r) {
        assert(agrees(k, l, at, b.lanes, b.broadcasts.len(), sc, ve, r, b.syms[r]));
    }
    assert(sc.regs[r] == k.start[src]);
    lemma_array_at(b.arrays, src, 0);
    lemma_at_most(b);
    let i = array_at(b.arrays, src, 0);
    assert(n == i);
    assert(b1.arrays[i as int].reg == src);
    assert(k.arrays[i as int].reg == b1.arrays[i as int].reg);
    assert(distinct(b1)) by {
        assert forall|x: int, y: int| 0 <= x < y < b1.arrays.len() implies (#[trigger] b1.arrays[x]).reg != (#[trigger]
        b1.arrays[y]).reg by {
            if y < b.arrays.len() {
                assert(b.arrays[x].reg != b.arrays[y].reg);
            }
        }
    }
    assert(known(k, b)) by {
        assert forall|x: int| 0 <= x < b.arrays.len() implies (#[trigger] k.arrays[x]).reg == b.arrays[x].reg by {
            assert(b1.arrays[x].reg == b.arrays[x].reg);
        }
    }
    assert forall|q: Reg| #[trigger] b1.syms.contains_key(q) && !answers(p, pcs, q) implies agrees(
        k,
        l,
        at,
        b1.lanes,
        b1.broadcasts.len(),
        sc,
        ve,
        q,
        b1.syms[q],
    ) by {
        assert(agrees(k, l, at, b.lanes, b.broadcasts.len(), sc, ve, q, b.syms[q]));
    }
}

/// The plan with one operation more.
proof fn lemma_one_op(p: Program, fl: Floats, load: spec_fn(u64, u64) -> u64, k: Before, at: int, ops: Seq<VOp>, o: VOp)
    ensures
        plan_run(p, fl, load, k, at, ops.push(o), ops.push(o).len()) == vector_op(
            p,
            fl,
            load,
            k,
            at,
            plan_run(p, fl, load, k, at, ops, ops.len()),
            o,
        ),
{
    lemma_same_ops(p, fl, load, k, at, ops, ops.push(o), ops.len());
}

proof fn lemma_same_ops(
    p: Program,
    fl: Floats,
    load: spec_fn(u64, u64) -> u64,
    k: Before,
    at: int,
    a: Seq<VOp>,
    b: Seq<VOp>,
    n: nat,
)
    requires
        n <= a.len(),
        n <= b.len(),
        forall|i: int| 0 <= i < n ==> #[trigger] a[i] == b[i],
    ensures
        plan_run(p, fl, load, k, at, a, n) == plan_run(p, fl, load, k, at, b, n),
    decreases n,
{
    if n > 0 {
        lemma_same_ops(p, fl, load, k, at, a, b, (n - 1) as nat);
        assert(a[n - 1] == b[n - 1]);
    }
}

/// One register changes, and what is known of the others stays.
proof fn lemma_held(
    p: Program,
    pcs: Seq<usize>,
    k: Before,
    l: AroundV,
    at: int,
    b: BodyV,
    sc: Run,
    ve: Lane,
    b1: BodyV,
    sc1: Run,
    ve1: Lane,
    r: Reg,
)
    requires
        related(p, pcs, k, l, at, b, sc, ve),
        b1.syms.contains_key(r),
        !answers(p, pcs, r) ==> agrees(k, l, at, b1.lanes, b1.broadcasts.len(), sc1, ve1, r, b1.syms[r]),
        forall|q: Reg| q != r ==> #[trigger] b1.syms.contains_key(q) == b.syms.contains_key(q) && (b.syms.contains_key(q)
            ==> b1.syms[q] == b.syms[q]),
        forall|q: Reg| q != r ==> #[trigger] sc1.regs[q] == sc.regs[q],
        forall|q: Reg| q != r ==> #[trigger] ve1.run.regs[q] == ve.run.regs[q],
        forall|n: u8| n < b.lanes ==> #[trigger] ve1.vecs[n] == ve.vecs[n],
        b.lanes <= b1.lanes,
        b.broadcasts.len() <= b1.broadcasts.len(),
        sc1.stores == ve1.run.stores,
    ensures
        related(p, pcs, k, l, at, b1, sc1, ve1),
{
    assert forall|q: Reg| #[trigger] b1.syms.contains_key(q) && !answers(p, pcs, q) implies agrees(
        k,
        l,
        at,
        b1.lanes,
        b1.broadcasts.len(),
        sc1,
        ve1,
        q,
        b1.syms[q],
    ) by {
        if q != r {
            assert(b.syms.contains_key(q));
            assert(agrees(k, l, at, b.lanes, b.broadcasts.len(), sc, ve, q, b.syms[q]));
            assert(sc1.regs[q] == sc.regs[q]);
            assert(ve1.run.regs[q] == ve.run.regs[q]);
            if let Sym::Float(Lanes::V(n)) = b.syms[q] {
                assert(ve1.vecs[n] == ve.vecs[n]);
            }
        }
    }
    assert forall|q: Reg| !(#[trigger] b1.syms.contains_key(q)) implies sc1.regs[q] == (if q == l.j {
        wrap(k.start[q] + at)
    } else {
        k.start[q]
    }) && ve1.run.regs[q] == k.start[q] by {
        assert(q != r);
        assert(!b.syms.contains_key(q));
        assert(sc1.regs[q] == sc.regs[q]);
        assert(ve1.run.regs[q] == ve.run.regs[q]);
    }
}

/// What the plan so far has done, and the body's run, agree.
pub open spec fn in_step(
    p: Program,
    fl: Floats,
    load: spec_fn(u64, u64) -> u64,
    pcs: Seq<usize>,
    k: Before,
    l: AroundV,
    at: int,
    b: BodyV,
    sc: Run,
) -> bool {
    related(p, pcs, k, l, at, b, sc, plan_run(p, fl, load, k, at, b.ops, b.ops.len())) && distinct(b)
}

/// Integer arithmetic of a register and an immediate, and moves.
proof fn lemma_imm(
    p: Program,
    fl: Floats,
    load: spec_fn(u64, u64) -> u64,
    pcs: Seq<usize>,
    k: Before,
    l: AroundV,
    at: int,
    b: BodyV,
    sc: Run,
    i: Instr,
)
    requires
        in_step(p, fl, load, pcs, k, l, at, b, sc),
        0 <= at <= 1,
        i.op == Op::AddIK || i.op == Op::SubIK || i.op == Op::MulIK || i.op == Op::ShlIK,
        !answers(p, pcs, i.b),
        with_imm(b, l, i) is Ok,
    ensures
        in_step(p, fl, load, pcs, k, l, at, with_imm(b, l, i)->Ok_0, instr(p, fl, load, sc, i)),
{
    let ve = plan_run(p, fl, load, k, at, b.ops, b.ops.len());
    let b1 = with_imm(b, l, i)->Ok_0;
    let sc1 = instr(p, fl, load, sc, i);
    lemma_int_in(p, pcs, k, l, at, b, sc, ve, i.b);
    lemma_one_op(p, fl, load, k, at, b.ops, VOp::Scalar(i));
    let ve1 = vector_op(p, fl, load, k, at, ve, VOp::Scalar(i));
    let (x, y) = (sc.regs[i.b], ve.run.regs[i.b]);
    if let Some(Sym::Int { j, steady, expr }) = int_in(b, l, i.b) {
        let m = imm_of(i);
        assert(x == wrap(y + j * at));
        if i.op == Op::AddIK {
            lemma_wrap_plus(y + j * at, m);
            lemma_wrap_plus(y + m, j * at);
            assert(y + j * at + m == y + m + j * at);
        } else if i.op == Op::SubIK {
            lemma_wrap_plus(y + j * at, m);
            lemma_wrap_plus(y - m, j * at);
            assert(y + j * at - m == y - m + j * at);
        } else {
            assert(j == 0);
            assert(j * at == 0) by (nonlinear_arith)
                requires
                    j == 0,
            ;
            lemma_wrap_same(y);
            assert(x == y);
            lemma_wrap_same(sc1.regs[i.a]);
        }
        lemma_held(p, pcs, k, l, at, b, sc, ve, b1, sc1, ve1, i.a);
    }
}

proof fn lemma_times(j: i64, a: i64, c: i64, at: int, minus: bool)
    requires
        0 <= at <= 1,
        !minus ==> j == a.wrapping_add(c),
        minus ==> j == a.wrapping_sub(c),
    ensures
        exists|m: int|
            #![trigger m * 0x1_0000_0000_0000_0000int]
            j * at == (if minus {
                a * at - c * at
            } else {
                a * at + c * at
            }) + m * 0x1_0000_0000_0000_0000int,
{
    let big = 0x1_0000_0000_0000_0000int;
    let s = if minus {
        a - c
    } else {
        a + c
    };
    let m: int = if at == 0 {
        0
    } else if s > i64::MAX {
        -1
    } else if s < i64::MIN {
        1
    } else {
        0
    };
    assert(at == 0 || at == 1);
    assert(j * at == (if minus {
        a * at - c * at
    } else {
        a * at + c * at
    }) + m * big) by {
        if at == 0 {
            assert(j * at == 0 && a * at == 0 && c * at == 0) by (nonlinear_arith)
                requires
                    at == 0,
            ;
        } else {
            assert(j * at == j && a * at == a && c * at == c) by (nonlinear_arith)
                requires
                    at == 1,
            ;
        }
    }
}

#[verifier::spinoff_prover]
proof fn lemma_two(
    p: Program,
    fl: Floats,
    load: spec_fn(u64, u64) -> u64,
    pcs: Seq<usize>,
    k: Before,
    l: AroundV,
    at: int,
    b: BodyV,
    sc: Run,
    i: Instr,
)
    requires
        in_step(p, fl, load, pcs, k, l, at, b, sc),
        0 <= at <= 1,
        i.op == Op::AddI || i.op == Op::SubI || i.op == Op::MulI,
        !answers(p, pcs, i.b),
        !answers(p, pcs, i.c),
        with_two(b, l, i) is Ok,
    ensures
        in_step(p, fl, load, pcs, k, l, at, with_two(b, l, i)->Ok_0, instr(p, fl, load, sc, i)),
{
    let big = 0x1_0000_0000_0000_0000int;
    let ve = plan_run(p, fl, load, k, at, b.ops, b.ops.len());
    let b1 = with_two(b, l, i)->Ok_0;
    let sc1 = instr(p, fl, load, sc, i);
    lemma_int_in(p, pcs, k, l, at, b, sc, ve, i.b);
    lemma_int_in(p, pcs, k, l, at, b, sc, ve, i.c);
    lemma_one_op(p, fl, load, k, at, b.ops, VOp::Scalar(i));
    let ve1 = vector_op(p, fl, load, k, at, ve, VOp::Scalar(i));
    let (xb, yb) = (sc.regs[i.b], ve.run.regs[i.b]);
    let (xc, yc) = (sc.regs[i.c], ve.run.regs[i.c]);
    if let Some(Sym::Int { j: jb, steady: ib, expr: eb }) = int_in(b, l, i.b) {
        if let Some(Sym::Int { j: jc, steady: ic, expr: ec }) = int_in(b, l, i.c) {
            let nb = lemma_wrapped(yb + jb * at);
            let nc = lemma_wrapped(yc + jc * at);
            if i.op == Op::AddI {
                let j = jb.wrapping_add(jc);
                lemma_times(j, jb, jc, at, false);
                let m = choose|m: int|
                    #![trigger m * 0x1_0000_0000_0000_0000int]
                    j * at == jb * at + jc * at + m * 0x1_0000_0000_0000_0000int;
                let nv = lemma_wrapped(yb + yc);
                assert(xb + xc == wrap(yb + yc) + j * at + (nb + nc - nv - m) * big);
                lemma_wrap(xb + xc, wrap(yb + yc) + j * at, nb + nc - nv - m);
            } else if i.op == Op::SubI {
                let j = jb.wrapping_sub(jc);
                lemma_times(j, jb, jc, at, true);
                let m = choose|m: int|
                    #![trigger m * 0x1_0000_0000_0000_0000int]
                    j * at == jb * at - jc * at + m * 0x1_0000_0000_0000_0000int;
                let nv = lemma_wrapped(yb - yc);
                assert(xb - xc == wrap(yb - yc) + j * at + (nb - nc - nv - m) * big);
                lemma_wrap(xb - xc, wrap(yb - yc) + j * at, nb - nc - nv - m);
            } else {
                assert(jb * at == 0 && jc * at == 0) by (nonlinear_arith)
                    requires
                        jb == 0,
                        jc == 0,
                ;
                lemma_wrap_same(yb);
                lemma_wrap_same(yc);
                assert(xb == yb && xc == yc);
                lemma_wrap_same(sc1.regs[i.a]);
                assert(0 * at == 0);
            }
            lemma_held(p, pcs, k, l, at, b, sc, ve, b1, sc1, ve1, i.a);
        }
    }
}

proof fn lemma_moved(
    p: Program,
    fl: Floats,
    load: spec_fn(u64, u64) -> u64,
    pcs: Seq<usize>,
    k: Before,
    l: AroundV,
    at: int,
    b: BodyV,
    sc: Run,
    i: Instr,
)
    requires
        in_step(p, fl, load, pcs, k, l, at, b, sc),
        0 <= at <= 1,
        i.op == Op::Move,
        !answers(p, pcs, i.b),
        moved(b, l, i) is Ok,
    ensures
        in_step(p, fl, load, pcs, k, l, at, moved(b, l, i)->Ok_0, instr(p, fl, load, sc, i)),
{
    let ve = plan_run(p, fl, load, k, at, b.ops, b.ops.len());
    let b1 = moved(b, l, i)->Ok_0;
    let sc1 = instr(p, fl, load, sc, i);
    lemma_int_in(p, pcs, k, l, at, b, sc, ve, i.b);
    lemma_one_op(p, fl, load, k, at, b.ops, VOp::Scalar(i));
    let ve1 = plan_run(p, fl, load, k, at, b1.ops, b1.ops.len());
    lemma_held(p, pcs, k, l, at, b, sc, ve, b1, sc1, ve1, i.a);
}

#[verifier::spinoff_prover]
proof fn lemma_floats(
    p: Program,
    fl: Floats,
    load: spec_fn(u64, u64) -> u64,
    pcs: Seq<usize>,
    k: Before,
    l: AroundV,
    at: int,
    b: BodyV,
    sc: Run,
    i: Instr,
)
    requires
        in_step(p, fl, load, pcs, k, l, at, b, sc),
        i.op == Op::AddF || i.op == Op::SubF || i.op == Op::MulF || i.op == Op::DivF,
        !answers(p, pcs, i.b),
        !answers(p, pcs, i.c),
        with_floats(b, l, i) is Ok,
        known(k, with_floats(b, l, i)->Ok_0),
    ensures
        in_step(p, fl, load, pcs, k, l, at, with_floats(b, l, i)->Ok_0, instr(p, fl, load, sc, i)),
        known(k, b),
{
    let ve = plan_run(p, fl, load, k, at, b.ops, b.ops.len());
    let b3 = with_floats(b, l, i)->Ok_0;
    let (b1, x) = float_in(b, l, i.b)->0;
    let (b2, y) = float_in(b1, l, i.c)->0;
    assert(known(k, b2));
    assert(known(k, b1)) by {
        assert forall|n: int| 0 <= n < b1.broadcasts.len() implies #[trigger] k.broadcasts[n] == b1.broadcasts[n] by {
            assert(b2.broadcasts[n] == b1.broadcasts[n]);
        }
    }
    lemma_float_in(p, pcs, k, l, at, b, sc, ve, i.b);
    lemma_float_in(p, pcs, k, l, at, b1, sc, ve, i.c);
    let sc1 = instr(p, fl, load, sc, i);
    let op = match i.op {
        Op::MulF => FloatOp::Mul,
        Op::AddF => FloatOp::Add,
        Op::SubF => FloatOp::Sub,
        _ => FloatOp::Div,
    };
    let o = VOp::Float { op, lane: b2.lanes, a: x, b: y };
    lemma_one_op(p, fl, load, k, at, b2.ops, o);
    let ve1 = vector_op(p, fl, load, k, at, ve, o);
    assert(ve1.vecs[b2.lanes] == sc1.regs[i.a]);
    lemma_held(p, pcs, k, l, at, b2, sc, ve, b3, sc1, ve1, i.a);
}

#[verifier::spinoff_prover]
proof fn lemma_load(
    p: Program,
    fl: Floats,
    load: spec_fn(u64, u64) -> u64,
    pcs: Seq<usize>,
    k: Before,
    l: AroundV,
    at: int,
    b: BodyV,
    sc: Run,
    i: Instr,
    kind: u8,
)
    requires
        in_step(p, fl, load, pcs, k, l, at, b, sc),
        0 <= at <= 1,
        i.op == Op::Prim2,
        !answers(p, pcs, i.b),
        !answers(p, pcs, i.c),
        loaded(b, l, i, kind) is Ok,
        known(k, loaded(b, l, i, kind)->Ok_0),
    ensures
        in_step(p, fl, load, pcs, k, l, at, loaded(b, l, i, kind)->Ok_0, instr(p, fl, load, sc, i)),
        known(k, b),
{
    let ve = plan_run(p, fl, load, k, at, b.ops, b.ops.len());
    let b3 = loaded(b, l, i, kind)->Ok_0;
    let (b1, array) = array_in(b, l, i.b, kind, false)->0;
    assert(known(k, b1));
    lemma_array_in(p, pcs, k, l, at, b, sc, ve, i.b, kind, false);
    lemma_int_in(p, pcs, k, l, at, b1, sc, ve, i.c);
    let o = VOp::Load { lane: b1.lanes, array, idx: i.c };
    lemma_one_op(p, fl, load, k, at, b1.ops, o);
    let ve1 = vector_op(p, fl, load, k, at, ve, o);
    let sc1 = instr(p, fl, load, sc, i);
    assert(sc.regs[i.c] == wrap(ve.run.regs[i.c] + 1 * at));
    assert(ve1.vecs[b1.lanes] == sc1.regs[i.a]);
    lemma_held(p, pcs, k, l, at, b1, sc, ve, b3, sc1, ve1, i.a);
}

#[verifier::spinoff_prover]
proof fn lemma_store(
    p: Program,
    fl: Floats,
    load: spec_fn(u64, u64) -> u64,
    pcs: Seq<usize>,
    k: Before,
    l: AroundV,
    at: int,
    b: BodyV,
    sc: Run,
    i: Instr,
)
    requires
        in_step(p, fl, load, pcs, k, l, at, b, sc),
        0 <= at <= 1,
        i.op == Op::Prim,
        !answers(p, pcs, i.b),
        !answers(p, pcs, i.b.wrapping_add(1)),
        !answers(p, pcs, i.b.wrapping_add(2)),
        answers(p, pcs, i.a),
        with_store(p, b, l, i) is Ok,
        known(k, with_store(p, b, l, i)->Ok_0),
    ensures
        in_step(p, fl, load, pcs, k, l, at, with_store(p, b, l, i)->Ok_0, instr(p, fl, load, sc, i)),
        known(k, b),
{
    let ve = plan_run(p, fl, load, k, at, b.ops, b.ops.len());
    let kind = crate::glade::object::Kind::MutArray.byte();
    let b4 = with_store(p, b, l, i)->Ok_0;
    let (b1, array) = array_in(b, l, i.b, kind, true)->0;
    let idx: u8 = i.b.wrapping_add(1);
    let last: u8 = i.b.wrapping_add(2);
    let (b2, val) = float_in(b1, l, last)->0;
    assert(known(k, b2));
    assert(known(k, b1)) by {
        assert forall|n: int| 0 <= n < b1.broadcasts.len() implies #[trigger] k.broadcasts[n] == b1.broadcasts[n] by {
            assert(b2.broadcasts[n] == b1.broadcasts[n]);
        }
        assert forall|n: int| 0 <= n < b1.arrays.len() implies (#[trigger] k.arrays[n]).reg == b1.arrays[n].reg by {
            assert(b2.arrays[n].reg == b1.arrays[n].reg);
        }
    }
    lemma_array_in(p, pcs, k, l, at, b, sc, ve, i.b, kind, true);
    lemma_int_in(p, pcs, k, l, at, b1, sc, ve, idx);
    lemma_float_in(p, pcs, k, l, at, b1, sc, ve, last);
    let o = VOp::Store { array, idx, val };
    lemma_one_op(p, fl, load, k, at, b2.ops, o);
    let ve1 = vector_op(p, fl, load, k, at, ve, o);
    let sc1 = instr(p, fl, load, sc, i);
    assert(sc.regs[idx] == wrap(ve.run.regs[idx] + 1 * at));
    assert(sc1.stores == ve1.run.stores);
    lemma_held(p, pcs, k, l, at, b2, sc, ve, b4, sc1, ve1, i.a);
}

proof fn lemma_const(
    p: Program,
    fl: Floats,
    load: spec_fn(u64, u64) -> u64,
    pcs: Seq<usize>,
    k: Before,
    l: AroundV,
    at: int,
    b: BodyV,
    sc: Run,
    i: Instr,
)
    requires
        in_step(p, fl, load, pcs, k, l, at, b, sc),
        0 <= at <= 1,
        i.op == Op::Const,
        read_one(p, b, l, i) is Ok,
    ensures
        in_step(p, fl, load, pcs, k, l, at, read_one(p, b, l, i)->Ok_0, instr(p, fl, load, sc, i)),
{
    let ve = plan_run(p, fl, load, k, at, b.ops, b.ops.len());
    let w = word_of(p, i.imm)->0;
    let b1 = read_one(p, b, l, i)->Ok_0;
    let o = VOp::Const(i.a, w);
    lemma_one_op(p, fl, load, k, at, b.ops, o);
    let ve1 = vector_op(p, fl, load, k, at, ve, o);
    let sc1 = instr(p, fl, load, sc, i);
    lemma_wrap_same(w);
    assert(0 * at == 0);
    lemma_held(p, pcs, k, l, at, b, sc, ve, b1, sc1, ve1, i.a);
}

/// What is known only grows.
proof fn lemma_known(p: Program, k: Before, l: AroundV, b: BodyV, i: Instr)
    requires
        read_one(p, b, l, i) is Ok,
        known(k, read_one(p, b, l, i)->Ok_0),
    ensures
        known(k, b),
{
    let b1 = read_one(p, b, l, i)->Ok_0;
    assert(b.arrays.len() <= b1.arrays.len());
    assert forall|n: int| 0 <= n < b.arrays.len() implies (#[trigger] k.arrays[n]).reg == b.arrays[n].reg by {
        assert(b1.arrays[n].reg == b.arrays[n].reg);
    }
    assert(b.broadcasts.len() <= b1.broadcasts.len());
    assert forall|n: int| 0 <= n < b.broadcasts.len() implies #[trigger] k.broadcasts[n] == b.broadcasts[n] by {
        assert(b1.broadcasts[n] == b.broadcasts[n]);
    }
}

proof fn lemma_read_one(
    p: Program,
    fl: Floats,
    load: spec_fn(u64, u64) -> u64,
    pcs: Seq<usize>,
    k: Before,
    l: AroundV,
    at: int,
    b: BodyV,
    sc: Run,
    n: int,
)
    requires
        in_step(p, fl, load, pcs, k, l, at, b, sc),
        0 <= at <= 1,
        0 <= n < pcs.len(),
        answers_unread(p, pcs),
        read_one(p, b, l, p.code@[pcs[n] as int]) is Ok,
        known(k, read_one(p, b, l, p.code@[pcs[n] as int])->Ok_0),
    ensures
        in_step(
            p,
            fl,
            load,
            pcs,
            k,
            l,
            at,
            read_one(p, b, l, p.code@[pcs[n] as int])->Ok_0,
            instr(p, fl, load, sc, p.code@[pcs[n] as int]),
        ),
        known(k, b),
{
    let i = p.code@[pcs[n] as int];
    assert forall|r: Reg| #[trigger] reads(i, r) implies !answers(p, pcs, r) by {
        if answers(p, pcs, r) {
            let m = choose|m: int|
                0 <= m < pcs.len() && p.code@[#[trigger] pcs[m] as int].op == Op::Prim && p.code@[pcs[m] as int].a == r;
            assert(!reads(p.code@[pcs[n] as int], p.code@[pcs[m] as int].a));
        }
    }
    lemma_known(p, k, l, b, i);
    match i.op {
        Op::Move => {
            assert(reads(i, i.b));
            lemma_moved(p, fl, load, pcs, k, l, at, b, sc, i);
        },
        Op::Const => {
            lemma_const(p, fl, load, pcs, k, l, at, b, sc, i);
        },
        Op::AddIK | Op::SubIK | Op::ShlIK | Op::MulIK => {
            assert(reads(i, i.b));
            lemma_imm(p, fl, load, pcs, k, l, at, b, sc, i);
        },
        Op::AddI | Op::SubI | Op::MulI => {
            assert(reads(i, i.b) && reads(i, i.c));
            lemma_two(p, fl, load, pcs, k, l, at, b, sc, i);
        },
        Op::MulF | Op::AddF | Op::SubF | Op::DivF => {
            assert(reads(i, i.b) && reads(i, i.c));
            lemma_floats(p, fl, load, pcs, k, l, at, b, sc, i);
        },
        Op::Prim2 => {
            assert(reads(i, i.b) && reads(i, i.c));
            let kind = if prim_of(p, i.imm) == Some(Prim::StGetArray) {
                crate::glade::object::Kind::MutArray.byte()
            } else {
                crate::glade::object::Kind::Array.byte()
            };
            lemma_load(p, fl, load, pcs, k, l, at, b, sc, i, kind);
        },
        Op::Prim => {
            assert(reads(i, i.b) && reads(i, i.b.wrapping_add(1)) && reads(i, i.b.wrapping_add(2)));
            assert(answers(p, pcs, i.a)) by {
                assert(p.code@[pcs[n] as int].op == Op::Prim);
            }
            lemma_store(p, fl, load, pcs, k, l, at, b, sc, i);
        },
        _ => {},
    }
}

proof fn lemma_read_all(
    p: Program,
    fl: Floats,
    load: spec_fn(u64, u64) -> u64,
    pcs: Seq<usize>,
    k: Before,
    l: AroundV,
    at: int,
    n: nat,
)
    requires
        0 <= at <= 1,
        n <= pcs.len(),
        answers_unread(p, pcs),
        read_all(p, l, pcs, n) is Ok,
        known(k, read_all(p, l, pcs, n)->Ok_0),
    ensures
        in_step(
            p,
            fl,
            load,
            pcs,
            k,
            l,
            at,
            read_all(p, l, pcs, n)->Ok_0,
            body_run(p, fl, load, k.start.insert(l.j, wrap(k.start[l.j] + at)), pcs, n),
        ),
    decreases n,
{
    let start = k.start.insert(l.j, wrap(k.start[l.j] + at));
    if n == 0 {
        let b = BodyV::empty();
        assert(plan_run(p, fl, load, k, at, b.ops, b.ops.len()) == (Lane {
            run: Run { regs: k.start, stores: Seq::empty() },
            vecs: Map::empty(),
        }));
    } else {
        let b = read_all(p, l, pcs, (n - 1) as nat)->Ok_0;
        let i = p.code@[pcs[n - 1] as int];
        lemma_known(p, k, l, b, i);
        lemma_read_all(p, fl, load, pcs, k, l, at, (n - 1) as nat);
        let sc = body_run(p, fl, load, start, pcs, (n - 1) as nat);
        lemma_read_one(p, fl, load, pcs, k, l, at, b, sc, n - 1);
    }
}

/// A plan computes what the loop does. Wherever the loop is, in either lane, the plan's
/// operations write the floats that the loop's own instructions write, to the same elements
/// of the same arrays in the same order: those of the first lane where the loop is, and those
/// of the second one iteration on. Each float instruction is its own operation of its two
/// operands in order, whatever float arithmetic is.
pub proof fn a_plan_writes_what_the_loop_does(
    p: Program,
    pcs: Seq<usize>,
    fixed: usize,
    fl: Floats,
    load: spec_fn(u64, u64) -> u64,
    start: Map<Reg, u64>,
    lane: int,
)
    requires
        planned(p, pcs, fixed) is Ok,
        lane == 0 || lane == 1,
        answers_unread(p, body_of(planned(p, pcs, fixed)->Ok_0.0, pcs)),
    ensures
        ({
            let (shape, b, _) = planned(p, pcs, fixed)->Ok_0;
            let body = body_of(shape, pcs);
            let before = Before { arrays: b.arrays, broadcasts: b.broadcasts, start };
            let there = start.insert(shape.j, wrap(start[shape.j] + lane));
            plan_run(p, fl, load, before, lane, b.ops, b.ops.len()).run.stores == body_run(
                p,
                fl,
                load,
                there,
                body,
                body.len(),
            ).stores
        }),
{
    let (shape, b, d) = planned(p, pcs, fixed)->Ok_0;
    let body = body_of(shape, pcs);
    let l = around(p, pcs, shape);
    let k = Before { arrays: b.arrays, broadcasts: b.broadcasts, start };
    assert(read_all(p, l, body, body.len()) == Ok::<BodyV, super::vector::Refusal>(b));
    lemma_read_all(p, fl, load, body, k, l, lane, body.len());
}

} // verus!
