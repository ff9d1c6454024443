//! Every plan can be emitted.

use super::a64::FIXED;
use super::code::{Instr, Op, Program, Reg};
use super::loops::{lane_ok, op_ok, plan_ok, scalar};
use super::vector::{
    all_apart, apart, array_in, around, body_of, float_in, made_of, planned, read_all, read_one, Access, AroundV,
    BodyV, Expr, Plan, Sym, VOp,
};
use crate::glade::object::Kind;
use crate::terms::prim::Prim;
use std::rc::Rc;
use vstd::prelude::*;

verus! {

/// An instruction names what the body has found.
pub open spec fn op_in(o: VOp, b: BodyV) -> bool {
    match o {
        VOp::Scalar(i) => scalar(i.op),
        VOp::Const(_, _) => true,
        VOp::Load { array, idx, .. } => array < b.arrays.len() && b.accesses.contains(Access { idx, array }),
        VOp::Store { array, idx, val } => array < b.arrays.len() && b.accesses.contains(Access { idx, array })
            && lane_ok(val, b.broadcasts.len()),
        VOp::Float { a, b: c, .. } => lane_ok(a, b.broadcasts.len()) && lane_ok(c, b.broadcasts.len()),
    }
}

/// Everything in the body names what it has found.
pub open spec fn sound(b: BodyV) -> bool {
    &&& forall|k: int| 0 <= k < b.ops.len() ==> op_in(#[trigger] b.ops[k], b)
    &&& forall|k: int| 0 <= k < b.loads.len() ==> (#[trigger] b.loads[k]).0 < b.arrays.len()
    &&& forall|k: int| 0 <= k < b.stores.len() ==> (#[trigger] b.stores[k]).0 < b.arrays.len()
    &&& forall|r: Reg| #[trigger] b.syms.contains_key(r) ==> match b.syms[r] {
        Sym::Float(l) => lane_ok(l, b.broadcasts.len()),
        Sym::Int { .. } => true,
    }
}

/// `c` is `b` with more found in it.
pub open spec fn grown(b: BodyV, c: BodyV) -> bool {
    &&& c.syms == b.syms
    &&& c.ops == b.ops
    &&& c.loads == b.loads
    &&& c.stores == b.stores
    &&& c.accesses == b.accesses
    &&& c.arrays.len() >= b.arrays.len()
    &&& c.broadcasts.len() >= b.broadcasts.len()
}

proof fn lemma_grown(b: BodyV, c: BodyV)
    requires
        sound(b),
        grown(b, c),
    ensures
        sound(c),
{
    assert forall|k: int| 0 <= k < c.ops.len() implies op_in(#[trigger] c.ops[k], c) by {
        assert(op_in(b.ops[k], b));
    }
    assert forall|r: Reg| #[trigger] c.syms.contains_key(r) implies match c.syms[r] {
        Sym::Float(l) => lane_ok(l, c.broadcasts.len()),
        Sym::Int { .. } => true,
    } by {
        assert(b.syms.contains_key(r));
    }
}

proof fn lemma_reg_at(rs: Seq<Reg>, r: Reg, i: nat)
    requires
        i <= rs.len(),
    ensures
        super::vector::reg_at(rs, r, i) <= rs.len(),
    decreases rs.len() - i,
{
    if i < rs.len() {
        lemma_reg_at(rs, r, i + 1);
    }
}

proof fn lemma_float_in(b: BodyV, l: AroundV, r: Reg)
    requires
        sound(b),
    ensures
        match float_in(b, l, r) {
            Some((c, x)) => sound(c) && grown(b, c) && lane_ok(x, c.broadcasts.len()),
            None => true,
        },
{
    lemma_reg_at(b.broadcasts, r, 0);
    if let Some((c, x)) = float_in(b, l, r) {
        lemma_grown(b, c);
    }
}

proof fn lemma_array_at(xs: Seq<super::vector::Array>, r: Reg, i: nat)
    requires
        i <= xs.len(),
    ensures
        super::vector::array_at(xs, r, i) <= xs.len(),
    decreases xs.len() - i,
{
    if i < xs.len() {
        lemma_array_at(xs, r, i + 1);
    }
}

proof fn lemma_array_in(b: BodyV, l: AroundV, r: Reg, kind: u8, stored: bool)
    requires
        sound(b),
        b.arrays.len() < usize::MAX,
    ensures
        match array_in(b, l, r, kind, stored) {
            Some((c, n)) => sound(c) && grown(b, c) && n < c.arrays.len() && c.arrays.len() <= b.arrays.len() + 1,
            None => true,
        },
{
    if let Some(r1) = super::vector::array_reg(b, l, r) {
        lemma_array_at(b.arrays, r1, 0);
    }
    if let Some((c, n)) = array_in(b, l, r, kind, stored) {
        lemma_grown(b, c);
    }
}

/// One instruction more, and one access, load or store more.
proof fn lemma_pushed(b: BodyV, c: BodyV, o: VOp, a: Option<Access>)
    requires
        sound(b),
        c.ops == b.ops.push(o),
        c.arrays == b.arrays,
        c.broadcasts == b.broadcasts,
        match a {
            Some(x) => c.accesses == b.accesses.push(x),
            None => c.accesses == b.accesses,
        },
        op_in(o, c),
        forall|k: int| 0 <= k < c.loads.len() ==> (#[trigger] c.loads[k]).0 < c.arrays.len(),
        forall|k: int| 0 <= k < c.stores.len() ==> (#[trigger] c.stores[k]).0 < c.arrays.len(),
        forall|r: Reg| #[trigger] c.syms.contains_key(r) ==> match c.syms[r] {
            Sym::Float(l) => lane_ok(l, c.broadcasts.len()),
            Sym::Int { .. } => true,
        },
    ensures
        sound(c),
{
    assert forall|x: Access| b.accesses.contains(x) implies #[trigger] c.accesses.contains(x) by {
        let k = choose|k: int| 0 <= k < b.accesses.len() && b.accesses[k] == x;
        assert(c.accesses[k] == x);
    }
    assert forall|k: int| 0 <= k < c.ops.len() implies op_in(#[trigger] c.ops[k], c) by {
        if k < b.ops.len() {
            assert(op_in(b.ops[k], b));
        }
    }
}

proof fn lemma_load(b: BodyV, l: AroundV, i: Instr, kind: u8)
    requires
        sound(b),
        b.arrays.len() < usize::MAX,
    ensures
        match super::vector::loaded(b, l, i, kind) {
            Ok(c) => sound(c) && c.arrays.len() <= b.arrays.len() + 1,
            Err(_) => true,
        },
{
    lemma_array_in(b, l, i.b, kind, false);
    if let Ok(c) = super::vector::loaded(b, l, i, kind) {
        let (b1, array) = array_in(b, l, i.b, kind, false)->0;
        let x = Access { idx: i.c, array };
        assert(c.accesses.last() == x);
        assert(c.accesses.contains(x));
        lemma_pushed(b1, c, VOp::Load { lane: b1.lanes, array, idx: i.c }, Some(x));
    }
}

proof fn lemma_store(p: Program, b: BodyV, l: AroundV, i: Instr)
    requires
        sound(b),
        b.arrays.len() < usize::MAX,
    ensures
        match super::vector::with_store(p, b, l, i) {
            Ok(c) => sound(c) && c.arrays.len() <= b.arrays.len() + 1,
            Err(_) => true,
        },
{
    lemma_array_in(b, l, i.b, Kind::MutArray.byte(), true);
    if let Ok(c) = super::vector::with_store(p, b, l, i) {
        let (b1, array) = array_in(b, l, i.b, Kind::MutArray.byte(), true)->0;
        let idx: u8 = i.b.wrapping_add(1);
        lemma_float_in(b1, l, i.b.wrapping_add(2));
        let (b2, v) = float_in(b1, l, i.b.wrapping_add(2))->0;
        let x = Access { idx, array };
        assert(c.accesses.last() == x);
        assert(c.accesses.contains(x));
        lemma_pushed(b2, c, VOp::Store { array, idx, val: v }, Some(x));
    }
}

proof fn lemma_floats(b: BodyV, l: AroundV, i: Instr)
    requires
        sound(b),
    ensures
        match super::vector::with_floats(b, l, i) {
            Ok(c) => sound(c) && c.arrays.len() == b.arrays.len(),
            Err(_) => true,
        },
{
    lemma_float_in(b, l, i.b);
    if let Ok(c) = super::vector::with_floats(b, l, i) {
        let (b1, x) = float_in(b, l, i.b)->0;
        lemma_float_in(b1, l, i.c);
        let (b2, y) = float_in(b1, l, i.c)->0;
        lemma_pushed(b2, c, c.ops.last(), None);
    }
}

proof fn lemma_one(p: Program, b: BodyV, l: AroundV, i: Instr)
    requires
        sound(b),
        b.arrays.len() < usize::MAX,
    ensures
        match read_one(p, b, l, i) {
            Ok(c) => sound(c) && c.arrays.len() <= b.arrays.len() + 1,
            Err(_) => true,
        },
{
    match i.op {
        Op::Prim2 => {
            lemma_load(b, l, i, Kind::MutArray.byte());
            lemma_load(b, l, i, Kind::Array.byte());
        },
        Op::Prim => {
            lemma_store(p, b, l, i);
        },
        Op::MulF | Op::AddF | Op::SubF | Op::DivF => {
            lemma_floats(b, l, i);
        },
        _ => {
            if let Ok(c) = read_one(p, b, l, i) {
                if c.ops.len() > b.ops.len() {
                    lemma_pushed(b, c, c.ops.last(), None);
                } else {
                    assert forall|k: int| 0 <= k < c.ops.len() implies op_in(#[trigger] c.ops[k], c) by {
                        assert(op_in(b.ops[k], b));
                    }
                }
            }
        },
    }
}

proof fn lemma_all(p: Program, l: AroundV, pcs: Seq<usize>, n: nat)
    requires
        pcs.len() < usize::MAX,
    ensures
        match read_all(p, l, pcs, n) {
            Ok(b) => sound(b) && b.arrays.len() <= n,
            Err(_) => true,
        },
    decreases n,
{
    if n > 0 && n <= pcs.len() {
        lemma_all(p, l, pcs, (n - 1) as nat);
        if let Ok(b) = read_all(p, l, pcs, (n - 1) as nat) {
            lemma_one(p, b, l, p.code@[pcs[n - 1] as int]);
        }
    }
}

proof fn lemma_apart_in(from: Seq<(usize, usize)>, s: (usize, Rc<Expr>), loads: Seq<(usize, Rc<Expr>)>, n: nat, m: nat)
    requires
        n <= loads.len(),
        s.0 < m,
        forall|k: int| 0 <= k < loads.len() ==> (#[trigger] loads[k]).0 < m,
        forall|k: int| 0 <= k < from.len() ==> (#[trigger] from[k]).0 < m && from[k].1 < m,
    ensures
        match apart(from, s, loads, n) {
            Ok(d) => forall|k: int| 0 <= k < d.len() ==> (#[trigger] d[k]).0 < m && d[k].1 < m,
            Err(_) => true,
        },
    decreases n,
{
    if n > 0 {
        lemma_apart_in(from, s, loads, (n - 1) as nat, m);
    }
}

proof fn lemma_all_apart_in(stores: Seq<(usize, Rc<Expr>)>, loads: Seq<(usize, Rc<Expr>)>, n: nat, m: nat)
    requires
        n <= stores.len(),
        forall|k: int| 0 <= k < loads.len() ==> (#[trigger] loads[k]).0 < m,
        forall|k: int| 0 <= k < stores.len() ==> (#[trigger] stores[k]).0 < m,
    ensures
        match all_apart(stores, loads, n) {
            Ok(d) => forall|k: int| 0 <= k < d.len() ==> (#[trigger] d[k]).0 < m && d[k].1 < m,
            Err(_) => true,
        },
    decreases n,
{
    if n > 0 {
        lemma_all_apart_in(stores, loads, (n - 1) as nat, m);
        if let Ok(d) = all_apart(stores, loads, (n - 1) as nat) {
            lemma_apart_in(d, stores[n - 1], loads, loads.len(), m);
        }
    }
}

/// Whatever loop is planned for the fixed registers can be emitted: every register, array and
/// broadcast that its plan names is there.
pub proof fn a_plan_can_be_emitted(p: Program, pcs: Seq<usize>, fixed: usize, plan: Plan)
    requires
        fixed <= FIXED,
        pcs.len() <= u32::MAX / 2,
        match planned(p, pcs, fixed) {
            Ok((s, b, d)) => made_of(plan, s, b, d, pcs.len()),
            Err(_) => false,
        },
    ensures
        plan_ok(plan),
{
    let (s, b, d) = planned(p, pcs, fixed)->Ok_0;
    let body = body_of(s, pcs);
    assert(pcs.len() >= 3 && s.start <= pcs.len() - 2);
    assert(body.len() <= pcs.len());
    lemma_all(p, around(p, pcs, s), body, body.len());
    lemma_all_apart_in(b.stores, b.loads, b.stores.len(), b.arrays.len());
    assert forall|k: int| 0 <= k < plan.ops@.len() implies op_ok(
        #[trigger] plan.ops@[k],
        plan.arrays@.len(),
        plan.broadcasts@.len(),
    ) by {
        assert(op_in(b.ops[k], b));
        match b.ops[k] {
            VOp::Load { array, idx, .. } => {
                let n = choose|n: int| 0 <= n < b.accesses.len() && b.accesses[n] == Access { idx, array };
                assert(b.accesses[n].idx < fixed);
            },
            VOp::Store { array, idx, .. } => {
                let n = choose|n: int| 0 <= n < b.accesses.len() && b.accesses[n] == Access { idx, array };
                assert(b.accesses[n].idx < fixed);
            },
            _ => {},
        }
    }
}

} // verus!
