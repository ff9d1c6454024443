//! The vector loop: a plan as AArch64 instructions.

use super::a64::{
    home, home_of, Asm, Fixup, IntOp, Label, Layout, Loc, A, EQ, FIXED, GE, GT, HS, NE, X10, X12, X13, X14, X15,
    X17, X22, X9,
};
use super::code::{FloatOp, Instr, Op, Operand, Reg};
use super::vector::{Array, Lanes, Plan, VOp, ELEMENT};
use vstd::prelude::*;

verus! {

/// How many of the first `n` pins are float registers.
pub open spec fn homes(pins: Seq<(Reg, Loc)>, n: nat) -> nat
    decreases n,
{
    if n == 0 || n > pins.len() {
        0
    } else {
        homes(pins, (n - 1) as nat) + (if pins[n - 1].1 is D {
            1nat
        } else {
            0nat
        })
    }
}

/// The vector registers of a loop: above the function's float homes, two per array (where
/// it is, how long it is) and one per broadcast.
pub struct Regs {
    pub first: u32,
    pub arrays: u32,
}

/// Where an array is.
pub open spec fn base(g: Regs, k: int) -> u32 {
    (g.first + 2 * k) as u32
}

/// How long an array is.
pub open spec fn len(g: Regs, k: int) -> u32 {
    (g.first + 2 * k + 1) as u32
}

/// A broadcast.
pub open spec fn cast(g: Regs, k: int) -> u32 {
    (g.first + 2 * g.arrays + k) as u32
}

/// The vector register of a value in the body.
pub open spec fn lane(g: Regs, l: Lanes) -> u32 {
    match l {
        Lanes::V(n) => n as u32,
        Lanes::B(n) => cast(g, n as int),
    }
}

/// Integer arithmetic that a plan's body may hold.
pub open spec fn scalar(op: Op) -> bool {
    match op {
        Op::Move | Op::AddIK | Op::SubIK | Op::ShlIK | Op::MulIK | Op::AddI | Op::SubI | Op::MulI => true,
        _ => false,
    }
}

/// A value in the body is one there is.
pub open spec fn lane_ok(l: Lanes, casts: nat) -> bool {
    match l {
        Lanes::V(_) => true,
        Lanes::B(n) => n < casts,
    }
}

/// An instruction of the body names arrays, registers and broadcasts that there are.
pub open spec fn op_ok(o: VOp, arrays: nat, casts: nat) -> bool {
    match o {
        VOp::Scalar(i) => scalar(i.op),
        VOp::Const(_, _) => true,
        VOp::Load { array, idx, .. } => array < arrays && idx < FIXED,
        VOp::Store { array, idx, val } => array < arrays && idx < FIXED && lane_ok(val, casts),
        VOp::Float { a, b, .. } => lane_ok(a, casts) && lane_ok(b, casts),
    }
}

/// A plan that can be emitted.
pub open spec fn plan_ok(p: Plan) -> bool {
    &&& p.j < FIXED
    &&& match p.hi {
        Operand::Reg(h) => h < FIXED,
        Operand::Imm(k) => k > i64::MIN,
    }
    &&& p.steps <= u32::MAX / 2
    &&& forall|k: int| 0 <= k < p.ops@.len() ==> op_ok(#[trigger] p.ops@[k], p.arrays@.len(), p.broadcasts@.len())
    &&& forall|k: int|
        0 <= k < p.distinct@.len() ==> (#[trigger] p.distinct@[k]).0 < p.arrays@.len() && p.distinct@[k].1
            < p.arrays@.len()
}

impl A {
    /// One integer instruction of a vector loop's body, as the scalar code does it.
    pub open spec fn scalar_op(self, i: Instr, zero: Label) -> A {
        let k = Operand::Imm(i.imm as i32 as i64);
        match i.op {
            Op::Move => self.mov(i.a, i.b),
            Op::AddIK => self.int_to(IntOp::Plus, i.a, i.b, k, zero),
            Op::SubIK => self.int_to(IntOp::Minus, i.a, i.b, k, zero),
            Op::ShlIK => self.int_to(IntOp::Shl, i.a, i.b, k, zero),
            Op::MulIK => self.int_to(IntOp::Times, i.a, i.b, k, zero),
            Op::AddI => self.int_to(IntOp::Plus, i.a, i.b, Operand::Reg(i.c), zero),
            Op::SubI => self.int_to(IntOp::Minus, i.a, i.b, Operand::Reg(i.c), zero),
            _ => self.int_to(IntOp::Times, i.a, i.b, Operand::Reg(i.c), zero),
        }
    }

    /// One array checked to be of its kind, with `Float` elements, and where it is and how
    /// long it is kept.
    pub open spec fn check_array(self, a: Array, k: int, g: Regs, out: Label) -> A {
        self.get(X9, a.reg).thin_shr(X10, X9, self.at.gen_shift.wrapping_add(1)).branch(
            out,
            Fixup::Imm19,
            0xB500_0000 | X10,
        ).thin_where(X12, X9).ldr(X13, X12, 0).put(0x1200_1C00 | X13 << 5 | X14).test_kind(a.kind as u32).b_cond(
            NE,
            out,
        ).put(0xF274_001F | X13 << 5).b_cond(EQ, out).ubfx(X14, X13, self.at.desc_shift, 4).put(
            0xF100_001F | (ELEMENT as u32) << 10 | X14 << 5,
        ).b_cond(NE, out).thin_shr(X15, X13, self.at.len_shift).fmov_dx(len(g, k), X15).fmov_dx(base(g, k), X12)
    }

    /// The first `n` arrays checked.
    pub open spec fn check_arrays(self, arrays: Seq<Array>, g: Regs, out: Label, n: nat) -> A
        decreases n,
    {
        if n == 0 || n > arrays.len() {
            self
        } else {
            self.check_arrays(arrays, g, out, (n - 1) as nat).check_array(arrays[n - 1], n - 1, g, out)
        }
    }

    /// The first `n` pairs of arrays checked to be two objects.
    pub open spec fn check_apart(self, arrays: Seq<Array>, d: Seq<(usize, usize)>, out: Label, n: nat) -> A
        decreases n,
    {
        if n == 0 || n > d.len() {
            self
        } else {
            let s = self.check_apart(arrays, d, out, (n - 1) as nat);
            let (a, b) = (arrays[d[n - 1].0 as int].reg, arrays[d[n - 1].1 as int].reg);
            let x = s.x_of(a, X9);
            let s = s.x(a, X9);
            s.x(b, X10).compare(x, s.x_of(b, X10)).b_cond(EQ, out)
        }
    }

    /// The index arithmetic of the first `n` instructions, each index checked against its
    /// array where the access happens: unsigned, so a negative one fails too.
    pub open spec fn probe(self, ops: Seq<VOp>, g: Regs, scratch: Label, out: Label, n: nat) -> A
        decreases n,
    {
        if n == 0 || n > ops.len() {
            self
        } else {
            let s = self.probe(ops, g, scratch, out, (n - 1) as nat);
            match ops[n - 1] {
                VOp::Scalar(i) => s.scalar_op(i, scratch),
                VOp::Const(r, w) => s.word(r, w),
                VOp::Load { array, idx, .. } => s.check_index(array, idx, g, out),
                VOp::Store { array, idx, .. } => s.check_index(array, idx, g, out),
                VOp::Float { .. } => s,
            }
        }
    }

    pub open spec fn check_index(self, array: usize, idx: Reg, g: Regs, out: Label) -> A {
        self.fmov_xd(X9, len(g, array as int)).compare(home(idx as int), X9).b_cond(HS, out)
    }

    /// `j` at its last value.
    pub open spec fn to_last(self, j: u32, hi: Operand) -> A {
        match hi {
            Operand::Reg(h) => self.mov_x(X17, j).put(0xD100_0400 | home(h as int) << 5 | j),
            Operand::Imm(k) => self.mov_x(X17, j).imm(j, (k - 1) as i64 as u64),
        }
    }

    /// Where each of the first `n` arrays is, in a general register: `x12` to `x17` are free
    /// in the loop.
    pub open spec fn bases_in(self, g: Regs, n: nat) -> A
        decreases n,
    {
        if n == 0 {
            self
        } else {
            self.bases_in(g, (n - 1) as nat).fmov_xd((12 + n - 1) as u32, base(g, n - 1))
        }
    }

    /// The first `n` broadcasts, in both lanes.
    pub open spec fn broadcast_in(self, rs: Seq<Reg>, g: Regs, n: nat) -> A
        decreases n,
    {
        if n == 0 || n > rs.len() {
            self
        } else {
            let s = self.broadcast_in(rs, g, (n - 1) as nat);
            match s.pin(rs[n - 1]) {
                Some(Loc::D(m)) => s.put(0x4E08_0400 | m << 5 | cast(g, n - 1)),
                _ => s.get(X9, rs[n - 1]).put(0x4E08_0C00 | X9 << 5 | cast(g, n - 1)),
            }
        }
    }

    /// The general register holding an array's base: its own, or `x9`.
    pub open spec fn base_reg(k: usize) -> u32 {
        if k < 6 {
            (12 + k) as u32
        } else {
            X9
        }
    }

    /// `x9 = ` where element `r[idx]` of an array is, less its header.
    pub open spec fn element(self, array: usize, idx: Reg, g: Regs) -> A {
        let s = if array < 6 {
            self
        } else {
            self.fmov_xd(X9, base(g, array as int))
        };
        s.put(0x8B00_0000 | home(idx as int) << 16 | 3u32 << 10 | Self::base_reg(array) << 5 | X9)
    }

    pub open spec fn vector_base(op: FloatOp) -> u32 {
        match op {
            FloatOp::Mul => 0x6E60_DC00,
            FloatOp::Add => 0x4E60_D400,
            FloatOp::Sub => 0x4EE0_D400,
            FloatOp::Div => 0x6E60_FC00,
        }
    }

    /// The first `n` instructions of the body, on two lanes.
    pub open spec fn body(self, ops: Seq<VOp>, g: Regs, done: Label, n: nat) -> A
        decreases n,
    {
        if n == 0 || n > ops.len() {
            self
        } else {
            let s = self.body(ops, g, done, (n - 1) as nat);
            match ops[n - 1] {
                VOp::Scalar(i) => s.scalar_op(i, done),
                VOp::Const(r, w) => s.word(r, w),
                VOp::Load { lane: l, array, idx } => s.element(array, idx, g).put(0x3DC0_0400 | X9 << 5 | l as u32),
                VOp::Store { array, idx, val } => s.element(array, idx, g).put(
                    0x3D80_0400 | X9 << 5 | lane(g, val),
                ),
                VOp::Float { op, lane: d, a, b } => s.put(
                    Self::vector_base(op) | lane(g, b) << 16 | lane(g, a) << 5 | d as u32,
                ),
            }
        }
    }

    /// What is checked before the loop: the arrays, that they are apart, and every index of
    /// the whole loop, at `j`'s first value and its last.
    pub open spec fn preheader(self, p: Plan, g: Regs, out: Label) -> A {
        let j = home(p.j as int);
        let s = self.against(j, p.hi).b_cond(GE, out).check_arrays(p.arrays@, g, out, p.arrays@.len()).check_apart(
            p.arrays@,
            p.distinct@,
            out,
            p.distinct@.len(),
        );
        let scratch = s.next_label();
        s.new_label().probe(p.ops@, g, scratch, out, p.ops@.len()).to_last(j, p.hi).probe(
            p.ops@,
            g,
            scratch,
            out,
            p.ops@.len(),
        ).mov_x(j, X17).bind(scratch).bases_in(
            g,
            if p.arrays@.len() < 6 {
                p.arrays@.len()
            } else {
                6
            },
        ).broadcast_in(p.broadcasts@, g, p.broadcasts@.len())
    }

    /// Two iterations a trip, while two remain.
    pub open spec fn trips(self, p: Plan, g: Regs) -> A {
        let j = home(p.j as int);
        let top = self.next_label();
        let s = self.new_label();
        let done = s.next_label();
        s.new_label().bind(top).put(0x9100_0800 | j << 5 | X9).against(X9, p.hi).b_cond(GT, done).body(
            p.ops@,
            g,
            done,
            p.ops@.len(),
        ).put(0x9100_0800 | j << 5 | j).add_steps((2 * p.steps) as u32).put(0x9100_0400 | X22 << 5 | X22).put(
            0xF140_041F | X22 << 5,
        ).b_cond(HS, done).jump(top).bind(done)
    }

    /// The registers a plan's loop takes, if there are enough of them.
    pub open spec fn regs_for(self, p: Plan) -> Option<Regs> {
        let first = 16 + homes(self.pins, self.pins.len());
        if first + 2 * p.arrays@.len() + p.broadcasts@.len() <= 32 {
            Some(Regs { first: first as u32, arrays: p.arrays@.len() as u32 })
        } else {
            None
        }
    }

    /// A vector loop ahead of the scalar one, which goes on to `out` for whatever is left:
    /// nothing, where there are not enough registers.
    pub open spec fn vector_loop(self, p: Plan, out: Label) -> A {
        match self.regs_for(p) {
            None => self,
            Some(g) => self.preheader(p, g, out).trips(p, g),
        }
    }
}

fn base_at(g: &Regs, k: usize) -> (r: u32)
    requires
        g.first <= 32,
        k <= 32,
    ensures
        r == base(*g, k as int),
{
    g.first + 2 * k as u32
}

fn len_at(g: &Regs, k: usize) -> (r: u32)
    requires
        g.first <= 32,
        k <= 32,
    ensures
        r == len(*g, k as int),
{
    g.first + 2 * k as u32 + 1
}

fn cast_at(g: &Regs, k: usize) -> (r: u32)
    requires
        g.first <= 32,
        g.arrays <= 32,
        k <= 255,
    ensures
        r == cast(*g, k as int),
{
    g.first + 2 * g.arrays + k as u32
}

fn lane_at(g: &Regs, l: Lanes) -> (r: u32)
    requires
        g.first <= 32,
        g.arrays <= 32,
    ensures
        r == lane(*g, l),
{
    match l {
        Lanes::V(n) => n as u32,
        Lanes::B(n) => cast_at(g, n as usize),
    }
}

/// The registers are few enough to be numbered.
pub open spec fn small(g: Regs, p: Plan) -> bool {
    g.first <= 32 && g.arrays == p.arrays@.len() && p.arrays@.len() <= 8 && p.broadcasts@.len() <= 16
}

impl Asm {
    fn scalar_op(&mut self, i: Instr, zero: Label)
        requires
            scalar(i.op),
        ensures
            final(self)@ == old(self)@.scalar_op(i, zero),
    {
        let k: Operand = Operand::Imm(i.imm as i32 as i64);
        match i.op {
            Op::Move => self.mov(i.a, i.b),
            Op::AddIK => self.int_to(IntOp::Plus, i.a, i.b, k, zero),
            Op::SubIK => self.int_to(IntOp::Minus, i.a, i.b, k, zero),
            Op::ShlIK => self.int_to(IntOp::Shl, i.a, i.b, k, zero),
            Op::MulIK => self.int_to(IntOp::Times, i.a, i.b, k, zero),
            Op::AddI => self.int_to(IntOp::Plus, i.a, i.b, Operand::Reg(i.c), zero),
            Op::SubI => self.int_to(IntOp::Minus, i.a, i.b, Operand::Reg(i.c), zero),
            _ => self.int_to(IntOp::Times, i.a, i.b, Operand::Reg(i.c), zero),
        }
    }

    fn check_array(&mut self, a: Array, k: usize, g: &Regs, out: Label)
        requires
            g.first <= 32,
            k <= 32,
        ensures
            final(self)@ == old(self)@.check_array(a, k as int, *g, out),
    {
        let at: Layout = self.at;
        self.get(X9, a.reg);
        // Not a region, which is looked up by a search.
        self.thin_shr(X10, X9, at.gen_shift.wrapping_add(1));
        self.branch(out, Fixup::Imm19, 0xB500_0000 | X10);
        self.thin_where(X12, X9);
        self.ldr(X13, X12, 0);
        self.put(0x1200_1C00 | X13 << 5 | X14);
        self.test_kind(a.kind as u32);
        self.b_cond(NE, out);
        self.put(0xF274_001F | X13 << 5);
        self.b_cond(EQ, out);
        self.ubfx(X14, X13, at.desc_shift, 4);
        self.put(0xF100_001F | (ELEMENT as u32) << 10 | X14 << 5);
        self.b_cond(NE, out);
        self.thin_shr(X15, X13, at.len_shift);
        self.fmov_dx(len_at(g, k), X15);
        self.fmov_dx(base_at(g, k), X12);
    }

    fn check_arrays(&mut self, p: &Plan, g: &Regs, out: Label)
        requires
            small(*g, *p),
        ensures
            final(self)@ == old(self)@.check_arrays(p.arrays@, *g, out, p.arrays@.len()),
    {
        let ghost start = self@;
        let mut k: usize = 0;
        while k < p.arrays.len()
            invariant
                k <= p.arrays@.len(),
                small(*g, *p),
                self@ == start.check_arrays(p.arrays@, *g, out, k as nat),
            decreases p.arrays@.len() - k,
        {
            self.check_array(p.arrays[k], k, g, out);
            k = k + 1;
        }
    }

    fn check_apart(&mut self, p: &Plan, out: Label)
        requires
            plan_ok(*p),
        ensures
            final(self)@ == old(self)@.check_apart(p.arrays@, p.distinct@, out, p.distinct@.len()),
    {
        let ghost start = self@;
        let mut k: usize = 0;
        while k < p.distinct.len()
            invariant
                k <= p.distinct@.len(),
                plan_ok(*p),
                self@ == start.check_apart(p.arrays@, p.distinct@, out, k as nat),
            decreases p.distinct@.len() - k,
        {
            let (a, b) = p.distinct[k];
            let x: u32 = self.x(p.arrays[a].reg, X9);
            let y: u32 = self.x(p.arrays[b].reg, X10);
            self.compare(x, y);
            self.b_cond(EQ, out);
            k = k + 1;
        }
    }

    fn check_index(&mut self, array: usize, idx: Reg, g: &Regs, out: Label)
        requires
            g.first <= 32,
            array <= 32,
        ensures
            final(self)@ == old(self)@.check_index(array, idx, *g, out),
    {
        self.fmov_xd(X9, len_at(g, array));
        self.compare(home_of(idx), X9);
        self.b_cond(HS, out);
    }

    fn probe(&mut self, p: &Plan, g: &Regs, scratch: Label, out: Label)
        requires
            plan_ok(*p),
            small(*g, *p),
        ensures
            final(self)@ == old(self)@.probe(p.ops@, *g, scratch, out, p.ops@.len()),
    {
        let ghost start = self@;
        let mut k: usize = 0;
        while k < p.ops.len()
            invariant
                k <= p.ops@.len(),
                plan_ok(*p),
                small(*g, *p),
                self@ == start.probe(p.ops@, *g, scratch, out, k as nat),
            decreases p.ops@.len() - k,
        {
            match p.ops[k] {
                VOp::Scalar(i) => self.scalar_op(i, scratch),
                VOp::Const(r, w) => self.word(r, w),
                VOp::Load { array, idx, .. } => self.check_index(array, idx, g, out),
                VOp::Store { array, idx, .. } => self.check_index(array, idx, g, out),
                VOp::Float { .. } => {},
            }
            k = k + 1;
        }
    }

    fn to_last(&mut self, j: u32, hi: Operand)
        requires
            match hi {
                Operand::Reg(_) => true,
                Operand::Imm(k) => k > i64::MIN,
            },
        ensures
            final(self)@ == old(self)@.to_last(j, hi),
    {
        self.mov_x(X17, j);
        match hi {
            Operand::Reg(h) => self.put(0xD100_0400 | home_of(h) << 5 | j),
            Operand::Imm(k) => self.imm(j, (k - 1) as u64),
        }
    }

    fn bases_in(&mut self, g: &Regs, n: usize)
        requires
            g.first <= 32,
            n <= 6,
        ensures
            final(self)@ == old(self)@.bases_in(*g, n as nat),
    {
        let ghost start = self@;
        let mut k: usize = 0;
        while k < n
            invariant
                k <= n,
                n <= 6,
                g.first <= 32,
                self@ == start.bases_in(*g, k as nat),
            decreases n - k,
        {
            self.fmov_xd(12 + k as u32, base_at(g, k));
            k = k + 1;
        }
    }

    fn broadcast_in(&mut self, p: &Plan, g: &Regs)
        requires
            small(*g, *p),
        ensures
            final(self)@ == old(self)@.broadcast_in(p.broadcasts@, *g, p.broadcasts@.len()),
    {
        let ghost start = self@;
        let mut k: usize = 0;
        while k < p.broadcasts.len()
            invariant
                k <= p.broadcasts@.len(),
                small(*g, *p),
                self@ == start.broadcast_in(p.broadcasts@, *g, k as nat),
            decreases p.broadcasts@.len() - k,
        {
            let c: u32 = cast_at(g, k);
            match self.pinned(p.broadcasts[k]) {
                Some(Loc::D(m)) => self.put(0x4E08_0400 | m << 5 | c),
                _ => {
                    self.get(X9, p.broadcasts[k]);
                    self.put(0x4E08_0C00 | X9 << 5 | c);
                },
            }
            k = k + 1;
        }
    }

    fn element(&mut self, array: usize, idx: Reg, g: &Regs)
        requires
            g.first <= 32,
            array <= 32,
        ensures
            final(self)@ == old(self)@.element(array, idx, *g),
    {
        let b: u32 = if array < 6 {
            12 + array as u32
        } else {
            self.fmov_xd(X9, base_at(g, array));
            X9
        };
        self.put(0x8B00_0000 | home_of(idx) << 16 | 3u32 << 10 | b << 5 | X9);
    }

    fn body(&mut self, p: &Plan, g: &Regs, done: Label)
        requires
            plan_ok(*p),
            small(*g, *p),
        ensures
            final(self)@ == old(self)@.body(p.ops@, *g, done, p.ops@.len()),
    {
        let ghost start = self@;
        let mut k: usize = 0;
        while k < p.ops.len()
            invariant
                k <= p.ops@.len(),
                plan_ok(*p),
                small(*g, *p),
                self@ == start.body(p.ops@, *g, done, k as nat),
            decreases p.ops@.len() - k,
        {
            match p.ops[k] {
                VOp::Scalar(i) => self.scalar_op(i, done),
                VOp::Const(r, w) => self.word(r, w),
                VOp::Load { lane: l, array, idx } => {
                    self.element(array, idx, g);
                    self.put(0x3DC0_0400 | X9 << 5 | l as u32);
                },
                VOp::Store { array, idx, val } => {
                    self.element(array, idx, g);
                    self.put(0x3D80_0400 | X9 << 5 | lane_at(g, val));
                },
                VOp::Float { op, lane: d, a, b } => {
                    let base: u32 = match op {
                        FloatOp::Mul => 0x6E60_DC00,
                        FloatOp::Add => 0x4E60_D400,
                        FloatOp::Sub => 0x4EE0_D400,
                        FloatOp::Div => 0x6E60_FC00,
                    };
                    self.put(base | lane_at(g, b) << 16 | lane_at(g, a) << 5 | d as u32);
                },
            }
            k = k + 1;
        }
    }

    fn preheader(&mut self, p: &Plan, g: &Regs, out: Label)
        requires
            plan_ok(*p),
            small(*g, *p),
        ensures
            final(self)@ == old(self)@.preheader(*p, *g, out),
    {
        let j: u32 = home_of(p.j);
        // Nothing to do at all: the scalar header exits.
        self.against(j, p.hi);
        self.b_cond(GE, out);
        self.check_arrays(p, g, out);
        self.check_apart(p, out);
        let scratch: Label = self.label();
        self.probe(p, g, scratch, out);
        self.to_last(j, p.hi);
        self.probe(p, g, scratch, out);
        self.mov_x(j, X17);
        self.bind(scratch);
        let n: usize = if p.arrays.len() < 6 {
            p.arrays.len()
        } else {
            6
        };
        self.bases_in(g, n);
        self.broadcast_in(p, g);
    }

    fn trips(&mut self, p: &Plan, g: &Regs)
        requires
            plan_ok(*p),
            small(*g, *p),
        ensures
            final(self)@ == old(self)@.trips(*p, *g),
    {
        let j: u32 = home_of(p.j);
        let top: Label = self.label();
        let done: Label = self.label();
        self.bind(top);
        self.put(0x9100_0800 | j << 5 | X9);
        self.against(X9, p.hi);
        self.b_cond(GT, done);
        self.body(p, g, done);
        self.put(0x9100_0800 | j << 5 | j);
        self.add_steps(2 * p.steps);
        self.put(0x9100_0400 | X22 << 5 | X22);
        self.put(0xF140_041F | X22 << 5);
        self.b_cond(HS, done);
        self.jump(top);
        self.bind(done);
    }

    fn count_homes(&self) -> (n: usize)
        ensures
            n == homes(self@.pins, self@.pins.len()),
            n <= self@.pins.len(),
    {
        let mut n: usize = 0;
        let mut i: usize = 0;
        while i < self.pins.len()
            invariant
                i <= self.pins@.len(),
                n <= i,
                n == homes(self.pins@, i as nat),
            decreases self.pins@.len() - i,
        {
            match self.pins[i].1 {
                Loc::D(_) => {
                    n = n + 1;
                },
                Loc::X(_) => {},
            }
            i = i + 1;
        }
        n
    }

    /// A vector loop ahead of the scalar one at `out`: a preheader that checks what the plan
    /// needs, and a loop that does two iterations per trip. Nothing, where there are not
    /// enough registers.
    pub fn vector_loop(&mut self, plan: &Plan, out: Label)
        requires
            plan_ok(*plan),
        ensures
            final(self)@ == old(self)@.vector_loop(*plan, out),
    {
        let n: usize = self.count_homes();
        let (a, b) = (plan.arrays.len(), plan.broadcasts.len());
        if n > 16 || a > 8 || b > 16 || 16 + n + 2 * a + b > 32 {
            return;
        }
        let g: Regs = Regs { first: 16 + n as u32, arrays: a as u32 };
        self.preheader(plan, &g, out);
        self.trips(plan, &g);
    }
}

} // verus!
