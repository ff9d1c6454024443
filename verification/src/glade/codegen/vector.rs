//! Loops over arrays of numbers, two elements at a time.
//!
//! A loop arrives here as a run of bytecode from a header to the jump back to it.
//! Where its body is index arithmetic, reads and writes of arrays that never change
//! during the loop, and float arithmetic on what was read, it is what a vector unit
//! is for: two doubles per instruction, and none of the checks an access makes,
//! since every one of them can be made once before the loop.
//!
//! What is made here is a **plan**: which register counts, which registers are the
//! arrays, what each instruction of the body becomes, and what has to be true before
//! the plan can run. The scalar loop is never changed, so the plan is only ever a
//! way of doing what it does faster, and doing none of it is always right.
//!
//! # What qualifies
//!
//! * The header is `bri j >= hi` (or `>= k`), exiting the loop; the body ends in
//!   `addik j <- j + 1` and the jump back. `j` is the **induction register**; `hi`
//!   is never written in the body.
//! * Every register the body reads before writing is either `j` or never written in
//!   the body at all -- an *invariant*.
//! * Integer arithmetic is on invariants and `j`, and every array index is `j` plus
//!   something invariant: **stride one**, so the element after is the next word.
//! * Arrays are read with `stGetArray`/`arrayGet` and written with `stSetArray`, each
//!   on an invariant register; what is read is used as a `Float`, and what is written
//!   was made by one.
//! * Nothing else: no calls, no allocation, no branches inside the body.

use super::code::{
    immediate, prim_at, prim_of, word_of, writes, written_by, Cond, FloatOp, Instr, Op, Operand, Program, Reg,
};
use crate::glade::object::Kind;
use crate::terms::desc;
use crate::terms::prim::Prim;
use crate::terms::ty::share;
use std::collections::{HashMap, HashSet};
use std::rc::Rc;
use vstd::prelude::*;

verus! {

broadcast use vstd::std_specs::hash::group_hash_axioms;

/// An integer the body computes, as an expression over the invariants and `j`: what
/// two index registers are compared by, since lowering computes the same index into
/// two registers as readily as one.
#[derive(Debug)]
pub enum Expr {
    Reg(Reg),
    J,
    Const(u64),
    Plus(Rc<Expr>, Rc<Expr>),
    Minus(Rc<Expr>, Rc<Expr>),
    Times(Rc<Expr>, Rc<Expr>),
    Shl(Rc<Expr>, Rc<Expr>),
}

/// One invariant array the loop touches.
#[derive(Debug, Clone, Copy, PartialEq, Eq, Structural)]
pub struct Array {
    pub reg: Reg,
    /// `Kind::MutArray` or `Kind::Array`, as [`Kind`]'s number.
    pub kind: u8,
    /// Written to somewhere in the body.
    pub stored: bool,
}

/// A float value inside the vector body: two lanes in a vector register, or an
/// invariant scalar, broadcast to both lanes before the loop.
#[derive(Debug, Clone, Copy, PartialEq, Eq, Structural)]
pub enum Lanes {
    /// Vector register `v0 + n`.
    V(u8),
    /// Invariant register, broadcast: the `n`th of [`Plan::broadcasts`].
    B(u8),
}

/// One instruction of the body, as the vector loop does it.
#[derive(Debug, Clone, Copy, PartialEq, Eq, Structural)]
pub enum VOp {
    /// Integer arithmetic or a move, done as the scalar code does it: on the fixed
    /// registers, for lane zero. The lane after is the next element, by stride one.
    Scalar(Instr),
    /// `r[reg] = word`, likewise.
    Const(Reg, u64),
    /// `V(lane) = ` two elements of array `array` from index `r[idx]`.
    Load { lane: u8, array: usize, idx: Reg },
    /// Two elements of array `array` at index `r[idx]` `= val`.
    Store { array: usize, idx: Reg, val: Lanes },
    /// `V(lane) = a op b`, lane by lane.
    Float { op: FloatOp, lane: u8, a: Lanes, b: Lanes },
}

/// An access the preheader has to bound: the register holding its index at the point
/// of the access, and the array it is into.
#[derive(Debug, Clone, Copy, PartialEq, Eq, Structural)]
pub struct Access {
    pub idx: Reg,
    pub array: usize,
}

#[derive(Debug, Clone, PartialEq, Eq)]
pub struct Plan {
    pub j: Reg,
    pub hi: Operand,
    pub arrays: Vec<Array>,
    /// Invariant float registers the body reads, in [`Lanes::B`] order.
    pub broadcasts: Vec<Reg>,
    pub ops: Vec<VOp>,
    /// Every read and write, for the bounds checks.
    pub accesses: Vec<Access>,
    /// Pairs of arrays that must not be the same object: one is written and the other
    /// read at an index the body computes differently.
    pub distinct: Vec<(usize, usize)>,
    /// How many vector registers the lanes use.
    pub lanes: u8,
    /// Instructions per iteration of the scalar loop, for the step count.
    pub steps: u32,
}

/// The most lanes a plan may use: `v0` to `v7`, which nothing else in a block
/// function holds across an instruction.
pub const LANES: u8 = 8;

/// The element descriptor every array of the plan must have: what the loop reads as
/// floats and writes from floats.
pub const ELEMENT: desc::Desc = desc::FLOAT;

/// Which rule refused a loop.
#[derive(Debug, Clone, Copy, PartialEq, Eq, Structural)]
pub enum Refusal {
    /// Too short to be a loop with a body.
    Short,
    /// The header is not an exit on `j >= hi`.
    Header,
    /// The end is not a step of `j` by one and the jump back.
    End,
    /// The body does not begin inside the loop.
    Start,
    /// The body writes `j`.
    Induction,
    /// The body writes the bound.
    Bound,
    /// A register is read that an earlier iteration wrote.
    Carried,
    /// A constant that is an object.
    Constant,
    /// Integer arithmetic on something that is not an integer.
    NotInt,
    /// `j` is scaled.
    Scaled,
    /// Float arithmetic on something that is not a float.
    NotFloat,
    /// Float arithmetic on invariants alone.
    Invariant,
    /// There are no vector registers left.
    Lanes,
    /// A primitive that is not an access of an array.
    Primitive,
    /// An access of something that is not an invariant array.
    Array,
    /// An index that is not `j` plus something invariant.
    Index,
    /// An instruction that is not of a kind a vector loop has.
    Instruction,
    /// Nothing is stored.
    Stores,
    /// An array is read and written at two indices.
    Dependence,
    /// A register that the vector loop cannot hold.
    Fixed,
}

/// What a register holds, symbolically, while the body is read.
#[derive(Debug)]
pub enum Sym {
    /// An integer: how many times `j` it contains, and the expression it is.
    Int { j: i64, steady: bool, expr: Rc<Expr> },
    Float(Lanes),
}

/// What reading the body has come to.
pub struct Body {
    pub syms: HashMap<Reg, Sym>,
    pub arrays: Vec<Array>,
    pub broadcasts: Vec<Reg>,
    pub ops: Vec<VOp>,
    pub accesses: Vec<Access>,
    pub lanes: u8,
    /// Every load and store, for the aliasing rule: the array, and the index.
    pub loads: Vec<(usize, Rc<Expr>)>,
    pub stores: Vec<(usize, Rc<Expr>)>,
}

/// [`Body`], as what it holds.
pub struct BodyV {
    pub syms: Map<Reg, Sym>,
    pub arrays: Seq<Array>,
    pub broadcasts: Seq<Reg>,
    pub ops: Seq<VOp>,
    pub accesses: Seq<Access>,
    pub lanes: u8,
    pub loads: Seq<(usize, Rc<Expr>)>,
    pub stores: Seq<(usize, Rc<Expr>)>,
}

impl View for Body {
    type V = BodyV;

    open spec fn view(&self) -> BodyV {
        BodyV {
            syms: self.syms@,
            arrays: self.arrays@,
            broadcasts: self.broadcasts@,
            ops: self.ops@,
            accesses: self.accesses@,
            lanes: self.lanes,
            loads: self.loads@,
            stores: self.stores@,
        }
    }
}

impl BodyV {
    pub open spec fn empty() -> BodyV {
        BodyV {
            syms: Map::empty(),
            arrays: Seq::empty(),
            broadcasts: Seq::empty(),
            ops: Seq::empty(),
            accesses: Seq::empty(),
            lanes: 0,
            loads: Seq::empty(),
            stores: Seq::empty(),
        }
    }

    /// With register `r` holding `s`.
    pub open spec fn held(self, r: Reg, s: Sym) -> BodyV {
        BodyV { syms: self.syms.insert(r, s), ..self }
    }

    pub open spec fn op(self, o: VOp) -> BodyV {
        BodyV { ops: self.ops.push(o), ..self }
    }

    /// With the next vector register taken.
    pub open spec fn lane(self) -> BodyV {
        BodyV { lanes: (self.lanes + 1) as u8, ..self }
    }
}

/// The loop a body is of: its induction register, and the registers its body writes.
pub struct Around {
    pub j: Reg,
    pub written: HashSet<Reg>,
}

/// [`Around`], as what it holds.
pub struct AroundV {
    pub j: Reg,
    pub written: Set<Reg>,
}

impl View for Around {
    type V = AroundV;

    open spec fn view(&self) -> AroundV {
        AroundV { j: self.j, written: self.written@ }
    }
}

/// An invariant, as an integer.
pub open spec fn fixed_int(e: Expr) -> Sym {
    Sym::Int { j: 0, steady: true, expr: Rc::new(e) }
}

/// What register `r` holds.
pub open spec fn int_in(b: BodyV, l: AroundV, r: Reg) -> Option<Sym> {
    if b.syms.contains_key(r) {
        Some(b.syms[r])
    } else if r == l.j {
        Some(Sym::Int { j: 1, steady: true, expr: Rc::new(Expr::J) })
    } else if !l.written.contains(r) {
        Some(fixed_int(Expr::Reg(r)))
    } else {
        None
    }
}

/// Where `r` is among the registers from `i` on, and how many there are if it is not.
pub open spec fn reg_at(rs: Seq<Reg>, r: Reg, i: nat) -> nat
    decreases rs.len() - i,
{
    if i >= rs.len() || rs[i as int] == r {
        i
    } else {
        reg_at(rs, r, i + 1)
    }
}

/// Where the array in `r` is among those from `i` on.
pub open spec fn array_at(xs: Seq<Array>, r: Reg, i: nat) -> nat
    decreases xs.len() - i,
{
    if i >= xs.len() || xs[i as int].reg == r {
        i
    } else {
        array_at(xs, r, i + 1)
    }
}

/// The float register `r` holds, an invariant being broadcast.
pub open spec fn float_in(b: BodyV, l: AroundV, r: Reg) -> Option<(BodyV, Lanes)> {
    if b.syms.contains_key(r) {
        match b.syms[r] {
            Sym::Float(x) => Some((b, x)),
            Sym::Int { .. } => None,
        }
    } else if r != l.j && !l.written.contains(r) {
        let n = reg_at(b.broadcasts, r, 0);
        Some((
            if n < b.broadcasts.len() {
                b
            } else {
                BodyV { broadcasts: b.broadcasts.push(r), ..b }
            },
            Lanes::B(n as u8),
        ))
    } else {
        None
    }
}

/// The invariant register that names the array `r` does: `r` itself, or the one it is
/// a copy of.
pub open spec fn array_reg(b: BodyV, l: AroundV, r: Reg) -> Option<Reg> {
    if b.syms.contains_key(r) {
        match b.syms[r] {
            Sym::Int { expr, .. } => match *expr {
                Expr::Reg(src) => Some(src),
                _ => None,
            },
            Sym::Float(_) => None,
        }
    } else if !l.written.contains(r) && r != l.j {
        Some(r)
    } else {
        None
    }
}

/// The array register `r` names, of that kind, which is stored to or not.
pub open spec fn array_in(b: BodyV, l: AroundV, r: Reg, kind: u8, stored: bool) -> Option<(BodyV, usize)> {
    match array_reg(b, l, r) {
        None => None,
        Some(r) => {
            let n = array_at(b.arrays, r, 0);
            if n >= b.arrays.len() {
                Some((BodyV { arrays: b.arrays.push(Array { reg: r, kind, stored }), ..b }, n as usize))
            } else if b.arrays[n as int].kind != kind {
                None
            } else {
                let a = b.arrays[n as int];
                Some((
                    BodyV { arrays: b.arrays.update(n as int, Array { stored: a.stored || stored, ..a }), ..b },
                    n as usize,
                ))
            }
        },
    }
}

/// The index register `r` holds: `j` once, plus invariants.
pub open spec fn index_in(b: BodyV, l: AroundV, r: Reg) -> Option<Rc<Expr>> {
    match int_in(b, l, r) {
        Some(Sym::Int { j, steady, expr }) => if j == 1 && steady {
            Some(expr)
        } else {
            None
        },
        _ => None,
    }
}

/// A move: of an integer, it is done; of lanes, it is a name.
pub open spec fn moved(b: BodyV, l: AroundV, i: Instr) -> Result<BodyV, Refusal> {
    match int_in(b, l, i.b) {
        None => Err(Refusal::Carried),
        Some(s) => Ok(
            if s is Int {
                b.op(VOp::Scalar(i)).held(i.a, s)
            } else {
                b.held(i.a, s)
            },
        ),
    }
}

/// The immediate of an instruction, as a word.
pub open spec fn imm_word(i: Instr) -> u64 {
    i.imm as i32 as i64 as u64
}

/// Arithmetic on a register and an immediate.
pub open spec fn with_imm(b: BodyV, l: AroundV, i: Instr) -> Result<BodyV, Refusal> {
    match int_in(b, l, i.b) {
        None => Err(Refusal::Carried),
        Some(Sym::Float(_)) => Err(Refusal::NotInt),
        Some(Sym::Int { j, steady, expr }) => {
            let k = Rc::new(Expr::Const(imm_word(i)));
            if j != 0 && (i.op == Op::ShlIK || i.op == Op::MulIK) {
                Err(Refusal::Scaled)
            } else {
                let e = match i.op {
                    Op::AddIK => Expr::Plus(expr, k),
                    Op::SubIK => Expr::Minus(expr, k),
                    Op::ShlIK => Expr::Shl(expr, k),
                    _ => Expr::Times(expr, k),
                };
                Ok(b.op(VOp::Scalar(i)).held(i.a, Sym::Int { j, steady, expr: Rc::new(e) }))
            }
        },
    }
}

/// Arithmetic on two registers.
pub open spec fn with_two(b: BodyV, l: AroundV, i: Instr) -> Result<BodyV, Refusal> {
    match int_in(b, l, i.b) {
        None => Err(Refusal::Carried),
        Some(Sym::Float(_)) => Err(Refusal::NotInt),
        Some(Sym::Int { j: jb, steady: ib, expr: eb }) => match int_in(b, l, i.c) {
            None => Err(Refusal::Carried),
            Some(Sym::Float(_)) => Err(Refusal::NotInt),
            Some(Sym::Int { j: jc, steady: ic, expr: ec }) => {
                if i.op == Op::MulI && !(jb == 0 && jc == 0) {
                    Err(Refusal::Scaled)
                } else {
                    let j: i64 = match i.op {
                        Op::AddI => jb.wrapping_add(jc),
                        Op::SubI => jb.wrapping_sub(jc),
                        _ => 0,
                    };
                    let e = match i.op {
                        Op::AddI => Expr::Plus(eb, ec),
                        Op::SubI => Expr::Minus(eb, ec),
                        _ => Expr::Times(eb, ec),
                    };
                    Ok(b.op(VOp::Scalar(i)).held(i.a, Sym::Int { j, steady: ib && ic, expr: Rc::new(e) }))
                }
            },
        },
    }
}

/// Float arithmetic.
pub open spec fn with_floats(b: BodyV, l: AroundV, i: Instr) -> Result<BodyV, Refusal> {
    match float_in(b, l, i.b) {
        None => Err(Refusal::NotFloat),
        Some((b1, x)) => match float_in(b1, l, i.c) {
            None => Err(Refusal::NotFloat),
            Some((b2, y)) => if x is B && y is B {
                Err(Refusal::Invariant)
            } else if b2.lanes >= LANES {
                Err(Refusal::Lanes)
            } else {
                let op = match i.op {
                    Op::MulF => FloatOp::Mul,
                    Op::AddF => FloatOp::Add,
                    Op::SubF => FloatOp::Sub,
                    _ => FloatOp::Div,
                };
                Ok(
                    b2.lane().op(VOp::Float { op, lane: b2.lanes, a: x, b: y }).held(
                        i.a,
                        Sym::Float(Lanes::V(b2.lanes)),
                    ),
                )
            },
        },
    }
}

/// A read of an array.
pub open spec fn with_load(p: Program, b: BodyV, l: AroundV, i: Instr) -> Result<BodyV, Refusal> {
    match prim_of(p, i.imm) {
        Some(Prim::StGetArray) => loaded(b, l, i, Kind::MutArray.byte()),
        Some(Prim::ArrayGet) => loaded(b, l, i, Kind::Array.byte()),
        _ => Err(Refusal::Primitive),
    }
}

pub open spec fn loaded(b: BodyV, l: AroundV, i: Instr, kind: u8) -> Result<BodyV, Refusal> {
    match array_in(b, l, i.b, kind, false) {
        None => Err(Refusal::Array),
        Some((b1, array)) => match index_in(b1, l, i.c) {
            None => Err(Refusal::Index),
            Some(e) => if b1.lanes >= LANES {
                Err(Refusal::Lanes)
            } else {
                let b2 = b1.lane().op(VOp::Load { lane: b1.lanes, array, idx: i.c });
                let b3 = BodyV {
                    accesses: b2.accesses.push(Access { idx: i.c, array }),
                    loads: b2.loads.push((array, e)),
                    ..b2
                };
                Ok(b3.held(i.a, Sym::Float(Lanes::V(b1.lanes))))
            },
        },
    }
}

/// A write to an array. It answers unit, which nothing here reads.
pub open spec fn with_store(p: Program, b: BodyV, l: AroundV, i: Instr) -> Result<BodyV, Refusal> {
    if prim_of(p, i.imm) != Some(Prim::StSetArray) {
        Err(Refusal::Primitive)
    } else {
        match array_in(b, l, i.b, Kind::MutArray.byte(), true) {
            None => Err(Refusal::Array),
            Some((b1, array)) => {
                let idx: u8 = i.b.wrapping_add(1);
                match index_in(b1, l, idx) {
                    None => Err(Refusal::Index),
                    Some(e) => match float_in(b1, l, i.b.wrapping_add(2)) {
                        None => Err(Refusal::NotFloat),
                        Some((b2, val)) => {
                            let b3 = b2.op(VOp::Store { array, idx, val });
                            let b4 = BodyV {
                                accesses: b3.accesses.push(Access { idx, array }),
                                stores: b3.stores.push((array, e)),
                                ..b3
                            };
                            Ok(b4.held(i.a, fixed_int(Expr::Const(0))))
                        },
                    },
                }
            },
        }
    }
}

/// One instruction of the body read.
pub open spec fn read_one(p: Program, b: BodyV, l: AroundV, i: Instr) -> Result<BodyV, Refusal> {
    match i.op {
        Op::Move => moved(b, l, i),
        Op::Const => match word_of(p, i.imm) {
            None => Err(Refusal::Constant),
            Some(w) => Ok(b.held(i.a, fixed_int(Expr::Const(w))).op(VOp::Const(i.a, w))),
        },
        Op::AddIK | Op::SubIK | Op::ShlIK | Op::MulIK => with_imm(b, l, i),
        Op::AddI | Op::SubI | Op::MulI => with_two(b, l, i),
        Op::MulF | Op::AddF | Op::SubF | Op::DivF => with_floats(b, l, i),
        Op::Prim2 => with_load(p, b, l, i),
        Op::Prim => if i.c == 3 {
            with_store(p, b, l, i)
        } else {
            Err(Refusal::Instruction)
        },
        _ => Err(Refusal::Instruction),
    }
}

/// The first `n` instructions at `pcs` read.
pub open spec fn read_all(p: Program, l: AroundV, pcs: Seq<usize>, n: nat) -> Result<BodyV, Refusal>
    decreases n,
{
    if n == 0 || n > pcs.len() {
        Ok(BodyV::empty())
    } else {
        match read_all(p, l, pcs, (n - 1) as nat) {
            Err(e) => Err(e),
            Ok(b) => read_one(p, b, l, p.code@[pcs[n - 1] as int]),
        }
    }
}

/// The registers the first `n` instructions at `pcs` write.
pub open spec fn all_written(p: Program, pcs: Seq<usize>, n: nat) -> Set<Reg>
    decreases n,
{
    if n == 0 || n > pcs.len() {
        Set::empty()
    } else {
        match written_by(p.code@[pcs[n - 1] as int]) {
            Some(r) => all_written(p, pcs, (n - 1) as nat).insert(r),
            None => all_written(p, pcs, (n - 1) as nat),
        }
    }
}

/// The arrays that must not be the same object for one store and the first `n` loads.
/// Two registers can name one array: a store through one and a load through the other
/// at an index computed differently may then be the same element in a lane the other
/// way round. Where both go through the same index, the lanes line up.
pub open spec fn apart(
    from: Seq<(usize, usize)>,
    s: (usize, Rc<Expr>),
    loads: Seq<(usize, Rc<Expr>)>,
    n: nat,
) -> Result<Seq<(usize, usize)>, Refusal>
    decreases n,
{
    if n == 0 || n > loads.len() {
        Ok(from)
    } else {
        match apart(from, s, loads, (n - 1) as nat) {
            Err(e) => Err(e),
            Ok(d) => {
                let l = loads[n - 1];
                if s.1 == l.1 {
                    Ok(d)
                } else if l.0 == s.0 {
                    // One array, two index expressions: a carried dependence the
                    // vector cannot honour.
                    Err(Refusal::Dependence)
                } else if d.contains((s.0, l.0)) || d.contains((l.0, s.0)) {
                    Ok(d)
                } else {
                    Ok(d.push((s.0, l.0)))
                }
            },
        }
    }
}

/// The same for the first `n` stores and every load.
pub open spec fn all_apart(
    stores: Seq<(usize, Rc<Expr>)>,
    loads: Seq<(usize, Rc<Expr>)>,
    n: nat,
) -> Result<Seq<(usize, usize)>, Refusal>
    decreases n,
{
    if n == 0 || n > stores.len() {
        Ok(Seq::empty())
    } else {
        match all_apart(stores, loads, (n - 1) as nat) {
            Err(e) => Err(e),
            Ok(d) => apart(d, stores[n - 1], loads, loads.len()),
        }
    }
}

/// Every register the vector loop works on is one it can hold.
pub open spec fn all_fixed(b: BodyV, j: Reg, hi: Operand, fixed: usize) -> bool {
    &&& j < fixed
    &&& forall|k: int| 0 <= k < b.arrays.len() ==> (#[trigger] b.arrays[k]).reg < fixed
    &&& forall|k: int| 0 <= k < b.accesses.len() ==> (#[trigger] b.accesses[k]).idx < fixed
    &&& forall|k: int| 0 <= k < b.broadcasts.len() ==> #[trigger] b.broadcasts[k] < fixed
    &&& match hi {
        Operand::Reg(h) => h < fixed,
        Operand::Imm(_) => true,
    }
}

/// A loop, as its ends say it is.
pub struct Shape {
    pub j: Reg,
    pub hi: Operand,
    /// Where the body begins, among the loop's instructions.
    pub start: usize,
}

/// What a loop's header counts, and to where.
pub open spec fn counted(head: Instr) -> Option<(Reg, Operand)> {
    if Cond::of_byte(head.c as u32) != Some(Cond::Ge) {
        None
    } else if head.op == Op::BrI {
        Some((head.a, Operand::Reg(head.b)))
    } else if head.op == Op::BrIK {
        Some((head.a, Operand::Imm(head.b as i8 as i64)))
    } else {
        None
    }
}

/// The loop at `pcs`, by its header and its end.
pub open spec fn shape_of(p: Program, pcs: Seq<usize>) -> Result<Shape, Refusal> {
    if pcs.len() < 3 {
        Err(Refusal::Short)
    } else {
        let head = p.code@[pcs[0] as int];
        match counted(head) {
            None => Err(Refusal::Header),
            Some((j, hi)) => {
                let last = p.code@[pcs[pcs.len() - 1] as int];
                let bump = p.code@[pcs[pcs.len() - 2] as int];
                if last.op != Op::Jump || last.imm as usize != pcs[0] || bump.op != Op::AddIK || bump.a != j
                    || bump.b != j || bump.imm != 1 {
                    Err(Refusal::End)
                } else if (head.imm as usize) < pcs[0] + 1 || head.imm as usize - pcs[0] > pcs.len() - 2 {
                    Err(Refusal::Start)
                } else {
                    Ok(Shape { j, hi, start: (head.imm as usize - pcs[0]) as usize })
                }
            },
        }
    }
}

/// The instructions of the body.
pub open spec fn body_of(s: Shape, pcs: Seq<usize>) -> Seq<usize> {
    pcs.subrange(s.start as int, pcs.len() - 2)
}

/// What is made of a loop whose registers are known.
pub open spec fn plan_around(p: Program, pcs: Seq<usize>, fixed: usize, s: Shape, l: AroundV) -> Result<
    (BodyV, Seq<(usize, usize)>),
    Refusal,
> {
    let body = body_of(s, pcs);
    if l.written.contains(s.j) {
        Err(Refusal::Induction)
    } else if s.hi is Reg && l.written.contains(s.hi->Reg_0) {
        Err(Refusal::Bound)
    } else {
        match read_all(p, l, body, body.len()) {
            Err(e) => Err(e),
            Ok(b) => if b.arrays.len() == 0 || b.stores.len() == 0 {
                Err(Refusal::Stores)
            } else {
                match all_apart(b.stores, b.loads, b.stores.len()) {
                    Err(e) => Err(e),
                    Ok(d) => if all_fixed(b, s.j, s.hi, fixed) {
                        Ok((b, d))
                    } else {
                        Err(Refusal::Fixed)
                    },
                }
            },
        }
    }
}

/// `plan` is what a body and its aliasing rule come to.
pub open spec fn made_of(plan: Plan, s: Shape, b: BodyV, d: Seq<(usize, usize)>, steps: nat) -> bool {
    &&& plan.j == s.j
    &&& plan.hi == s.hi
    &&& plan.arrays@ == b.arrays
    &&& plan.broadcasts@ == b.broadcasts
    &&& plan.ops@ == b.ops
    &&& plan.accesses@ == b.accesses
    &&& plan.distinct@ == d
    &&& plan.lanes == b.lanes
    &&& plan.steps == steps as u32
}

/// A loop's induction register, and the registers its body writes.
pub open spec fn around(p: Program, pcs: Seq<usize>, s: Shape) -> AroundV {
    let body = body_of(s, pcs);
    AroundV { j: s.j, written: all_written(p, body, body.len()) }
}

/// What the body of the loop at `pcs` comes to, with the arrays that must be apart.
pub open spec fn planned(p: Program, pcs: Seq<usize>, fixed: usize) -> Result<
    (Shape, BodyV, Seq<(usize, usize)>),
    Refusal,
> {
    match shape_of(p, pcs) {
        Err(e) => Err(e),
        Ok(s) => match plan_around(p, pcs, fixed, s, around(p, pcs, s)) {
            Err(e) => Err(e),
            Ok((b, d)) => Ok((s, b, d)),
        },
    }
}


/// The Sym of a register, as it is held again.
fn copied(s: &Sym) -> (r: Sym)
    ensures
        r == *s,
{
    match s {
        Sym::Int { j, steady, expr } => Sym::Int { j: *j, steady: *steady, expr: share(expr) },
        Sym::Float(x) => Sym::Float(*x),
    }
}

/// Are two expressions the same?
fn same_expr(a: &Rc<Expr>, b: &Rc<Expr>) -> (r: bool)
    ensures
        r == (*a == *b),
    decreases *a,
{
    match (&**a, &**b) {
        (Expr::Reg(x), Expr::Reg(y)) => *x == *y,
        (Expr::J, Expr::J) => true,
        (Expr::Const(x), Expr::Const(y)) => *x == *y,
        (Expr::Plus(x, z), Expr::Plus(y, w)) => same_expr(x, y) && same_expr(z, w),
        (Expr::Minus(x, z), Expr::Minus(y, w)) => same_expr(x, y) && same_expr(z, w),
        (Expr::Times(x, z), Expr::Times(y, w)) => same_expr(x, y) && same_expr(z, w),
        (Expr::Shl(x, z), Expr::Shl(y, w)) => same_expr(x, y) && same_expr(z, w),
        _ => false,
    }
}

fn position(rs: &Vec<Reg>, r: Reg) -> (n: usize)
    ensures
        n == reg_at(rs@, r, 0),
        n <= rs@.len(),
{
    let mut i: usize = 0;
    while i < rs.len()
        invariant
            i <= rs@.len(),
            reg_at(rs@, r, 0) == reg_at(rs@, r, i as nat),
        decreases rs@.len() - i,
    {
        if rs[i] == r {
            return i;
        }
        i = i + 1;
    }
    i
}

fn array_position(xs: &Vec<Array>, r: Reg) -> (n: usize)
    ensures
        n == array_at(xs@, r, 0),
        n <= xs@.len(),
{
    let mut i: usize = 0;
    while i < xs.len()
        invariant
            i <= xs@.len(),
            array_at(xs@, r, 0) == array_at(xs@, r, i as nat),
        decreases xs@.len() - i,
    {
        if xs[i].reg == r {
            return i;
        }
        i = i + 1;
    }
    i
}

fn holds_pair(xs: &Vec<(usize, usize)>, x: (usize, usize)) -> (r: bool)
    ensures
        r == xs@.contains(x),
{
    let mut i: usize = 0;
    while i < xs.len()
        invariant
            i <= xs@.len(),
            forall|k: int| 0 <= k < i ==> #[trigger] xs@[k] != x,
        decreases xs@.len() - i,
    {
        if xs[i].0 == x.0 && xs[i].1 == x.1 {
            proof {
                assert(xs@[i as int] == x);
            }
            return true;
        }
        i = i + 1;
    }
    false
}

impl Body {
    fn new() -> (b: Body)
        ensures
            b@ == BodyV::empty(),
    {
        Body {
            syms: HashMap::new(),
            arrays: Vec::new(),
            broadcasts: Vec::new(),
            ops: Vec::new(),
            accesses: Vec::new(),
            lanes: 0,
            loads: Vec::new(),
            stores: Vec::new(),
        }
    }

    fn hold(&mut self, r: Reg, s: Sym)
        ensures
            final(self)@ == old(self)@.held(r, s),
    {
        self.syms.insert(r, s);
    }

    fn op(&mut self, o: VOp)
        ensures
            final(self)@ == old(self)@.op(o),
    {
        self.ops.push(o);
    }

    fn read_int(&self, l: &Around, r: Reg) -> (s: Option<Sym>)
        ensures
            s == int_in(self@, l@, r),
    {
        match self.syms.get(&r) {
            Some(s) => Some(copied(s)),
            None => if r == l.j {
                Some(Sym::Int { j: 1, steady: true, expr: Rc::new(Expr::J) })
            } else if !l.written.contains(&r) {
                Some(Sym::Int { j: 0, steady: true, expr: Rc::new(Expr::Reg(r)) })
            } else {
                None
            },
        }
    }

    fn read_float(&mut self, l: &Around, r: Reg) -> (x: Option<Lanes>)
        ensures
            match float_in(old(self)@, l@, r) {
                Some((b, v)) => x == Some(v) && final(self)@ == b,
                None => x is None,
            },
    {
        let known: Option<Option<Lanes>> = match self.syms.get(&r) {
            Some(Sym::Float(x)) => Some(Some(*x)),
            Some(_) => Some(None),
            None => None,
        };
        if let Some(x) = known {
            return x;
        }
        if r != l.j && !l.written.contains(&r) {
            let n: usize = position(&self.broadcasts, r);
            if n >= self.broadcasts.len() {
                self.broadcasts.push(r);
            }
            Some(Lanes::B(n as u8))
        } else {
            None
        }
    }

    fn array_reg(&self, l: &Around, r: Reg) -> (x: Option<Reg>)
        ensures
            x == array_reg(self@, l@, r),
    {
        match self.syms.get(&r) {
            Some(Sym::Int { expr, .. }) => match &**expr {
                Expr::Reg(src) => Some(*src),
                _ => None,
            },
            Some(Sym::Float(_)) => None,
            None => if !l.written.contains(&r) && r != l.j {
                Some(r)
            } else {
                None
            },
        }
    }

    fn array_of(&mut self, l: &Around, r: Reg, kind: u8, stored: bool) -> (x: Option<usize>)
        ensures
            match array_in(old(self)@, l@, r, kind, stored) {
                Some((b, v)) => x == Some(v) && final(self)@ == b,
                None => x is None,
            },
    {
        match self.array_reg(l, r) {
            None => None,
            Some(r) => {
                let n: usize = array_position(&self.arrays, r);
                if n >= self.arrays.len() {
                    self.arrays.push(Array { reg: r, kind, stored });
                    Some(n)
                } else if self.arrays[n].kind != kind {
                    None
                } else {
                    let a: Array = self.arrays[n];
                    self.arrays.set(n, Array { stored: a.stored || stored, ..a });
                    Some(n)
                }
            },
        }
    }

    fn index_of(&self, l: &Around, r: Reg) -> (x: Option<Rc<Expr>>)
        ensures
            x == index_in(self@, l@, r),
    {
        match self.read_int(l, r) {
            Some(Sym::Int { j, steady, expr }) => if j == 1 && steady {
                Some(expr)
            } else {
                None
            },
            _ => None,
        }
    }

    fn moved(&mut self, l: &Around, i: Instr) -> (r: Result<(), Refusal>)
        ensures
            answers(r, final(self)@, moved(old(self)@, l@, i)),
    {
        match self.read_int(l, i.b) {
            None => Err(Refusal::Carried),
            Some(s) => {
                let whole: bool = match &s {
                    Sym::Int { .. } => true,
                    Sym::Float(_) => false,
                };
                if whole {
                    self.op(VOp::Scalar(i));
                }
                self.hold(i.a, s);
                Ok(())
            },
        }
    }

    fn with_imm(&mut self, l: &Around, i: Instr) -> (r: Result<(), Refusal>)
        requires
            i.op == Op::AddIK || i.op == Op::SubIK || i.op == Op::ShlIK || i.op == Op::MulIK,
        ensures
            answers(r, final(self)@, with_imm(old(self)@, l@, i)),
    {
        match self.read_int(l, i.b) {
            None => Err(Refusal::Carried),
            Some(Sym::Float(_)) => Err(Refusal::NotInt),
            Some(Sym::Int { j, steady, expr }) => {
                if j != 0 && (i.op == Op::ShlIK || i.op == Op::MulIK) {
                    return Err(Refusal::Scaled);
                }
                let k: Rc<Expr> = Rc::new(Expr::Const(i.imm as i32 as i64 as u64));
                let e: Expr = match i.op {
                    Op::AddIK => Expr::Plus(expr, k),
                    Op::SubIK => Expr::Minus(expr, k),
                    Op::ShlIK => Expr::Shl(expr, k),
                    _ => Expr::Times(expr, k),
                };
                self.op(VOp::Scalar(i));
                self.hold(i.a, Sym::Int { j, steady, expr: Rc::new(e) });
                Ok(())
            },
        }
    }

    fn with_two(&mut self, l: &Around, i: Instr) -> (r: Result<(), Refusal>)
        requires
            i.op == Op::AddI || i.op == Op::SubI || i.op == Op::MulI,
        ensures
            answers(r, final(self)@, with_two(old(self)@, l@, i)),
    {
        let (jb, ib, eb) = match self.read_int(l, i.b) {
            None => return Err(Refusal::Carried),
            Some(Sym::Float(_)) => return Err(Refusal::NotInt),
            Some(Sym::Int { j, steady, expr }) => (j, steady, expr),
        };
        let (jc, ic, ec) = match self.read_int(l, i.c) {
            None => return Err(Refusal::Carried),
            Some(Sym::Float(_)) => return Err(Refusal::NotInt),
            Some(Sym::Int { j, steady, expr }) => (j, steady, expr),
        };
        if i.op == Op::MulI && !(jb == 0 && jc == 0) {
            return Err(Refusal::Scaled);
        }
        let j: i64 = match i.op {
            Op::AddI => jb.wrapping_add(jc),
            Op::SubI => jb.wrapping_sub(jc),
            _ => 0,
        };
        let e: Expr = match i.op {
            Op::AddI => Expr::Plus(eb, ec),
            Op::SubI => Expr::Minus(eb, ec),
            _ => Expr::Times(eb, ec),
        };
        self.op(VOp::Scalar(i));
        self.hold(i.a, Sym::Int { j, steady: ib && ic, expr: Rc::new(e) });
        Ok(())
    }

    fn with_floats(&mut self, l: &Around, i: Instr) -> (r: Result<(), Refusal>)
        requires
            i.op == Op::MulF || i.op == Op::AddF || i.op == Op::SubF || i.op == Op::DivF,
        ensures
            answers(r, final(self)@, with_floats(old(self)@, l@, i)),
    {
        let a: Lanes = match self.read_float(l, i.b) {
            None => return Err(Refusal::NotFloat),
            Some(x) => x,
        };
        let b: Lanes = match self.read_float(l, i.c) {
            None => return Err(Refusal::NotFloat),
            Some(x) => x,
        };
        match (a, b) {
            (Lanes::B(_), Lanes::B(_)) => return Err(Refusal::Invariant),
            _ => {},
        }
        if self.lanes >= LANES {
            return Err(Refusal::Lanes);
        }
        let op: FloatOp = match i.op {
            Op::MulF => FloatOp::Mul,
            Op::AddF => FloatOp::Add,
            Op::SubF => FloatOp::Sub,
            _ => FloatOp::Div,
        };
        let lane: u8 = self.lanes;
        self.lanes = lane + 1;
        self.op(VOp::Float { op, lane, a, b });
        self.hold(i.a, Sym::Float(Lanes::V(lane)));
        Ok(())
    }

    fn loaded(&mut self, l: &Around, i: Instr, kind: u8) -> (r: Result<(), Refusal>)
        ensures
            answers(r, final(self)@, loaded(old(self)@, l@, i, kind)),
    {
        let array: usize = match self.array_of(l, i.b, kind, false) {
            None => return Err(Refusal::Array),
            Some(n) => n,
        };
        let expr: Rc<Expr> = match self.index_of(l, i.c) {
            None => return Err(Refusal::Index),
            Some(e) => e,
        };
        if self.lanes >= LANES {
            return Err(Refusal::Lanes);
        }
        let lane: u8 = self.lanes;
        self.lanes = lane + 1;
        self.op(VOp::Load { lane, array, idx: i.c });
        self.accesses.push(Access { idx: i.c, array });
        self.loads.push((array, expr));
        self.hold(i.a, Sym::Float(Lanes::V(lane)));
        Ok(())
    }

    fn with_store(&mut self, p: &Program, l: &Around, i: Instr) -> (r: Result<(), Refusal>)
        ensures
            answers(r, final(self)@, with_store(*p, old(self)@, l@, i)),
    {
        match prim_at(p, i.imm) {
            Some(Prim::StSetArray) => {},
            _ => return Err(Refusal::Primitive),
        }
        let array: usize = match self.array_of(l, i.b, Kind::MutArray.to_byte(), true) {
            None => return Err(Refusal::Array),
            Some(n) => n,
        };
        let idx: Reg = i.b.wrapping_add(1);
        let expr: Rc<Expr> = match self.index_of(l, idx) {
            None => return Err(Refusal::Index),
            Some(e) => e,
        };
        let val: Lanes = match self.read_float(l, i.b.wrapping_add(2)) {
            None => return Err(Refusal::NotFloat),
            Some(x) => x,
        };
        self.op(VOp::Store { array, idx, val });
        self.accesses.push(Access { idx, array });
        self.stores.push((array, expr));
        self.hold(i.a, Sym::Int { j: 0, steady: true, expr: Rc::new(Expr::Const(0)) });
        Ok(())
    }

    fn read_one(&mut self, p: &Program, l: &Around, i: Instr) -> (r: Result<(), Refusal>)
        ensures
            answers(r, final(self)@, read_one(*p, old(self)@, l@, i)),
    {
        match i.op {
            Op::Move => self.moved(l, i),
            Op::Const => match immediate(p, i.imm) {
                None => Err(Refusal::Constant),
                Some(w) => {
                    self.hold(i.a, Sym::Int { j: 0, steady: true, expr: Rc::new(Expr::Const(w)) });
                    self.op(VOp::Const(i.a, w));
                    Ok(())
                },
            },
            Op::AddIK | Op::SubIK | Op::ShlIK | Op::MulIK => self.with_imm(l, i),
            Op::AddI | Op::SubI | Op::MulI => self.with_two(l, i),
            Op::MulF | Op::AddF | Op::SubF | Op::DivF => self.with_floats(l, i),
            Op::Prim2 => match prim_at(p, i.imm) {
                Some(Prim::StGetArray) => self.loaded(l, i, Kind::MutArray.to_byte()),
                Some(Prim::ArrayGet) => self.loaded(l, i, Kind::Array.to_byte()),
                _ => Err(Refusal::Primitive),
            },
            Op::Prim => if i.c == 3 {
                self.with_store(p, l, i)
            } else {
                Err(Refusal::Instruction)
            },
            _ => Err(Refusal::Instruction),
        }
    }
}

/// A step done in place is the one that was to be done.
pub open spec fn answers(r: Result<(), Refusal>, b: BodyV, want: Result<BodyV, Refusal>) -> bool {
    match want {
        Ok(w) => r == Ok::<(), Refusal>(()) && b == w,
        Err(e) => r == Err::<(), Refusal>(e),
    }
}

fn read_body(p: &Program, l: &Around, pcs: &[usize], from: usize, to: usize) -> (r: Result<Body, Refusal>)
    requires
        from <= to <= pcs@.len(),
        forall|k: int| 0 <= k < pcs@.len() ==> #[trigger] pcs@[k] < p.code@.len(),
    ensures
        match (r, read_all(*p, l@, pcs@.subrange(from as int, to as int), (to - from) as nat)) {
            (Ok(b), Ok(w)) => b@ == w,
            (Err(e), Err(w)) => e == w,
            _ => false,
        },
{
    let ghost body = pcs@.subrange(from as int, to as int);
    let mut b: Body = Body::new();
    let mut i: usize = from;
    let mut failed: Option<Refusal> = None;
    while i < to
        invariant
            from <= i <= to <= pcs@.len(),
            body == pcs@.subrange(from as int, to as int),
            forall|k: int| 0 <= k < pcs@.len() ==> #[trigger] pcs@[k] < p.code@.len(),
            match failed {
                None => read_all(*p, l@, body, (i - from) as nat) == Ok::<BodyV, Refusal>(b@),
                Some(e) => read_all(*p, l@, body, (i - from) as nat) == Err::<BodyV, Refusal>(e),
            },
        decreases to - i,
    {
        proof {
            assert(body[i - from] == pcs@[i as int]);
        }
        if failed.is_none() {
            match b.read_one(p, l, p.code[pcs[i]]) {
                Ok(()) => {},
                Err(e) => {
                    failed = Some(e);
                },
            }
        }
        i = i + 1;
    }
    match failed {
        None => Ok(b),
        Some(e) => Err(e),
    }
}

fn written_in(p: &Program, pcs: &[usize], from: usize, to: usize) -> (r: HashSet<Reg>)
    requires
        from <= to <= pcs@.len(),
        forall|k: int| 0 <= k < pcs@.len() ==> #[trigger] pcs@[k] < p.code@.len(),
    ensures
        r@ == all_written(*p, pcs@.subrange(from as int, to as int), (to - from) as nat),
{
    let ghost body = pcs@.subrange(from as int, to as int);
    let mut r: HashSet<Reg> = HashSet::new();
    let mut i: usize = from;
    while i < to
        invariant
            from <= i <= to <= pcs@.len(),
            body == pcs@.subrange(from as int, to as int),
            forall|k: int| 0 <= k < pcs@.len() ==> #[trigger] pcs@[k] < p.code@.len(),
            r@ == all_written(*p, body, (i - from) as nat),
        decreases to - i,
    {
        proof {
            assert(body[i - from] == pcs@[i as int]);
        }
        if let Some(x) = writes(&p.code[pcs[i]]) {
            r.insert(x);
        }
        i = i + 1;
    }
    r
}

/// One store against every load.
fn keep_apart(d: &mut Vec<(usize, usize)>, s: &(usize, Rc<Expr>), loads: &Vec<(usize, Rc<Expr>)>) -> (r: Result<
    (),
    Refusal,
>)
    ensures
        match apart(old(d)@, *s, loads@, loads@.len()) {
            Ok(w) => r == Ok::<(), Refusal>(()) && final(d)@ == w,
            Err(e) => r == Err::<(), Refusal>(e),
        },
{
    let ghost from = d@;
    let mut failed: bool = false;
    let mut i: usize = 0;
    while i < loads.len()
        invariant
            i <= loads@.len(),
            match apart(from, *s, loads@, i as nat) {
                Ok(w) => !failed && d@ == w,
                Err(e) => failed && e == Refusal::Dependence,
            },
        decreases loads@.len() - i,
    {
        let la: usize = loads[i].0;
        if !failed && !same_expr(&s.1, &loads[i].1) {
            if la == s.0 {
                failed = true;
            } else if !holds_pair(d, (s.0, la)) && !holds_pair(d, (la, s.0)) {
                d.push((s.0, la));
            }
        }
        i = i + 1;
    }
    if failed {
        Err(Refusal::Dependence)
    } else {
        Ok(())
    }
}

fn distinct_of(stores: &Vec<(usize, Rc<Expr>)>, loads: &Vec<(usize, Rc<Expr>)>) -> (r: Result<
    Vec<(usize, usize)>,
    Refusal,
>)
    ensures
        match (r, all_apart(stores@, loads@, stores@.len())) {
            (Ok(d), Ok(w)) => d@ == w,
            (Err(e), Err(w)) => e == w,
            _ => false,
        },
{
    let mut d: Vec<(usize, usize)> = Vec::new();
    let mut failed: Option<Refusal> = None;
    let mut i: usize = 0;
    while i < stores.len()
        invariant
            i <= stores@.len(),
            match all_apart(stores@, loads@, i as nat) {
                Ok(w) => failed is None && d@ == w,
                Err(e) => failed == Some(e),
            },
        decreases stores@.len() - i,
    {
        if failed.is_none() {
            match keep_apart(&mut d, &stores[i], loads) {
                Ok(()) => {},
                Err(e) => {
                    failed = Some(e);
                },
            }
        }
        i = i + 1;
    }
    match failed {
        None => Ok(d),
        Some(e) => Err(e),
    }
}

fn are_fixed(b: &Body, j: Reg, hi: Operand, fixed: usize) -> (r: bool)
    ensures
        r == all_fixed(b@, j, hi, fixed),
{
    let mut i: usize = 0;
    while i < b.arrays.len()
        invariant
            i <= b.arrays@.len(),
            forall|k: int| 0 <= k < i ==> (#[trigger] b@.arrays[k]).reg < fixed,
        decreases b.arrays@.len() - i,
    {
        if b.arrays[i].reg as usize >= fixed {
            proof {
                assert(!(b@.arrays[i as int].reg < fixed));
            }
            return false;
        }
        i = i + 1;
    }
    let mut i: usize = 0;
    while i < b.accesses.len()
        invariant
            i <= b.accesses@.len(),
            forall|k: int| 0 <= k < i ==> (#[trigger] b@.accesses[k]).idx < fixed,
        decreases b.accesses@.len() - i,
    {
        if b.accesses[i].idx as usize >= fixed {
            proof {
                assert(!(b@.accesses[i as int].idx < fixed));
            }
            return false;
        }
        i = i + 1;
    }
    let mut i: usize = 0;
    while i < b.broadcasts.len()
        invariant
            i <= b.broadcasts@.len(),
            forall|k: int| 0 <= k < i ==> #[trigger] b@.broadcasts[k] < fixed,
        decreases b.broadcasts@.len() - i,
    {
        if b.broadcasts[i] as usize >= fixed {
            proof {
                assert(!(b@.broadcasts[i as int] < fixed));
            }
            return false;
        }
        i = i + 1;
    }
    let end: bool = match hi {
        Operand::Reg(h) => (h as usize) < fixed,
        Operand::Imm(_) => true,
    };
    end && (j as usize) < fixed
}

fn shape(p: &Program, pcs: &[usize]) -> (r: Result<Shape, Refusal>)
    requires
        forall|k: int| 0 <= k < pcs@.len() ==> #[trigger] pcs@[k] < p.code@.len(),
    ensures
        r == shape_of(*p, pcs@),
{
    if pcs.len() < 3 {
        return Err(Refusal::Short);
    }
    let head: Instr = p.code[pcs[0]];
    let over: bool = match Cond::from_byte(head.c as u32) {
        Some(Cond::Ge) => true,
        _ => false,
    };
    let (j, hi) = match head.op {
        Op::BrI if over => (head.a, Operand::Reg(head.b)),
        Op::BrIK if over => (head.a, Operand::Imm(head.b as i8 as i64)),
        _ => return Err(Refusal::Header),
    };
    let last: Instr = p.code[pcs[pcs.len() - 1]];
    let bump: Instr = p.code[pcs[pcs.len() - 2]];
    if last.op != Op::Jump || last.imm as usize != pcs[0] || bump.op != Op::AddIK || bump.a != j || bump.b != j
        || bump.imm != 1 {
        return Err(Refusal::End);
    }
    let to: usize = head.imm as usize;
    // The header branches over the loop's exit code to the body proper.
    if to <= pcs[0] || to - pcs[0] > pcs.len() - 2 {
        return Err(Refusal::Start);
    }
    Ok(Shape { j, hi, start: to - pcs[0] })
}

/// [`plan`], saying which rule refused.
pub fn plan_or(program: &Program, pcs: &[usize], fixed: usize) -> (r: Result<Plan, Refusal>)
    requires
        forall|k: int| 0 <= k < pcs@.len() ==> #[trigger] pcs@[k] < program.code@.len(),
    ensures
        match planned(*program, pcs@, fixed) {
            Ok((s, b, d)) => r is Ok && made_of(r->Ok_0, s, b, d, pcs@.len()),
            Err(e) => r == Err::<Plan, Refusal>(e),
        },
{
    let s: Shape = match shape(program, pcs) {
        Ok(s) => s,
        Err(e) => return Err(e),
    };
    let end: usize = pcs.len() - 2;
    let l: Around = Around { j: s.j, written: written_in(program, pcs, s.start, end) };
    proof {
        assert(around(*program, pcs@, s) == l@);
    }
    if l.written.contains(&s.j) {
        return Err(Refusal::Induction);
    }
    if let Operand::Reg(h) = s.hi {
        if l.written.contains(&h) {
            return Err(Refusal::Bound);
        }
    }
    let b: Body = match read_body(program, &l, pcs, s.start, end) {
        Ok(b) => b,
        Err(e) => return Err(e),
    };
    if b.arrays.len() == 0 || b.stores.len() == 0 {
        return Err(Refusal::Stores);
    }
    let distinct: Vec<(usize, usize)> = match distinct_of(&b.stores, &b.loads) {
        Ok(d) => d,
        Err(e) => return Err(e),
    };
    if !are_fixed(&b, s.j, s.hi, fixed) {
        return Err(Refusal::Fixed);
    }
    Ok(
        Plan {
            j: s.j,
            hi: s.hi,
            arrays: b.arrays,
            broadcasts: b.broadcasts,
            ops: b.ops,
            accesses: b.accesses,
            distinct,
            lanes: b.lanes,
            steps: pcs.len() as u32,
        },
    )
}

/// The plan for the loop whose header is at `pcs[0]` and whose jump back is at the
/// last of them, if it has one.
pub fn plan(program: &Program, pcs: &[usize], fixed: usize) -> (r: Option<Plan>)
    requires
        forall|k: int| 0 <= k < pcs@.len() ==> #[trigger] pcs@[k] < program.code@.len(),
    ensures
        match planned(*program, pcs@, fixed) {
            Ok((s, b, d)) => r is Some && made_of(r->0, s, b, d, pcs@.len()),
            Err(_) => r is None,
        },
{
    match plan_or(program, pcs, fixed) {
        Ok(p) => Some(p),
        Err(_) => None,
    }
}

/// What an expression is worth, with the invariants' values and `j`'s.
pub open spec fn value(e: Expr, regs: spec_fn(Reg) -> int, j: int) -> int
    decreases e,
{
    match e {
        Expr::Reg(r) => regs(r),
        Expr::J => j,
        Expr::Const(w) => w as int,
        Expr::Plus(a, b) => value(*a, regs, j) + value(*b, regs, j),
        Expr::Minus(a, b) => value(*a, regs, j) - value(*b, regs, j),
        Expr::Times(a, b) => value(*a, regs, j) * value(*b, regs, j),
        Expr::Shl(a, b) => value(*a, regs, j) * shift(value(*b, regs, j)),
    }
}

/// What a shift by `k` multiplies by.
pub open spec fn shift(k: int) -> int {
    vstd::arithmetic::power2::pow2((k % 64) as nat) as int
}

/// Equal as words of 64 bits.
pub open spec fn same_word(a: int, b: int) -> bool {
    exists|k: int| a == b + #[trigger] (k * 0x1_0000_0000_0000_0000)
}

/// One iteration on, the expression is worth `c` more.
pub open spec fn moves_by(e: Expr, c: int) -> bool {
    forall|regs: spec_fn(Reg) -> int, j: int| #[trigger]
        same_word(value(e, regs, j + 1), value(e, regs, j) + c)
}

/// Every integer a register holds moves by the times it contains `j`.
pub open spec fn counts_right(b: BodyV) -> bool {
    &&& forall|r: Reg| #[trigger] b.syms.contains_key(r) ==> sym_right(b.syms[r])
    &&& forall|k: int| 0 <= k < b.loads.len() ==> moves_by(*(#[trigger] b.loads[k]).1, 1)
    &&& forall|k: int| 0 <= k < b.stores.len() ==> moves_by(*(#[trigger] b.stores[k]).1, 1)
}

pub open spec fn sym_right(s: Sym) -> bool {
    match s {
        Sym::Int { j, expr, .. } => moves_by(*expr, j as int),
        Sym::Float(_) => true,
    }
}

proof fn lemma_same(a: int, b: int, k: int)
    requires
        a == b + k * 0x1_0000_0000_0000_0000,
    ensures
        same_word(a, b),
{
}

proof fn lemma_int_right(b: BodyV, l: AroundV, r: Reg)
    requires
        counts_right(b),
    ensures
        match int_in(b, l, r) {
            Some(s) => sym_right(s),
            None => true,
        },
{
    if !b.syms.contains_key(r) {
        assert forall|regs: spec_fn(Reg) -> int, j: int| #[trigger]
            same_word(value(Expr::J, regs, j + 1), value(Expr::J, regs, j) + 1) by {
            lemma_same(j + 1, j + 1, 0);
        }
        assert forall|regs: spec_fn(Reg) -> int, j: int| #[trigger]
            same_word(value(Expr::Reg(r), regs, j + 1), value(Expr::Reg(r), regs, j) + 0) by {
            lemma_same(regs(r), regs(r), 0);
        }
    }
}

proof fn lemma_const_right(w: u64)
    ensures
        moves_by(Expr::Const(w), 0),
{
    assert forall|regs: spec_fn(Reg) -> int, j: int| #[trigger]
        same_word(value(Expr::Const(w), regs, j + 1), value(Expr::Const(w), regs, j) + 0) by {
        lemma_same(w as int, w as int, 0);
    }
}

proof fn lemma_plus_right(a: Rc<Expr>, b: Rc<Expr>, ca: int, cb: int, c: int, k: int)
    requires
        moves_by(*a, ca),
        moves_by(*b, cb),
        ca + cb == c + k * 0x1_0000_0000_0000_0000,
    ensures
        moves_by(Expr::Plus(a, b), c),
{
    let m: int = 0x1_0000_0000_0000_0000;
    assert forall|regs: spec_fn(Reg) -> int, j: int| #[trigger]
        same_word(value(Expr::Plus(a, b), regs, j + 1), value(Expr::Plus(a, b), regs, j) + c) by {
        assert(same_word(value(*a, regs, j + 1), value(*a, regs, j) + ca));
        assert(same_word(value(*b, regs, j + 1), value(*b, regs, j) + cb));
        let x = choose|x: int| value(*a, regs, j + 1) == value(*a, regs, j) + ca + #[trigger] (x * 0x1_0000_0000_0000_0000);
        let y = choose|y: int| value(*b, regs, j + 1) == value(*b, regs, j) + cb + #[trigger] (y * 0x1_0000_0000_0000_0000);
        lemma_same(
            value(*a, regs, j + 1) + value(*b, regs, j + 1),
            value(*a, regs, j) + value(*b, regs, j) + c,
            x + y + k,
        );
    }
}

proof fn lemma_minus_right(a: Rc<Expr>, b: Rc<Expr>, ca: int, cb: int, c: int, k: int)
    requires
        moves_by(*a, ca),
        moves_by(*b, cb),
        ca - cb == c + k * 0x1_0000_0000_0000_0000,
    ensures
        moves_by(Expr::Minus(a, b), c),
{
    assert forall|regs: spec_fn(Reg) -> int, j: int| #[trigger]
        same_word(value(Expr::Minus(a, b), regs, j + 1), value(Expr::Minus(a, b), regs, j) + c) by {
        assert(same_word(value(*a, regs, j + 1), value(*a, regs, j) + ca));
        assert(same_word(value(*b, regs, j + 1), value(*b, regs, j) + cb));
        let x = choose|x: int| value(*a, regs, j + 1) == value(*a, regs, j) + ca + #[trigger] (x * 0x1_0000_0000_0000_0000);
        let y = choose|y: int| value(*b, regs, j + 1) == value(*b, regs, j) + cb + #[trigger] (y * 0x1_0000_0000_0000_0000);
        lemma_same(
            value(*a, regs, j + 1) - value(*b, regs, j + 1),
            value(*a, regs, j) - value(*b, regs, j) + c,
            x - y + k,
        );
    }
}

proof fn lemma_times_right(a: Rc<Expr>, b: Rc<Expr>)
    requires
        moves_by(*a, 0),
        moves_by(*b, 0),
    ensures
        moves_by(Expr::Times(a, b), 0),
{
    let m: int = 0x1_0000_0000_0000_0000;
    assert forall|regs: spec_fn(Reg) -> int, j: int| #[trigger]
        same_word(value(Expr::Times(a, b), regs, j + 1), value(Expr::Times(a, b), regs, j) + 0) by {
        let (a0, a1) = (value(*a, regs, j), value(*a, regs, j + 1));
        let (b0, b1) = (value(*b, regs, j), value(*b, regs, j + 1));
        assert(same_word(a1, a0 + 0));
        assert(same_word(b1, b0 + 0));
        let x = choose|x: int| a1 == a0 + 0 + #[trigger] (x * 0x1_0000_0000_0000_0000);
        let y = choose|y: int| b1 == b0 + 0 + #[trigger] (y * 0x1_0000_0000_0000_0000);
        assert(a1 * b1 == a0 * b0 + (x * b0 + a0 * y + x * y * m) * m) by (nonlinear_arith)
            requires
                a1 == a0 + x * m,
                b1 == b0 + y * m,
        ;
        lemma_same(a1 * b1, a0 * b0, x * b0 + a0 * y + x * y * m);
    }
}

proof fn lemma_shl_right(a: Rc<Expr>, w: u64)
    requires
        moves_by(*a, 0),
    ensures
        moves_by(Expr::Shl(a, Rc::new(Expr::Const(w))), 0),
{
    let m: int = 0x1_0000_0000_0000_0000;
    let e = Expr::Shl(a, Rc::new(Expr::Const(w)));
    assert forall|regs: spec_fn(Reg) -> int, j: int| #[trigger]
        same_word(value(e, regs, j + 1), value(e, regs, j) + 0) by {
        let (a0, a1) = (value(*a, regs, j), value(*a, regs, j + 1));
        let s = shift(w as int);
        assert(value(Expr::Const(w), regs, j) == w as int && value(Expr::Const(w), regs, j + 1) == w as int);
        assert(value(e, regs, j) == a0 * s && value(e, regs, j + 1) == a1 * s);
        assert(same_word(a1, a0 + 0));
        let x = choose|x: int| a1 == a0 + 0 + #[trigger] (x * 0x1_0000_0000_0000_0000);
        assert(a1 * s == a0 * s + (x * s) * m) by (nonlinear_arith)
            requires
                a1 == a0 + x * m,
        ;
        lemma_same(a1 * s, a0 * s, x * s);
    }
}

proof fn lemma_imm_right(b: BodyV, l: AroundV, i: Instr)
    requires
        counts_right(b),
        with_imm(b, l, i) is Ok,
        i.op == Op::AddIK || i.op == Op::SubIK || i.op == Op::ShlIK || i.op == Op::MulIK,
    ensures
        counts_right(with_imm(b, l, i)->Ok_0),
{
    lemma_int_right(b, l, i.b);
    let w = imm_word(i);
    lemma_const_right(w);
    if let Some(Sym::Int { j, expr, .. }) = int_in(b, l, i.b) {
        let k = Rc::new(Expr::Const(w));
        if i.op == Op::AddIK {
            lemma_plus_right(expr, k, j as int, 0, j as int, 0);
        } else if i.op == Op::SubIK {
            lemma_minus_right(expr, k, j as int, 0, j as int, 0);
        } else if i.op == Op::ShlIK {
            lemma_shl_right(expr, w);
        } else {
            lemma_times_right(expr, k);
        }
    }
}

proof fn lemma_two_right(b: BodyV, l: AroundV, i: Instr)
    requires
        counts_right(b),
        with_two(b, l, i) is Ok,
        i.op == Op::AddI || i.op == Op::SubI || i.op == Op::MulI,
    ensures
        counts_right(with_two(b, l, i)->Ok_0),
{
    lemma_int_right(b, l, i.b);
    lemma_int_right(b, l, i.c);
    if let Some(Sym::Int { j: jb, expr: eb, .. }) = int_in(b, l, i.b) {
        if let Some(Sym::Int { j: jc, expr: ec, .. }) = int_in(b, l, i.c) {
            if i.op == Op::AddI {
                let c: i64 = jb.wrapping_add(jc);
                let k: int = if jb + jc > 0x7fff_ffff_ffff_ffff {
                    1
                } else if jb + jc < -0x8000_0000_0000_0000 {
                    -1
                } else {
                    0
                };
                lemma_plus_right(eb, ec, jb as int, jc as int, c as int, k);
            } else if i.op == Op::SubI {
                let c: i64 = jb.wrapping_sub(jc);
                let k: int = if jb - jc > 0x7fff_ffff_ffff_ffff {
                    1
                } else if jb - jc < -0x8000_0000_0000_0000 {
                    -1
                } else {
                    0
                };
                lemma_minus_right(eb, ec, jb as int, jc as int, c as int, k);
            } else {
                lemma_times_right(eb, ec);
            }
        }
    }
}

proof fn lemma_one_right(p: Program, b: BodyV, l: AroundV, i: Instr)
    requires
        counts_right(b),
        read_one(p, b, l, i) is Ok,
    ensures
        counts_right(read_one(p, b, l, i)->Ok_0),
{
    lemma_int_right(b, l, i.b);
    lemma_int_right(b, l, i.c);
    lemma_const_right(0);
    match i.op {
        Op::Const => {
            lemma_const_right(word_of(p, i.imm)->0);
        },
        Op::AddIK | Op::SubIK | Op::ShlIK | Op::MulIK => {
            lemma_imm_right(b, l, i);
        },
        Op::AddI | Op::SubI | Op::MulI => {
            lemma_two_right(b, l, i);
        },
        Op::Prim2 => {
            let kind = if prim_of(p, i.imm) == Some(Prim::StGetArray) {
                Kind::MutArray.byte()
            } else {
                Kind::Array.byte()
            };
            let b1 = (array_in(b, l, i.b, kind, false)->0).0;
            assert(counts_right(b1));
            lemma_int_right(b1, l, i.c);
        },
        Op::Prim => {
            let b1 = (array_in(b, l, i.b, Kind::MutArray.byte(), true)->0).0;
            assert(counts_right(b1));
            lemma_int_right(b1, l, i.b.wrapping_add(1));
        },
        _ => {},
    }
}

proof fn lemma_all_right(p: Program, l: AroundV, pcs: Seq<usize>, n: nat)
    ensures
        match read_all(p, l, pcs, n) {
            Ok(b) => counts_right(b),
            Err(_) => true,
        },
    decreases n,
{
    if n > 0 && n <= pcs.len() {
        lemma_all_right(p, l, pcs, (n - 1) as nat);
        if let Ok(b) = read_all(p, l, pcs, (n - 1) as nat) {
            if read_one(p, b, l, p.code@[pcs[n - 1] as int]) is Ok {
                lemma_one_right(p, b, l, p.code@[pcs[n - 1] as int]);
            }
        }
    }
}

/// Stride one: one iteration on, the index of every access of a planned loop is the
/// next one, so the element after is the next word.
pub proof fn every_access_strides_by_one(p: Program, pcs: Seq<usize>, fixed: usize)
    ensures
        match planned(p, pcs, fixed) {
            Ok((_, b, _)) => {
                &&& forall|k: int| 0 <= k < b.loads.len() ==> moves_by(*(#[trigger] b.loads[k]).1, 1)
                &&& forall|k: int| 0 <= k < b.stores.len() ==> moves_by(*(#[trigger] b.stores[k]).1, 1)
            },
            Err(_) => true,
        },
{
    if let Ok(s) = shape_of(p, pcs) {
        lemma_all_right(p, around(p, pcs, s), body_of(s, pcs), body_of(s, pcs).len());
    }
}

/// A load and a store that the vector loop may do together: they are at one index, or
/// they are of two arrays that are checked to be two objects.
pub open spec fn harmless(s: (usize, Rc<Expr>), l: (usize, Rc<Expr>), d: Seq<(usize, usize)>) -> bool {
    s.1 == l.1 || (s.0 != l.0 && (d.contains((s.0, l.0)) || d.contains((l.0, s.0))))
}

proof fn lemma_apart(
    from: Seq<(usize, usize)>,
    s: (usize, Rc<Expr>),
    loads: Seq<(usize, Rc<Expr>)>,
    n: nat,
)
    requires
        n <= loads.len(),
    ensures
        match apart(from, s, loads, n) {
            Ok(d) => {
                &&& forall|x: (usize, usize)| from.contains(x) ==> #[trigger] d.contains(x)
                &&& forall|k: int| 0 <= k < n ==> harmless(s, #[trigger] loads[k], d)
            },
            Err(_) => true,
        },
    decreases n,
{
    if n > 0 {
        lemma_apart(from, s, loads, (n - 1) as nat);
        if let Ok(d) = apart(from, s, loads, (n - 1) as nat) {
            let l = loads[n - 1];
            let e = d.push((s.0, l.0));
            assert(e.last() == (s.0, l.0));
            assert(e.contains((s.0, l.0)));
            assert forall|x: (usize, usize)| d.contains(x) implies #[trigger] e.contains(x) by {
                let k = choose|k: int| 0 <= k < d.len() && d[k] == x;
                assert(e[k] == x);
            }
        }
    }
}

proof fn lemma_all_apart(stores: Seq<(usize, Rc<Expr>)>, loads: Seq<(usize, Rc<Expr>)>, n: nat)
    requires
        n <= stores.len(),
    ensures
        match all_apart(stores, loads, n) {
            Ok(d) => forall|i: int, k: int|
                0 <= i < n && 0 <= k < loads.len() ==> harmless(#[trigger] stores[i], #[trigger] loads[k], d),
            Err(_) => true,
        },
    decreases n,
{
    if n > 0 {
        lemma_all_apart(stores, loads, (n - 1) as nat);
        if let Ok(d) = all_apart(stores, loads, (n - 1) as nat) {
            lemma_apart(d, stores[n - 1], loads, loads.len());
        }
    }
}

/// Nothing is carried through the arrays from one lane to the other: of every load and
/// store of a planned loop, either both are at one index, or their arrays are listed as
/// two that must be two objects.
pub proof fn no_lane_reads_what_the_other_wrote(p: Program, pcs: Seq<usize>, fixed: usize)
    ensures
        match planned(p, pcs, fixed) {
            Ok((_, b, d)) => forall|i: int, k: int|
                0 <= i < b.stores.len() && 0 <= k < b.loads.len() ==> harmless(
                    #[trigger] b.stores[i],
                    #[trigger] b.loads[k],
                    d,
                ),
            Err(_) => true,
        },
{
    if let Ok((_, b, _)) = planned(p, pcs, fixed) {
        lemma_all_apart(b.stores, b.loads, b.stores.len());
    }
}

proof fn lemma_lanes(p: Program, l: AroundV, pcs: Seq<usize>, n: nat)
    ensures
        match read_all(p, l, pcs, n) {
            Ok(b) => b.lanes <= LANES,
            Err(_) => true,
        },
    decreases n,
{
    if n > 0 && n <= pcs.len() {
        lemma_lanes(p, l, pcs, (n - 1) as nat);
    }
}

/// A planned loop stores something, uses no more vector registers than there are, and
/// works on registers that are held all through it; it writes neither the register that
/// counts nor the bound.
pub proof fn a_plan_fits(p: Program, pcs: Seq<usize>, fixed: usize)
    ensures
        match planned(p, pcs, fixed) {
            Ok((s, b, _)) => {
                &&& b.stores.len() > 0
                &&& b.lanes <= LANES
                &&& all_fixed(b, s.j, s.hi, fixed)
                &&& !around(p, pcs, s).written.contains(s.j)
                &&& s.hi is Reg ==> !around(p, pcs, s).written.contains(s.hi->Reg_0)
            },
            Err(_) => true,
        },
{
    if let Ok(s) = shape_of(p, pcs) {
        lemma_lanes(p, around(p, pcs, s), body_of(s, pcs), body_of(s, pcs).len());
    }
}

} // verus!
