//! The bytecode a code generator reads.

use crate::terms::prim::Prim;
use vstd::prelude::*;

verus! {

/// A register of the bytecode.
pub type Reg = u8;

/// Where an instruction is, among a program's.
pub type Pc = u32;

/// What an instruction does. `r` is the register file, `a`, `b` and `c` the
/// registers an instruction names, and `imm` its immediate.
#[derive(Debug, Clone, Copy, PartialEq, Eq, Structural)]
pub enum Op {
    /// `r[a] = r[b]`.
    Move,
    /// `r[a] = ` constant `imm`.
    Const,
    /// `r[a] = r[b] + r[c]`, of integers, and so on down.
    AddI,
    SubI,
    MulI,
    /// `r[a] = r[b] + imm`, of integers, and so on down.
    AddIK,
    SubIK,
    MulIK,
    ShlIK,
    /// `r[a] = r[b] + r[c]`, of floats, and so on down.
    AddF,
    SubF,
    MulF,
    DivF,
    /// `r[a] = ` primitive `imm` of the `c` registers from `b`.
    Prim,
    /// `r[a] = ` primitive `imm` of `r[b]` and `r[c]`.
    Prim2,
    /// To `imm` unless `r[a]` and `r[b]` compare as `c` says.
    BrI,
    /// To `imm` unless `r[a]` and `b` compare as `c` says.
    BrIK,
    /// To `imm`.
    Jump,
    /// Anything else: a call, an allocation, a return.
    Other,
}

#[derive(Debug, Clone, Copy, PartialEq, Eq, Structural)]
pub struct Instr {
    pub op: Op,
    pub a: Reg,
    pub b: Reg,
    pub c: Reg,
    pub imm: u32,
}

/// A comparison.
#[derive(Debug, Clone, Copy, PartialEq, Eq, Structural)]
pub enum Cond {
    Eq,
    Ne,
    Lt,
    Le,
    Gt,
    Ge,
}

impl Cond {
    /// The comparison an instruction's byte says.
    pub open spec fn of_byte(b: u32) -> Option<Cond> {
        if b == 0 {
            Some(Cond::Eq)
        } else if b == 1 {
            Some(Cond::Ne)
        } else if b == 2 {
            Some(Cond::Lt)
        } else if b == 3 {
            Some(Cond::Le)
        } else if b == 4 {
            Some(Cond::Gt)
        } else if b == 5 {
            Some(Cond::Ge)
        } else {
            None
        }
    }

    pub fn from_byte(b: u32) -> (r: Option<Cond>)
        ensures
            r == Self::of_byte(b),
    {
        match b {
            0 => Some(Cond::Eq),
            1 => Some(Cond::Ne),
            2 => Some(Cond::Lt),
            3 => Some(Cond::Le),
            4 => Some(Cond::Gt),
            5 => Some(Cond::Ge),
            _ => None,
        }
    }
}

/// The second operand of an integer instruction.
#[derive(Debug, Clone, Copy, PartialEq, Eq, Structural)]
pub enum Operand {
    Reg(Reg),
    Imm(i64),
}

#[derive(Debug, Clone, Copy, PartialEq, Eq, Structural)]
pub enum FloatOp {
    Add,
    Sub,
    Mul,
    Div,
}

/// What the code generator reads of a bytecode program.
pub struct Program {
    pub code: Vec<Instr>,
    pub prims: Vec<Prim>,
    /// Of each constant, the word it is, where it is not an object.
    pub words: Vec<Option<u64>>,
}

/// The word constant `k` is, if it is one.
pub open spec fn word_of(p: Program, k: u32) -> Option<u64> {
    if k < p.words@.len() {
        p.words@[k as int]
    } else {
        None
    }
}

pub fn immediate(p: &Program, k: u32) -> (r: Option<u64>)
    ensures
        r == word_of(*p, k),
{
    if (k as usize) < p.words.len() {
        p.words[k as usize]
    } else {
        None
    }
}

/// The primitive an instruction names, if there is one.
pub open spec fn prim_of(p: Program, k: u32) -> Option<Prim> {
    if k < p.prims@.len() {
        Some(p.prims@[k as int])
    } else {
        None
    }
}

pub fn prim_at(p: &Program, k: u32) -> (r: Option<Prim>)
    ensures
        r == prim_of(*p, k),
{
    if (k as usize) < p.prims.len() {
        Some(p.prims[k as usize])
    } else {
        None
    }
}

/// The register an instruction of straight-line code writes.
pub open spec fn written_by(i: Instr) -> Option<Reg> {
    match i.op {
        Op::BrI | Op::BrIK | Op::Jump | Op::Other => None,
        _ => Some(i.a),
    }
}

pub fn writes(i: &Instr) -> (r: Option<Reg>)
    ensures
        r == written_by(*i),
{
    match i.op {
        Op::BrI | Op::BrIK | Op::Jump | Op::Other => None,
        _ => Some(i.a),
    }
}

} // verus!
