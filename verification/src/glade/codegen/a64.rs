//! AArch64 (AAPCS64): instructions encoded by hand.
//!
//! Machine registers during a block function: `x19` the machine, `x20` its register file,
//! `x21` steps not yet counted in the machine -- all saved by the callee, so they survive
//! the calls into the interpreter -- `x22` the loop iterations this call has made, and `x9`
//! through `x17`, `d0` and `d1` for the instruction being done.
//!
//! `x2` to `x8` and `x23` to `x28` hold bytecode registers `r0` to `r12`, in every function
//! alike, so that one function goes on to another with nothing moved. A register a function
//! only ever does float arithmetic on lives in one of `d16` to `d31` for the function's
//! duration instead: moved in from its general register at the warm entry and back out
//! before control goes on to another function.

use super::code::{Cond, FloatOp, Operand, Pc, Reg};
use vstd::prelude::*;

verus! {

pub const X0: u32 = 0;

pub const X9: u32 = 9;

pub const X10: u32 = 10;

pub const X11: u32 = 11;

pub const X12: u32 = 12;

pub const X13: u32 = 13;

pub const X14: u32 = 14;

pub const X15: u32 = 15;

pub const X16: u32 = 16;

pub const X17: u32 = 17;

pub const X19: u32 = 19;

pub const X20: u32 = 20;

pub const X21: u32 = 21;

pub const X22: u32 = 22;

pub const X23: u32 = 23;

pub const X24: u32 = 24;

pub const X25: u32 = 25;

pub const X26: u32 = 26;

pub const X27: u32 = 27;

pub const X28: u32 = 28;

pub const FP: u32 = 29;

pub const LR: u32 = 30;

pub const SP: u32 = 31;

// Condition codes.

pub const EQ: u32 = 0;

pub const NE: u32 = 1;

pub const HS: u32 = 2;

pub const LO: u32 = 3;

pub const MI: u32 = 4;

pub const HI: u32 = 8;

pub const LS: u32 = 9;

pub const GE: u32 = 10;

pub const LT: u32 = 11;

pub const GT: u32 = 12;

pub const LE: u32 = 13;

/// How many bytecode registers have a machine register of their own.
pub const FIXED: usize = 13;

/// Where the warm entry of a function is, in bytes.
pub const WARM: u32 = 100;

/// The machine register a fixed bytecode register is in: the argument registers, which
/// nothing here calls with, and the callee-saved ones the prologue keeps.
pub open spec fn home(r: int) -> u32 {
    (if r < 7 {
        2 + r
    } else {
        16 + r
    }) as u32
}

pub fn home_of(r: Reg) -> (x: u32)
    ensures
        x == home(r as int),
{
    if r < 7 {
        2 + r as u32
    } else {
        16 + r as u32
    }
}

/// The machine register a fixed bytecode register lives in, in one function.
#[derive(Debug, Clone, Copy, PartialEq, Eq, Structural)]
pub enum Loc {
    X(u32),
    D(u32),
}

/// A place in the code that is not known yet.
#[derive(Debug, Clone, Copy, PartialEq, Eq, Structural)]
pub struct Label(pub usize);

#[derive(Debug, Clone, Copy, PartialEq, Eq, Structural)]
pub enum Fixup {
    /// `b`: 26 bits.
    B,
    /// `b.cond`, `cbz`, `cbnz`: 19 bits at bit 5.
    Imm19,
}

impl Fixup {
    /// A branch this far, in instructions, fits.
    pub open spec fn spans(self, delta: int) -> bool {
        match self {
            Fixup::B => -0x200_0000 <= delta < 0x200_0000,
            Fixup::Imm19 => -0x4_0000 <= delta < 0x4_0000,
        }
    }

    pub fn reaches(self, delta: i64) -> (r: bool)
        ensures
            r == self.spans(delta as int),
    {
        match self {
            Fixup::B => -0x200_0000 <= delta && delta < 0x200_0000,
            Fixup::Imm19 => -0x4_0000 <= delta && delta < 0x4_0000,
        }
    }
}

/// Arithmetic on integers.
#[derive(Debug, Clone, Copy, PartialEq, Eq, Structural)]
pub enum IntOp {
    Plus,
    Minus,
    Times,
    Shl,
    Shr,
    Ushr,
    And,
    Div,
    Rem,
}

#[derive(Debug, Clone, Copy, PartialEq, Eq, Structural)]
pub enum UnaryOp {
    ToFloat,
    PopCount,
}

/// Where the machine keeps what native code reads of it, in bytes, and how an address is
/// taken apart.
#[derive(Debug, Clone, Copy, PartialEq, Eq, Structural)]
pub struct Layout {
    pub live: u32,
    pub steps: u32,
    pub regs: u32,
    pub pc: u32,
    pub tables: u32,
    pub native_table: u32,
    pub native_methods: u32,
    pub method_starts: u32,
    pub method_pcs: u32,
    /// The nursery: where it is, what is used of it, and where it ends.
    pub base: u32,
    pub top: u32,
    pub cap: u32,
    pub region_growth: u32,
    pub allocated: u32,
    /// The frame stack: the current chunk's first slot, its end, its top, and where it is.
    pub fcur: u32,
    pub flim: u32,
    pub fsp: u32,
    pub fbase: u32,
    /// The interpreter's entry.
    pub interpret: u32,
    /// Jumps into other functions that a call may make.
    pub budget: u32,
    /// The first scratch slot of the register file.
    pub scratch: u32,
    pub gen_shift: u32,
    pub block_shift: u32,
    /// Bits of a block's number.
    pub block_bits: u32,
    /// Bits of a slot's number in its block.
    pub slot_bits: u32,
    pub desc_shift: u32,
    pub len_shift: u32,
    /// What a function answers when it has gone to another place.
    pub jumped: u32,
}

pub struct Asm {
    pub words: Vec<u32>,
    pub labels: Vec<Option<usize>>,
    pub fixups: Vec<(usize, Label, Fixup)>,
    /// The current function's return of what the interpreter said.
    pub ret_w0: Option<Label>,
    /// Writing a register leaves `live` to the caller.
    pub defer_live: bool,
    /// Constant operands encoded into the instruction, where they fit.
    pub short: bool,
    /// Go straight on to the next block's native code where there is some.
    pub chains: bool,
    /// The fixed bytecode registers, and where each lives in this function.
    pub pins: Vec<(Reg, Loc)>,
    pub at: Layout,
}

/// [`Asm`], as what it is.
pub struct A {
    pub words: Seq<u32>,
    pub labels: Seq<Option<usize>>,
    pub fixups: Seq<(usize, Label, Fixup)>,
    pub ret_w0: Option<Label>,
    pub defer_live: bool,
    pub short: bool,
    pub chains: bool,
    pub pins: Seq<(Reg, Loc)>,
    pub at: Layout,
}

impl View for Asm {
    type V = A;

    open spec fn view(&self) -> A {
        A {
            words: self.words@,
            labels: self.labels@,
            fixups: self.fixups@,
            ret_w0: self.ret_w0,
            defer_live: self.defer_live,
            short: self.short,
            chains: self.chains,
            pins: self.pins@,
            at: self.at,
        }
    }
}

/// Where bytecode register `r` is in the register file, in bytes.
pub open spec fn slot_of(r: Reg) -> u32 {
    (r * 8) as u32
}

pub fn slot(r: Reg) -> (x: u32)
    ensures
        x == slot_of(r),
{
    r as u32 * 8
}

/// Where the first pin of `r` from `i` on is, and how many there are if there is none.
pub open spec fn pin_at(pins: Seq<(Reg, Loc)>, r: Reg, i: nat) -> nat
    decreases pins.len() - i,
{
    if i >= pins.len() || pins[i as int].0 == r {
        i
    } else {
        pin_at(pins, r, i + 1)
    }
}

impl A {
    pub open spec fn put(self, word: u32) -> A {
        A { words: self.words.push(word), ..self }
    }

    /// A branch to `l`, its distance to be filled in.
    pub open spec fn branch(self, l: Label, f: Fixup, word: u32) -> A {
        A { fixups: self.fixups.push((self.words.len() as usize, l, f)), ..self }.put(word)
    }

    pub open spec fn ldr(self, t: u32, n: u32, off: u32) -> A {
        self.put(0xF940_0000 | (off / 8) << 10 | n << 5 | t)
    }

    pub open spec fn str(self, t: u32, n: u32, off: u32) -> A {
        self.put(0xF900_0000 | (off / 8) << 10 | n << 5 | t)
    }

    pub open spec fn ldr_d(self, t: u32, n: u32, off: u32) -> A {
        self.put(0xFD40_0000 | (off / 8) << 10 | n << 5 | t)
    }

    pub open spec fn str_d(self, t: u32, n: u32, off: u32) -> A {
        self.put(0xFD00_0000 | (off / 8) << 10 | n << 5 | t)
    }

    /// One half of a constant, unless it is nothing.
    pub open spec fn half(self, d: u32, part: u64, hw: u32) -> A {
        if part != 0 {
            self.put(0xF280_0000 | hw << 21 | (part as u32) << 5 | d)
        } else {
            self
        }
    }

    /// `xd = imm`, in as few `movz`/`movk` as its nonzero halves need.
    pub open spec fn imm(self, d: u32, imm: u64) -> A {
        self.put(0xD280_0000 | ((imm & 0xFFFF) as u32) << 5 | d).half(d, (imm >> 16) & 0xFFFF, 1).half(d, (imm >> 32) & 0xFFFF, 2).half(d, (imm >> 48) & 0xFFFF, 3)
    }

    pub open spec fn mov_x(self, d: u32, s: u32) -> A {
        self.put(0xAA00_03E0 | s << 16 | d)
    }

    /// `fmov xd, dn`
    pub open spec fn fmov_xd(self, d: u32, n: u32) -> A {
        self.put(0x9E66_0000 | n << 5 | d)
    }

    /// `fmov dd, xn`
    pub open spec fn fmov_dx(self, d: u32, n: u32) -> A {
        self.put(0x9E67_0000 | n << 5 | d)
    }

    /// `fmov dd, dn`
    pub open spec fn fmov_dd(self, d: u32, n: u32) -> A {
        self.put(0x1E60_4000 | n << 5 | d)
    }

    /// `cmp xn, xm`
    pub open spec fn compare(self, n: u32, m: u32) -> A {
        self.put(0xEB00_001F | m << 16 | n << 5)
    }

    pub open spec fn cset(self, d: u32, cond: u32) -> A {
        self.put(0x9A9F_07E0 | (cond ^ 1) << 12 | d)
    }

    pub open spec fn b_cond(self, cond: u32, to: Label) -> A {
        self.branch(to, Fixup::Imm19, 0x5400_0000 | cond)
    }

    pub open spec fn jump(self, to: Label) -> A {
        self.branch(to, Fixup::B, 0x1400_0000)
    }

    /// The machine register bytecode register `r` is pinned to, if it is.
    pub open spec fn pin(self, r: Reg) -> Option<Loc> {
        let i = pin_at(self.pins, r, 0);
        if i < self.pins.len() {
            Some(self.pins[i as int].1)
        } else {
            None
        }
    }

    /// `xt = r[r]`
    pub open spec fn get(self, t: u32, r: Reg) -> A {
        match self.pin(r) {
            Some(Loc::X(m)) => if m != t {
                self.mov_x(t, m)
            } else {
                self
            },
            Some(Loc::D(m)) => self.fmov_xd(t, m),
            None => self.ldr(t, X20, slot_of(r)),
        }
    }

    /// `r[r] = xt`
    pub open spec fn set(self, t: u32, r: Reg) -> A {
        match self.pin(r) {
            Some(Loc::X(m)) => if m != t {
                self.mov_x(m, t)
            } else {
                self
            },
            Some(Loc::D(m)) => self.fmov_dx(m, t),
            None => self.str(t, X20, slot_of(r)),
        }
    }

    /// `dt = r[r]`
    pub open spec fn get_float(self, t: u32, r: Reg) -> A {
        match self.pin(r) {
            Some(Loc::D(m)) => if m != t {
                self.fmov_dd(t, m)
            } else {
                self
            },
            Some(Loc::X(m)) => self.fmov_dx(t, m),
            None => self.ldr_d(t, X20, slot_of(r)),
        }
    }

    /// `r[r] = dt`
    pub open spec fn set_float(self, t: u32, r: Reg) -> A {
        match self.pin(r) {
            Some(Loc::D(m)) => if m != t {
                self.fmov_dd(m, t)
            } else {
                self
            },
            Some(Loc::X(m)) => self.fmov_xd(m, t),
            None => self.str_d(t, X20, slot_of(r)),
        }
    }

    /// `r[r]` as an `x` register: where it is, if that is one, or `scratch`.
    pub open spec fn x_of(self, r: Reg, scratch: u32) -> u32 {
        match self.pin(r) {
            Some(Loc::X(m)) => m,
            _ => scratch,
        }
    }

    /// With it there.
    pub open spec fn x(self, r: Reg, scratch: u32) -> A {
        match self.pin(r) {
            Some(Loc::X(_)) => self,
            _ => self.get(scratch, r),
        }
    }

    /// `r[r]` as a `d` register: where it is, if that is one, or `scratch`.
    pub open spec fn d_of(self, r: Reg, scratch: u32) -> u32 {
        match self.pin(r) {
            Some(Loc::D(m)) => m,
            _ => scratch,
        }
    }

    /// With it there.
    pub open spec fn d(self, r: Reg, scratch: u32) -> A {
        match self.pin(r) {
            Some(Loc::D(_)) => self,
            _ => self.get_float(scratch, r),
        }
    }

    /// `c` as an `x` register: where it is, or `scratch`.
    pub open spec fn operand_of(self, c: Operand, scratch: u32) -> u32 {
        match c {
            Operand::Reg(r) => self.x_of(r, scratch),
            Operand::Imm(_) => scratch,
        }
    }

    /// With it there.
    pub open spec fn operand(self, c: Operand, scratch: u32) -> A {
        match c {
            Operand::Reg(r) => self.x(r, scratch),
            Operand::Imm(n) => self.imm(scratch, n as u64),
        }
    }

    /// `c` as the magnitude of a 12-bit immediate, and whether it is negative, where that
    /// is how it is encoded.
    pub open spec fn short_of(self, c: Operand) -> Option<(u32, bool)> {
        match c {
            Operand::Imm(n) => if self.short && 0 <= n < 4096 {
                Some((n as u32, false))
            } else if self.short && -4095 <= n < 0 {
                Some(((-n) as u32, true))
            } else {
                None
            },
            Operand::Reg(_) => None,
        }
    }

    /// `cmp xn, c`, `xn` not being `x10`.
    pub open spec fn against(self, n: u32, c: Operand) -> A {
        match self.short_of(c) {
            Some((k, negative)) => if negative {
                self.put(0xB100_001F | k << 10 | n << 5)
            } else {
                self.put(0xF100_001F | k << 10 | n << 5)
            },
            None => self.operand(c, X10).compare(n, self.operand_of(c, X10)),
        }
    }

    /// `live = max(live, n)`
    pub open spec fn raise(self, n: u32) -> A {
        self.ldr(X10, X19, self.at.live).imm(X11, n as u64).compare(X10, X11).put(0x9A80_0000 | X11 << 16 | HS << 12 | X10 << 5 | X10).str(X10, X19, self.at.live)
    }

    /// `r[a]` was written: raise `live`, unless that is deferred.
    pub open spec fn raised(self, a: Reg) -> A {
        if self.defer_live {
            self
        } else {
            self.raise((a as u32 + 1) as u32)
        }
    }

    /// Store `xd` in `r[a]`, raising `live`.
    pub open spec fn store_from(self, d: u32, a: Reg) -> A {
        self.set(d, a).raised(a)
    }

    /// Store `dd` in `r[a]`, raising `live`.
    pub open spec fn store_float_from(self, d: u32, a: Reg) -> A {
        self.set_float(d, a).raised(a)
    }

    /// Store `x9` in `r[a]`, raising `live`.
    pub open spec fn store(self, a: Reg) -> A {
        self.store_from(X9, a)
    }

    pub open spec fn flush_steps(self) -> A {
        self.ldr(X9, X19, self.at.steps).put(0x8B00_0000 | X21 << 16 | X9 << 5 | X9).str(X9, X19, self.at.steps).imm(X21, 0)
    }

    /// On to `out` if this call has made its budget of jumps into other functions, counting this one.
    pub open spec fn budget(self, out: Label) -> A {
        self.put(0x9100_0400 | X22 << 5 | X22).put(0xF100_001F | self.at.budget << 10 | X22 << 5).b_cond(HS, out)
    }

    /// Jump to the warm entry of the function whose start is in `x9`.
    pub open spec fn enter_warm(self) -> A {
        self.put(0x9100_0000 | WARM << 10 | X9 << 5 | X9).put(0xD61F_0000 | X9 << 5)
    }

    pub open spec fn restore_and_return(self) -> A {
        self.put(0xA940_0000 | 10u32 << 15 | X28 << 10 | SP << 5 | X27).put(0xA940_0000 | 8u32 << 15 | X26 << 10 | SP << 5 | X25).put(0xA940_0000 | 6u32 << 15 | X24 << 10 | SP << 5 | X23).ldr(X22, SP, 40).ldr(X21, SP, 32).put(0xA940_0000 | 2u32 << 15 | X20 << 10 | SP << 5 | X19).put(0xA8C0_0000 | 12u32 << 15 | LR << 10 | SP << 5 | FP).put(0xD65F_03C0)
    }

    /// Return `status` with the register file as it is in memory.
    pub open spec fn ret_as_is(self, status: u32) -> A {
        self.flush_steps().put(0x5280_0000 | status << 5).restore_and_return()
    }

    pub open spec fn new_label(self) -> A {
        A { labels: self.labels.push(None), ..self }
    }

    /// The next new label.
    pub open spec fn next_label(self) -> Label {
        Label(self.labels.len() as usize)
    }

    /// `l` is here, if it is one of this assembler's.
    pub open spec fn bind(self, l: Label) -> A {
        if l.0 < self.labels.len() {
            A { labels: self.labels.update(l.0 as int, Some(self.words.len() as usize)), ..self }
        } else {
            self
        }
    }

    pub open spec fn step(self) -> A {
        self.put(0x9100_0400 | X21 << 5 | X21)
    }

    pub open spec fn unstep(self) -> A {
        self.put(0xD100_0400 | X21 << 5 | X21)
    }

    pub open spec fn add_steps(self, n: u32) -> A {
        if n < 4096 {
            self.put(0x9100_0000 | n << 10 | X21 << 5 | X21)
        } else {
            self.imm(X9, n as u64).put(0x8B00_0000 | X9 << 16 | X21 << 5 | X21)
        }
    }

    /// `r[a] = r[b]`
    pub open spec fn mov(self, a: Reg, b: Reg) -> A {
        (match (self.pin(a), self.pin(b)) {
            (Some(Loc::D(m)), _) => self.get_float(m, b),
            (_, Some(Loc::D(s))) => self.set_float(s, a),
            (Some(Loc::X(m)), _) => self.get(m, b),
            (None, _) => self.x(b, X9).set(self.x_of(b, X9), a),
        }).raised(a)
    }

    /// `r[a] = w`
    pub open spec fn word(self, a: Reg, w: u64) -> A {
        let d = self.x_of(a, X9);
        self.imm(d, w).store_from(d, a)
    }

    /// One instruction of a shift by a constant: `lsl`, `asr` and `lsr` are `ubfm`/`sbfm`
    /// with the right immediates.
    pub open spec fn shift_word(op: IntOp, k: u32) -> u32 {
        match op {
            IntOp::Shl => 0xD340_0000 | (((64 - k) % 64) as u32) << 16 | ((63 - k) as u32) << 10,
            IntOp::Shr => 0x9340_0000 | k << 16 | 63u32 << 10,
            _ => 0xD340_0000 | k << 16 | 63u32 << 10,
        }
    }

    pub open spec fn is_shift(op: IntOp) -> bool {
        op == IntOp::Shl || op == IntOp::Shr || op == IntOp::Ushr
    }

    /// `xd = xn op xm`
    pub open spec fn int_word(self, op: IntOp, d: u32, n: u32, m: u32, zero: Label) -> A {
        match op {
            IntOp::Plus => self.put(0x8B00_0000 | m << 16 | n << 5 | d),
            IntOp::Minus => self.put(0xCB00_0000 | m << 16 | n << 5 | d),
            IntOp::Times => self.put(0x9B00_7C00 | m << 16 | n << 5 | d),
            IntOp::Shl => self.put(0x9AC0_2000 | m << 16 | n << 5 | d),
            IntOp::Shr => self.put(0x9AC0_2800 | m << 16 | n << 5 | d),
            IntOp::Ushr => self.put(0x9AC0_2400 | m << 16 | n << 5 | d),
            IntOp::And => self.put(0x8A00_0000 | m << 16 | n << 5 | d),
            IntOp::Div => self.branch(zero, Fixup::Imm19, 0xB400_0000 | m).put(
                0x9AC0_0C00 | m << 16 | n << 5 | d,
            ),
            IntOp::Rem => self.branch(zero, Fixup::Imm19, 0xB400_0000 | m).put(
                0x9AC0_0C00 | m << 16 | n << 5 | X11,
            ).put(0x9B00_8000 | m << 16 | n << 10 | X11 << 5 | d),
        }
    }

    /// `r[a] = r[b] op c`
    pub open spec fn int_to(self, op: IntOp, a: Reg, b: Reg, c: Operand, zero: Label) -> A {
        let n = self.x_of(b, X9);
        let s = self.x(b, X9);
        let d = s.x_of(a, X9);
        if (op == IntOp::Plus || op == IntOp::Minus) && s.short_of(c) is Some {
            let (k, negative) = s.short_of(c)->0;
            let base: u32 = if (op == IntOp::Minus) != negative {
                0xD100_0000
            } else {
                0x9100_0000
            };
            s.put(base | k << 10 | n << 5 | d).store_from(d, a)
        } else if Self::is_shift(op) && c is Imm && 1 <= c->Imm_0 < 64 {
            s.put(Self::shift_word(op, c->Imm_0 as u32) | n << 5 | d).store_from(d, a)
        } else {
            s.operand(c, X10).int_word(op, d, n, s.operand_of(c, X10), zero).store_from(d, a)
        }
    }

    pub open spec fn unary(self, op: UnaryOp, a: Reg, b: Reg) -> A {
        let n = self.x_of(b, X9);
        let s = self.x(b, X9);
        match op {
            UnaryOp::ToFloat => {
                let d = s.d_of(a, 0);
                s.put(0x9E62_0000 | n << 5 | d).store_float_from(d, a)
            },
            UnaryOp::PopCount => {
                let s = s.fmov_dx(0, n).put(0x0E20_5800).put(0x0E31_B800);
                let d = s.x_of(a, X9);
                s.put(0x1E26_0000 | d).store_from(d, a)
            },
        }
    }

    pub open spec fn float_base(op: FloatOp) -> u32 {
        match op {
            FloatOp::Add => 0x1E60_2800,
            FloatOp::Sub => 0x1E60_3800,
            FloatOp::Mul => 0x1E60_0800,
            FloatOp::Div => 0x1E60_1800,
        }
    }

    pub open spec fn float(self, op: FloatOp, a: Reg, b: Reg, c: Reg) -> A {
        let n = self.d_of(b, 0);
        let s = self.d(b, 0);
        let m = s.d_of(c, 1);
        let s = s.d(c, 1);
        let d = s.d_of(a, 0);
        s.put(Self::float_base(op) | m << 16 | n << 5 | d).store_float_from(d, a)
    }

    pub open spec fn int_cond(c: Cond) -> u32 {
        match c {
            Cond::Eq => EQ,
            Cond::Ne => NE,
            Cond::Lt => LT,
            Cond::Le => LE,
            Cond::Gt => GT,
            Cond::Ge => GE,
        }
    }

    /// The condition true after `fcmp` exactly when `c` holds IEEE's way: false,
    /// unordered, for all but `!=`.
    pub open spec fn float_cond(c: Cond) -> u32 {
        match c {
            Cond::Eq => EQ,
            Cond::Ne => NE,
            Cond::Lt => MI,
            Cond::Le => LS,
            Cond::Gt => GT,
            Cond::Ge => GE,
        }
    }

    pub open spec fn test_int(self, cond: Cond, a: Reg, b: Reg, c: Operand) -> A {
        let s = self.x(b, X9).against(self.x_of(b, X9), c);
        let d = s.x_of(a, X9);
        s.cset(d, Self::int_cond(cond)).store_from(d, a)
    }

    /// Two floats compared.
    pub open spec fn compared(self, b: Reg, c: Reg) -> A {
        let n = self.d_of(b, 0);
        let s = self.d(b, 0);
        s.d(c, 1).fcompare(n, s.d_of(c, 1))
    }

    pub open spec fn test_float(self, cond: Cond, a: Reg, b: Reg, c: Reg) -> A {
        let s = self.compared(b, c);
        let d = s.x_of(a, X9);
        s.cset(d, Self::float_cond(cond)).store_from(d, a)
    }

    pub open spec fn branch_int(self, cond: Cond, x: Reg, y: Operand, to: Label) -> A {
        self.x(x, X9).against(self.x_of(x, X9), y).b_cond(Self::int_cond(cond) ^ 1, to)
    }

    pub open spec fn branch_float(self, cond: Cond, x: Reg, y: Reg, to: Label) -> A {
        self.compared(x, y).b_cond(Self::float_cond(cond) ^ 1, to)
    }

    pub open spec fn branch_zero(self, x: Reg, to: Label) -> A {
        self.x(x, X9).branch(to, Fixup::Imm19, 0xB400_0000 | self.x_of(x, X9))
    }

    /// `fcmp dn, dm`
    pub open spec fn fcompare(self, n: u32, m: u32) -> A {
        self.put(0x1E60_2000 | m << 16 | n << 5)
    }

    pub open spec fn set_live(self, n: u32) -> A {
        self.imm(X9, n as u64).str(X9, X19, self.at.live)
    }

    pub open spec fn raise_live_to(self, n: u32) -> A {
        self.raise(n)
    }

    pub open spec fn back_edge(self, to: Label, over: Label) -> A {
        self.put(0x9100_0400 | X22 << 5 | X22).put(0xF140_041F | X22 << 5).b_cond(HS, over).jump(to)
    }

    /// `xd = xn >> sh`, unsigned.
    pub open spec fn thin_shr(self, d: u32, n: u32, sh: u32) -> A {
        self.put(0xD340_0000 | sh << 16 | 63u32 << 10 | n << 5 | d)
    }

    /// `xd = xn` bits `lsb ..< lsb + width`, zero-extended.
    pub open spec fn ubfx(self, d: u32, n: u32, lsb: u32, width: u32) -> A {
        self.put(0xD340_0000 | lsb << 16 | lsb.wrapping_add(width).wrapping_sub(1) << 10 | n << 5 | d)
    }

    /// `ldr xt, [xn, xm, lsl #3]`
    pub open spec fn ldr_idx(self, t: u32, n: u32, m: u32) -> A {
        self.put(0xF860_7800 | m << 16 | n << 5 | t)
    }

    /// `xd = ` the slot address `xn`, as a machine address.
    pub open spec fn thin_where(self, d: u32, n: u32) -> A {
        self.put(0x9100_0000 | self.at.tables << 10 | X19 << 5 | X16).thin_shr(X17, n, self.at.gen_shift).ldr_idx(X16, X16, X17).ubfx(X17, n, self.at.block_shift, self.at.block_bits).ldr_idx(X16, X16, X17).ubfx(X17, n, 0, self.at.slot_bits).put(0x8B00_0000 | X17 << 16 | 3u32 << 10 | X16 << 5 | d)
    }

    /// `cmp w14, #imm`
    pub open spec fn test_kind(self, imm: u32) -> A {
        self.put(0x7100_001F | imm << 10 | X14 << 5)
    }

    /// `x15 = x13 >> 32`: the object's length.
    pub open spec fn length(self) -> A {
        self.put(0xD360_FC00 | X13 << 5 | X15)
    }

    /// Every fixed register whose pin is one of the first `n`, to memory.
    pub open spec fn spill_to(self, n: nat) -> A
        decreases n,
    {
        if n == 0 || n > self.pins.len() {
            self
        } else {
            let (r, m) = self.pins[n - 1];
            match m {
                Loc::X(m) => self.spill_to((n - 1) as nat).str(m, X20, slot_of(r)),
                Loc::D(m) => self.spill_to((n - 1) as nat).str_d(m, X20, slot_of(r)),
            }
        }
    }

    /// The same, from memory, to where each lives here.
    pub open spec fn reload_to(self, n: nat) -> A
        decreases n,
    {
        if n == 0 || n > self.pins.len() {
            self
        } else {
            let (r, m) = self.pins[n - 1];
            match m {
                Loc::X(m) => self.reload_to((n - 1) as nat).ldr(m, X20, slot_of(r)),
                Loc::D(m) => self.reload_to((n - 1) as nat).ldr_d(m, X20, slot_of(r)),
            }
        }
    }

    /// Every float register of the first `n` pins in from its general register, or back
    /// out to it.
    pub open spec fn floats_to(self, into: bool, n: nat) -> A
        decreases n,
    {
        if n == 0 || n > self.pins.len() {
            self
        } else {
            let (r, m) = self.pins[n - 1];
            match m {
                Loc::X(_) => self.floats_to(into, (n - 1) as nat),
                Loc::D(d) => if into {
                    self.floats_to(into, (n - 1) as nat).fmov_dx(d, home(r as int))
                } else {
                    self.floats_to(into, (n - 1) as nat).fmov_xd(home(r as int), d)
                },
            }
        }
    }

    pub open spec fn reload_x_to(self, n: nat) -> A
        decreases n,
    {
        if n == 0 {
            self
        } else {
            self.reload_x_to((n - 1) as nat).ldr(home(n - 1), X20, slot_of((n - 1) as u8))
        }
    }

    pub open spec fn spill(self) -> A {
        self.spill_to(self.pins.len())
    }

    pub open spec fn reload(self) -> A {
        self.reload_to(self.pins.len())
    }

    pub open spec fn floats_in(self) -> A {
        self.floats_to(true, self.pins.len())
    }

    pub open spec fn floats_out(self) -> A {
        self.floats_to(false, self.pins.len())
    }

    pub open spec fn ret(self, status: u32) -> A {
        self.spill().ret_as_is(status)
    }

    pub open spec fn stored_live(self, live: Option<u32>) -> A {
        match live {
            Some(n) => self.imm(X9, n as u64).str(X9, X19, self.at.live),
            None => self,
        }
    }

    /// Go on to the block at `pc`, in its own function.
    pub open spec fn chain(self, pc: Pc, live: Option<u32>, to: Option<Label>) -> A {
        let s = self.stored_live(live).floats_out();
        let out = s.next_label();
        let s = s.new_label().budget(out);
        let s = match to {
            Some(to) => s.jump(to),
            None => s.ldr(X9, X19, s.at.native_table).imm(X10, pc as u64).put(
                0xF860_7800 | X10 << 16 | X9 << 5 | X9,
            ).branch(out, Fixup::Imm19, 0xB400_0000 | X9).enter_warm(),
        };
        let s = s.bind(out).spill().imm(X9, pc as u64);
        s.str(X9, X19, s.at.pc).ret_as_is(s.at.jumped)
    }

    pub open spec fn leave(self, pc: Pc, live: Option<u32>) -> A {
        let s = self.imm(X9, pc as u64).str(X9, X19, self.at.pc).stored_live(live);
        s.ret(s.at.jumped)
    }

    pub open spec fn end(self) -> A {
        match self.ret_w0 {
            Some(l) => A { ret_w0: None, ..self }.bind(l).restore_and_return(),
            None => self,
        }
    }
}

impl Asm {
    pub fn put(&mut self, word: u32)
        ensures
            final(self)@ == old(self)@.put(word),
    {
        self.words.push(word);
    }

    pub fn branch(&mut self, l: Label, f: Fixup, word: u32)
        ensures
            final(self)@ == old(self)@.branch(l, f, word),
    {
        self.fixups.push((self.words.len(), l, f));
        self.put(word);
    }

    pub fn ldr(&mut self, t: u32, n: u32, off: u32)
        ensures
            final(self)@ == old(self)@.ldr(t, n, off),
    {
        self.put(0xF940_0000 | (off / 8) << 10 | n << 5 | t);
    }

    pub fn str(&mut self, t: u32, n: u32, off: u32)
        ensures
            final(self)@ == old(self)@.str(t, n, off),
    {
        self.put(0xF900_0000 | (off / 8) << 10 | n << 5 | t);
    }

    pub fn ldr_d(&mut self, t: u32, n: u32, off: u32)
        ensures
            final(self)@ == old(self)@.ldr_d(t, n, off),
    {
        self.put(0xFD40_0000 | (off / 8) << 10 | n << 5 | t);
    }

    pub fn str_d(&mut self, t: u32, n: u32, off: u32)
        ensures
            final(self)@ == old(self)@.str_d(t, n, off),
    {
        self.put(0xFD00_0000 | (off / 8) << 10 | n << 5 | t);
    }

    fn half(&mut self, d: u32, part: u64, hw: u32)
        ensures
            final(self)@ == old(self)@.half(d, part, hw),
    {
        if part != 0 {
            self.put(0xF280_0000 | hw << 21 | (part as u32) << 5 | d);
        }
    }

    /// `xd = imm`, in as few `movz`/`movk` as its nonzero halves need.
    pub fn imm(&mut self, d: u32, imm: u64)
        ensures
            final(self)@ == old(self)@.imm(d, imm),
    {
        self.put(0xD280_0000 | ((imm & 0xFFFF) as u32) << 5 | d);
        self.half(d, (imm >> 16) & 0xFFFF, 1);
        self.half(d, (imm >> 32) & 0xFFFF, 2);
        self.half(d, (imm >> 48) & 0xFFFF, 3);
    }

    pub fn mov_x(&mut self, d: u32, s: u32)
        ensures
            final(self)@ == old(self)@.mov_x(d, s),
    {
        self.put(0xAA00_03E0 | s << 16 | d);
    }

    /// `fmov xd, dn`
    pub fn fmov_xd(&mut self, d: u32, n: u32)
        ensures
            final(self)@ == old(self)@.fmov_xd(d, n),
    {
        self.put(0x9E66_0000 | n << 5 | d);
    }

    /// `fmov dd, xn`
    pub fn fmov_dx(&mut self, d: u32, n: u32)
        ensures
            final(self)@ == old(self)@.fmov_dx(d, n),
    {
        self.put(0x9E67_0000 | n << 5 | d);
    }

    /// `fmov dd, dn`
    pub fn fmov_dd(&mut self, d: u32, n: u32)
        ensures
            final(self)@ == old(self)@.fmov_dd(d, n),
    {
        self.put(0x1E60_4000 | n << 5 | d);
    }

    /// `cmp xn, xm`
    pub fn compare(&mut self, n: u32, m: u32)
        ensures
            final(self)@ == old(self)@.compare(n, m),
    {
        self.put(0xEB00_001F | m << 16 | n << 5);
    }

    pub fn cset(&mut self, d: u32, cond: u32)
        ensures
            final(self)@ == old(self)@.cset(d, cond),
    {
        self.put(0x9A9F_07E0 | (cond ^ 1) << 12 | d);
    }

    pub fn b_cond(&mut self, cond: u32, to: Label)
        ensures
            final(self)@ == old(self)@.b_cond(cond, to),
    {
        self.branch(to, Fixup::Imm19, 0x5400_0000 | cond);
    }

    pub fn jump(&mut self, to: Label)
        ensures
            final(self)@ == old(self)@.jump(to),
    {
        self.branch(to, Fixup::B, 0x1400_0000);
    }

    pub fn pinned(&self, r: Reg) -> (l: Option<Loc>)
        ensures
            l == self@.pin(r),
    {
        let mut i: usize = 0;
        while i < self.pins.len()
            invariant
                i <= self.pins@.len(),
                pin_at(self.pins@, r, 0) == pin_at(self.pins@, r, i as nat),
            decreases self.pins@.len() - i,
        {
            if self.pins[i].0 == r {
                return Some(self.pins[i].1);
            }
            i = i + 1;
        }
        None
    }

    /// `xt = r[r]`
    pub fn get(&mut self, t: u32, r: Reg)
        ensures
            final(self)@ == old(self)@.get(t, r),
    {
        match self.pinned(r) {
            Some(Loc::X(m)) => if m != t {
                self.mov_x(t, m);
            },
            Some(Loc::D(m)) => self.fmov_xd(t, m),
            None => self.ldr(t, X20, slot(r)),
        }
    }

    /// `r[r] = xt`
    pub fn set(&mut self, t: u32, r: Reg)
        ensures
            final(self)@ == old(self)@.set(t, r),
    {
        match self.pinned(r) {
            Some(Loc::X(m)) => if m != t {
                self.mov_x(m, t);
            },
            Some(Loc::D(m)) => self.fmov_dx(m, t),
            None => self.str(t, X20, slot(r)),
        }
    }

    /// `dt = r[r]`
    pub fn get_float(&mut self, t: u32, r: Reg)
        ensures
            final(self)@ == old(self)@.get_float(t, r),
    {
        match self.pinned(r) {
            Some(Loc::D(m)) => if m != t {
                self.fmov_dd(t, m);
            },
            Some(Loc::X(m)) => self.fmov_dx(t, m),
            None => self.ldr_d(t, X20, slot(r)),
        }
    }

    /// `r[r] = dt`
    pub fn set_float(&mut self, t: u32, r: Reg)
        ensures
            final(self)@ == old(self)@.set_float(t, r),
    {
        match self.pinned(r) {
            Some(Loc::D(m)) => if m != t {
                self.fmov_dd(m, t);
            },
            Some(Loc::X(m)) => self.fmov_xd(m, t),
            None => self.str_d(t, X20, slot(r)),
        }
    }

    /// `r[r]` as an `x` register: where it is, if that is one, or `scratch`.
    pub fn x(&mut self, r: Reg, scratch: u32) -> (x: u32)
        ensures
            final(self)@ == old(self)@.x(r, scratch),
            x == old(self)@.x_of(r, scratch),
    {
        match self.pinned(r) {
            Some(Loc::X(m)) => m,
            _ => {
                self.get(scratch, r);
                scratch
            },
        }
    }

    /// The register to compute `r[a]` in: its own, or `scratch`.
    pub fn x_dst(&self, a: Reg, scratch: u32) -> (x: u32)
        ensures
            x == self@.x_of(a, scratch),
    {
        match self.pinned(a) {
            Some(Loc::X(m)) => m,
            _ => scratch,
        }
    }

    /// `r[r]` as a `d` register: where it is, if that is one, or `scratch`.
    pub fn d(&mut self, r: Reg, scratch: u32) -> (x: u32)
        ensures
            final(self)@ == old(self)@.d(r, scratch),
            x == old(self)@.d_of(r, scratch),
    {
        match self.pinned(r) {
            Some(Loc::D(m)) => m,
            _ => {
                self.get_float(scratch, r);
                scratch
            },
        }
    }

    /// The register to compute `r[a]` in: its own, or `scratch`.
    pub fn d_dst(&self, a: Reg, scratch: u32) -> (x: u32)
        ensures
            x == self@.d_of(a, scratch),
    {
        match self.pinned(a) {
            Some(Loc::D(m)) => m,
            _ => scratch,
        }
    }

    /// `c` as an `x` register: where it is, or `scratch` with it put there.
    pub fn operand(&mut self, c: Operand, scratch: u32) -> (x: u32)
        ensures
            final(self)@ == old(self)@.operand(c, scratch),
            x == old(self)@.operand_of(c, scratch),
    {
        match c {
            Operand::Reg(r) => self.x(r, scratch),
            Operand::Imm(n) => {
                self.imm(scratch, n as u64);
                scratch
            },
        }
    }

    pub fn short_imm(&self, c: Operand) -> (r: Option<(u32, bool)>)
        ensures
            r == self@.short_of(c),
    {
        match c {
            Operand::Imm(n) => if self.short && n >= 0 && n < 4096 {
                Some((n as u32, false))
            } else if self.short && n >= -4095 && n < 0 {
                Some(((-n) as u32, true))
            } else {
                None
            },
            Operand::Reg(_) => None,
        }
    }

    /// `cmp xn, c`, `xn` not being `x10`: `cmn`, for a negative constant.
    pub fn against(&mut self, n: u32, c: Operand)
        ensures
            final(self)@ == old(self)@.against(n, c),
    {
        match self.short_imm(c) {
            Some((k, negative)) => if negative {
                self.put(0xB100_001F | k << 10 | n << 5);
            } else {
                self.put(0xF100_001F | k << 10 | n << 5);
            },
            None => {
                let m: u32 = self.operand(c, X10);
                self.compare(n, m);
            },
        }
    }

    /// `live = max(live, n)`
    pub fn raise(&mut self, n: u32)
        ensures
            final(self)@ == old(self)@.raise(n),
    {
        self.ldr(X10, X19, self.at.live);
        self.imm(X11, n as u64);
        self.compare(X10, X11);
        self.put(0x9A80_0000 | X11 << 16 | HS << 12 | X10 << 5 | X10);
        self.str(X10, X19, self.at.live);
    }

    /// `r[a]` was written: raise `live`, unless that is deferred.
    pub fn raised(&mut self, a: Reg)
        ensures
            final(self)@ == old(self)@.raised(a),
    {
        if !self.defer_live {
            self.raise(a as u32 + 1);
        }
    }

    /// Store `xd` in `r[a]`, raising `live`.
    pub fn store_from(&mut self, d: u32, a: Reg)
        ensures
            final(self)@ == old(self)@.store_from(d, a),
    {
        self.set(d, a);
        self.raised(a);
    }

    /// Store `dd` in `r[a]`, raising `live`.
    pub fn store_float_from(&mut self, d: u32, a: Reg)
        ensures
            final(self)@ == old(self)@.store_float_from(d, a),
    {
        self.set_float(d, a);
        self.raised(a);
    }

    /// Store `x9` in `r[a]`, raising `live`.
    pub fn store(&mut self, a: Reg)
        ensures
            final(self)@ == old(self)@.store(a),
    {
        self.store_from(X9, a);
    }

    pub fn flush_steps(&mut self)
        ensures
            final(self)@ == old(self)@.flush_steps(),
    {
        self.ldr(X9, X19, self.at.steps);
        self.put(0x8B00_0000 | X21 << 16 | X9 << 5 | X9);
        self.str(X9, X19, self.at.steps);
        self.imm(X21, 0);
    }

    /// On to `out` if this call has made its budget of jumps into other functions, counting this one.
    pub fn budget(&mut self, out: Label)
        ensures
            final(self)@ == old(self)@.budget(out),
    {
        self.put(0x9100_0400 | X22 << 5 | X22);
        self.put(0xF100_001F | self.at.budget << 10 | X22 << 5);
        self.b_cond(HS, out);
    }

    /// Jump to the warm entry of the function whose start is in `x9`.
    pub fn enter_warm(&mut self)
        ensures
            final(self)@ == old(self)@.enter_warm(),
    {
        self.put(0x9100_0000 | WARM << 10 | X9 << 5 | X9);
        self.put(0xD61F_0000 | X9 << 5);
    }

    pub fn restore_and_return(&mut self)
        ensures
            final(self)@ == old(self)@.restore_and_return(),
    {
        self.put(0xA940_0000 | 10u32 << 15 | X28 << 10 | SP << 5 | X27);
        self.put(0xA940_0000 | 8u32 << 15 | X26 << 10 | SP << 5 | X25);
        self.put(0xA940_0000 | 6u32 << 15 | X24 << 10 | SP << 5 | X23);
        self.ldr(X22, SP, 40);
        self.ldr(X21, SP, 32);
        self.put(0xA940_0000 | 2u32 << 15 | X20 << 10 | SP << 5 | X19);
        self.put(0xA8C0_0000 | 12u32 << 15 | LR << 10 | SP << 5 | FP);
        self.put(0xD65F_03C0);
    }

    /// Return `status` with the register file as it is in memory.
    pub fn ret_as_is(&mut self, status: u32)
        ensures
            final(self)@ == old(self)@.ret_as_is(status),
    {
        self.flush_steps();
        self.put(0x5280_0000 | status << 5);
        self.restore_and_return();
    }

    pub fn label(&mut self) -> (l: Label)
        ensures
            final(self)@ == old(self)@.new_label(),
            l == old(self)@.next_label(),
    {
        let n: usize = self.labels.len();
        self.labels.push(None);
        Label(n)
    }

    pub fn bind(&mut self, l: Label)
        ensures
            final(self)@ == old(self)@.bind(l),
    {
        let here: usize = self.words.len();
        if l.0 < self.labels.len() {
            self.labels.set(l.0, Some(here));
        }
    }

    pub fn step(&mut self)
        ensures
            final(self)@ == old(self)@.step(),
    {
        self.put(0x9100_0400 | X21 << 5 | X21);
    }

    pub fn unstep(&mut self)
        ensures
            final(self)@ == old(self)@.unstep(),
    {
        self.put(0xD100_0400 | X21 << 5 | X21);
    }

    pub fn add_steps(&mut self, n: u32)
        ensures
            final(self)@ == old(self)@.add_steps(n),
    {
        if n < 4096 {
            self.put(0x9100_0000 | n << 10 | X21 << 5 | X21);
        } else {
            self.imm(X9, n as u64);
            self.put(0x8B00_0000 | X9 << 16 | X21 << 5 | X21);
        }
    }

    pub fn mov(&mut self, a: Reg, b: Reg)
        ensures
            final(self)@ == old(self)@.mov(a, b),
    {
        match (self.pinned(a), self.pinned(b)) {
            (Some(Loc::D(m)), _) => self.get_float(m, b),
            (_, Some(Loc::D(s))) => self.set_float(s, a),
            (Some(Loc::X(m)), _) => self.get(m, b),
            (None, _) => {
                let s: u32 = self.x(b, X9);
                self.set(s, a);
            },
        }
        self.raised(a);
    }

    pub fn word(&mut self, a: Reg, w: u64)
        ensures
            final(self)@ == old(self)@.word(a, w),
    {
        let d: u32 = self.x_dst(a, X9);
        self.imm(d, w);
        self.store_from(d, a);
    }

    fn int_word(&mut self, op: IntOp, d: u32, n: u32, m: u32, zero: Label)
        ensures
            final(self)@ == old(self)@.int_word(op, d, n, m, zero),
    {
        match op {
            IntOp::Plus => self.put(0x8B00_0000 | m << 16 | n << 5 | d),
            IntOp::Minus => self.put(0xCB00_0000 | m << 16 | n << 5 | d),
            IntOp::Times => self.put(0x9B00_7C00 | m << 16 | n << 5 | d),
            // Both take the count modulo 64, which is what `wrapping_shl` does.
            IntOp::Shl => self.put(0x9AC0_2000 | m << 16 | n << 5 | d),
            IntOp::Shr => self.put(0x9AC0_2800 | m << 16 | n << 5 | d),
            IntOp::Ushr => self.put(0x9AC0_2400 | m << 16 | n << 5 | d),
            IntOp::And => self.put(0x8A00_0000 | m << 16 | n << 5 | d),
            IntOp::Div => {
                self.branch(zero, Fixup::Imm19, 0xB400_0000 | m);
                // `sdiv` wraps, as `i64::wrapping_div` does.
                self.put(0x9AC0_0C00 | m << 16 | n << 5 | d);
            },
            IntOp::Rem => {
                self.branch(zero, Fixup::Imm19, 0xB400_0000 | m);
                self.put(0x9AC0_0C00 | m << 16 | n << 5 | X11);
                self.put(0x9B00_8000 | m << 16 | n << 10 | X11 << 5 | d);
            },
        }
    }

    /// `r[a] = r[b] op c`, or on to `zero` for a division by zero.
    pub fn int_to(&mut self, op: IntOp, a: Reg, b: Reg, c: Operand, zero: Label)
        ensures
            final(self)@ == old(self)@.int_to(op, a, b, c, zero),
    {
        let n: u32 = self.x(b, X9);
        let d: u32 = self.x_dst(a, X9);
        if op == IntOp::Plus || op == IntOp::Minus {
            if let Some((k, negative)) = self.short_imm(c) {
                let base: u32 = if (op == IntOp::Minus) != negative {
                    0xD100_0000
                } else {
                    0x9100_0000
                };
                self.put(base | k << 10 | n << 5 | d);
                self.store_from(d, a);
                return;
            }
        }
        if op == IntOp::Shl || op == IntOp::Shr || op == IntOp::Ushr {
            if let Operand::Imm(k) = c {
                if k >= 1 && k < 64 {
                    let k: u32 = k as u32;
                    let word: u32 = match op {
                        IntOp::Shl => 0xD340_0000 | ((64 - k) % 64) << 16 | (63 - k) << 10,
                        IntOp::Shr => 0x9340_0000 | k << 16 | 63u32 << 10,
                        _ => 0xD340_0000 | k << 16 | 63u32 << 10,
                    };
                    self.put(word | n << 5 | d);
                    self.store_from(d, a);
                    return;
                }
            }
        }
        let m: u32 = self.operand(c, X10);
        self.int_word(op, d, n, m, zero);
        self.store_from(d, a);
    }

    pub fn unary(&mut self, op: UnaryOp, a: Reg, b: Reg)
        ensures
            final(self)@ == old(self)@.unary(op, a, b),
    {
        let n: u32 = self.x(b, X9);
        match op {
            // scvtf dd, xn
            UnaryOp::ToFloat => {
                let d: u32 = self.d_dst(a, 0);
                self.put(0x9E62_0000 | n << 5 | d);
                self.store_float_from(d, a);
            },
            // fmov d0, xn; cnt v0.8b, v0.8b; addv b0, v0.8b; fmov wd, s0.
            UnaryOp::PopCount => {
                self.fmov_dx(0, n);
                self.put(0x0E20_5800);
                self.put(0x0E31_B800);
                let d: u32 = self.x_dst(a, X9);
                self.put(0x1E26_0000 | d);
                self.store_from(d, a);
            },
        }
    }

    pub fn float(&mut self, op: FloatOp, a: Reg, b: Reg, c: Reg)
        ensures
            final(self)@ == old(self)@.float(op, a, b, c),
    {
        let n: u32 = self.d(b, 0);
        let m: u32 = self.d(c, 1);
        let d: u32 = self.d_dst(a, 0);
        let base: u32 = match op {
            FloatOp::Add => 0x1E60_2800,
            FloatOp::Sub => 0x1E60_3800,
            FloatOp::Mul => 0x1E60_0800,
            FloatOp::Div => 0x1E60_1800,
        };
        self.put(base | m << 16 | n << 5 | d);
        self.store_float_from(d, a);
    }

    fn int_cond(c: Cond) -> (r: u32)
        ensures
            r == A::int_cond(c),
    {
        match c {
            Cond::Eq => EQ,
            Cond::Ne => NE,
            Cond::Lt => LT,
            Cond::Le => LE,
            Cond::Gt => GT,
            Cond::Ge => GE,
        }
    }

    fn float_cond(c: Cond) -> (r: u32)
        ensures
            r == A::float_cond(c),
    {
        match c {
            Cond::Eq => EQ,
            Cond::Ne => NE,
            Cond::Lt => MI,
            Cond::Le => LS,
            Cond::Gt => GT,
            Cond::Ge => GE,
        }
    }

    /// `r[a] = r[b] cond c`, of integers.
    pub fn test_int(&mut self, cond: Cond, a: Reg, b: Reg, c: Operand)
        ensures
            final(self)@ == old(self)@.test_int(cond, a, b, c),
    {
        let n: u32 = self.x(b, X9);
        self.against(n, c);
        let d: u32 = self.x_dst(a, X9);
        self.cset(d, Self::int_cond(cond));
        self.store_from(d, a);
    }

    fn compared(&mut self, b: Reg, c: Reg)
        ensures
            final(self)@ == old(self)@.compared(b, c),
    {
        let n: u32 = self.d(b, 0);
        let m: u32 = self.d(c, 1);
        self.fcompare(n, m);
    }

    /// `r[a] = r[b] cond r[c]`, of floats.
    pub fn test_float(&mut self, cond: Cond, a: Reg, b: Reg, c: Reg)
        ensures
            final(self)@ == old(self)@.test_float(cond, a, b, c),
    {
        self.compared(b, c);
        let d: u32 = self.x_dst(a, X9);
        self.cset(d, Self::float_cond(cond));
        self.store_from(d, a);
    }

    /// On to `to` unless `r[x] cond y`, of integers.
    pub fn branch_int(&mut self, cond: Cond, x: Reg, y: Operand, to: Label)
        ensures
            final(self)@ == old(self)@.branch_int(cond, x, y, to),
    {
        let n: u32 = self.x(x, X9);
        self.against(n, y);
        self.b_cond(Self::int_cond(cond) ^ 1, to);
    }

    /// On to `to` unless `r[x] cond r[y]`, of floats.
    pub fn branch_float(&mut self, cond: Cond, x: Reg, y: Reg, to: Label)
        ensures
            final(self)@ == old(self)@.branch_float(cond, x, y, to),
    {
        self.compared(x, y);
        self.b_cond(Self::float_cond(cond) ^ 1, to);
    }

    pub fn branch_zero(&mut self, x: Reg, to: Label)
        ensures
            final(self)@ == old(self)@.branch_zero(x, to),
    {
        let n: u32 = self.x(x, X9);
        self.branch(to, Fixup::Imm19, 0xB400_0000 | n);
    }

    /// `fcmp dn, dm`
    pub fn fcompare(&mut self, n: u32, m: u32)
        ensures
            final(self)@ == old(self)@.fcompare(n, m),
    {
        self.put(0x1E60_2000 | m << 16 | n << 5);
    }

    pub fn set_live(&mut self, n: u32)
        ensures
            final(self)@ == old(self)@.set_live(n),
    {
        self.imm(X9, n as u64);
        self.str(X9, X19, self.at.live);
    }

    pub fn raise_live_to(&mut self, n: u32)
        ensures
            final(self)@ == old(self)@.raise_live_to(n),
    {
        self.raise(n);
    }

    pub fn back_edge(&mut self, to: Label, over: Label)
        ensures
            final(self)@ == old(self)@.back_edge(to, over),
    {
        self.put(0x9100_0400 | X22 << 5 | X22);
        self.put(0xF140_041F | X22 << 5);
        self.b_cond(HS, over);
        self.jump(to);
    }

    /// `xd = xn >> sh`, unsigned.
    pub fn thin_shr(&mut self, d: u32, n: u32, sh: u32)
        ensures
            final(self)@ == old(self)@.thin_shr(d, n, sh),
    {
        self.put(0xD340_0000 | sh << 16 | 63u32 << 10 | n << 5 | d);
    }

    /// `xd = xn` bits `lsb ..< lsb + width`, zero-extended.
    pub fn ubfx(&mut self, d: u32, n: u32, lsb: u32, width: u32)
        ensures
            final(self)@ == old(self)@.ubfx(d, n, lsb, width),
    {
        self.put(0xD340_0000 | lsb << 16 | lsb.wrapping_add(width).wrapping_sub(1) << 10 | n << 5 | d);
    }

    /// `ldr xt, [xn, xm, lsl #3]`
    pub fn ldr_idx(&mut self, t: u32, n: u32, m: u32)
        ensures
            final(self)@ == old(self)@.ldr_idx(t, n, m),
    {
        self.put(0xF860_7800 | m << 16 | n << 5 | t);
    }

    /// `xd = ` the slot address `xn`, as a machine address.
    pub fn thin_where(&mut self, d: u32, n: u32)
        ensures
            final(self)@ == old(self)@.thin_where(d, n),
    {
        self.put(0x9100_0000 | self.at.tables << 10 | X19 << 5 | X16);
        self.thin_shr(X17, n, self.at.gen_shift);
        self.ldr_idx(X16, X16, X17);
        self.ubfx(X17, n, self.at.block_shift, self.at.block_bits);
        self.ldr_idx(X16, X16, X17);
        self.ubfx(X17, n, 0, self.at.slot_bits);
        self.put(0x8B00_0000 | X17 << 16 | 3u32 << 10 | X16 << 5 | d);
    }

    /// `cmp w14, #imm`
    pub fn test_kind(&mut self, imm: u32)
        ensures
            final(self)@ == old(self)@.test_kind(imm),
    {
        self.put(0x7100_001F | imm << 10 | X14 << 5);
    }

    /// `x15 = x13 >> 32`: the object's length.
    pub fn length(&mut self)
        ensures
            final(self)@ == old(self)@.length(),
    {
        self.put(0xD360_FC00 | X13 << 5 | X15);
    }

    /// Every fixed register, to memory.
    pub fn spill(&mut self)
        ensures
            final(self)@ == old(self)@.spill(),
    {
        let ghost start = self@;
        let mut i: usize = 0;
        while i < self.pins.len()
            invariant
                i <= start.pins.len(),
                self@ == start.spill_to(i as nat),
                self@.pins == start.pins,
            decreases start.pins.len() - i,
        {
            let (r, m) = self.pins[i];
            match m {
                Loc::X(m) => self.str(m, X20, slot(r)),
                Loc::D(m) => self.str_d(m, X20, slot(r)),
            }
            i = i + 1;
        }
    }

    /// Every fixed register, from memory, to where it lives here.
    pub fn reload(&mut self)
        ensures
            final(self)@ == old(self)@.reload(),
    {
        let ghost start = self@;
        let mut i: usize = 0;
        while i < self.pins.len()
            invariant
                i <= start.pins.len(),
                self@ == start.reload_to(i as nat),
                self@.pins == start.pins,
            decreases start.pins.len() - i,
        {
            let (r, m) = self.pins[i];
            match m {
                Loc::X(m) => self.ldr(m, X20, slot(r)),
                Loc::D(m) => self.ldr_d(m, X20, slot(r)),
            }
            i = i + 1;
        }
    }

    fn move_floats(&mut self, into: bool)
        ensures
            final(self)@ == old(self)@.floats_to(into, old(self)@.pins.len()),
    {
        let ghost start = self@;
        let mut i: usize = 0;
        while i < self.pins.len()
            invariant
                i <= start.pins.len(),
                self@ == start.floats_to(into, i as nat),
                self@.pins == start.pins,
            decreases start.pins.len() - i,
        {
            let (r, m) = self.pins[i];
            match m {
                Loc::X(_) => {},
                Loc::D(d) => if into {
                    self.fmov_dx(d, home_of(r));
                } else {
                    self.fmov_xd(home_of(r), d);
                },
            }
            i = i + 1;
        }
    }

    /// Every float register in from its general register: the warm entry.
    pub fn floats_in(&mut self)
        ensures
            final(self)@ == old(self)@.floats_in(),
    {
        self.move_floats(true);
    }

    /// Every float register back out to its general register: before control goes on to
    /// another function, whose warm entry expects them there.
    pub fn floats_out(&mut self)
        ensures
            final(self)@ == old(self)@.floats_out(),
    {
        self.move_floats(false);
    }

    /// Every fixed register into its general register from memory.
    pub fn reload_x(&mut self)
        ensures
            final(self)@ == old(self)@.reload_x_to(FIXED as nat),
    {
        let ghost start = self@;
        let mut i: u8 = 0;
        while i < 13
            invariant
                i <= 13,
                self@ == start.reload_x_to(i as nat),
            decreases 13 - i,
        {
            self.ldr(home_of(i), X20, slot(i));
            i = i + 1;
        }
    }

    pub fn ret(&mut self, status: u32)
        ensures
            final(self)@ == old(self)@.ret(status),
    {
        self.spill();
        self.ret_as_is(status);
    }

    fn store_live(&mut self, live: Option<u32>)
        ensures
            final(self)@ == old(self)@.stored_live(live),
    {
        if let Some(n) = live {
            self.imm(X9, n as u64);
            self.str(X9, X19, self.at.live);
        }
    }

    /// Go on to the block at `pc`, in its own function.
    pub fn chain(&mut self, pc: Pc, live: Option<u32>, to: Option<Label>)
        ensures
            final(self)@ == old(self)@.chain(pc, live, to),
    {
        self.store_live(live);
        self.floats_out();
        let out: Label = self.label();
        self.budget(out);
        match to {
            Some(to) => self.jump(to),
            None => {
                self.ldr(X9, X19, self.at.native_table);
                self.imm(X10, pc as u64);
                self.put(0xF860_7800 | X10 << 16 | X9 << 5 | X9);
                self.branch(out, Fixup::Imm19, 0xB400_0000 | X9);
                self.enter_warm();
            },
        }
        self.bind(out);
        self.spill();
        self.imm(X9, pc as u64);
        self.str(X9, X19, self.at.pc);
        self.ret_as_is(self.at.jumped);
    }

    pub fn leave(&mut self, pc: Pc, live: Option<u32>)
        ensures
            final(self)@ == old(self)@.leave(pc, live),
    {
        self.imm(X9, pc as u64);
        self.str(X9, X19, self.at.pc);
        self.store_live(live);
        self.ret(self.at.jumped);
    }

    /// The interpreter's answers that are not "carry on", for every call in the function:
    /// returned as they are.
    pub fn end(&mut self)
        ensures
            final(self)@ == old(self)@.end(),
    {
        if let Some(l) = self.ret_w0 {
            self.ret_w0 = None;
            self.bind(l);
            self.restore_and_return();
        }
    }
}

} // verus!
