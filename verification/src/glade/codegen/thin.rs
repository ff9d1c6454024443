//! Primitives as runs of small steps, and the instructions they are.

use super::a64::{Asm, Fixup, Label, A, EQ, HI, HS, LO, LS, NE, X11, X12, X13, X14, X15, X16, X19, X10, X9};
use super::code::{Cond, Reg};
use crate::eval::prim::{count_ones, ones};
use crate::glade::object::Kind;
use vstd::prelude::*;
use vstd::std_specs::bits::u64_trailing_zeros;

verus! {

/// What a step reads.
#[derive(Debug, Clone, Copy, PartialEq, Eq, Structural)]
pub enum Src {
    /// A temporary of the run.
    Tmp(u8),
    Reg(Reg),
    Imm(u64),
}

/// A small step: the first is where its result goes.
#[derive(Debug, Clone, Copy, PartialEq, Eq, Structural)]
pub enum Step {
    Assign(u8, Src),
    Plus(u8, Src, Src),
    And(u8, Src, u64),
    Shr(u8, Src, u32),
    ShrBy(u8, Src, Src),
    /// The slot at an address.
    Load(u8, Src),
    Store(Src, Src),
    /// Where a slot address is in memory.
    Locate(u8, Src),
    LoadAt(u8, Src, Src),
    StoreAt(Src, Src, Src),
    /// Away, unless this holds, unsigned.
    Guard(Cond, Src, Src),
    Put(Reg, Src),
}

/// The machine register of temporary `t`.
pub open spec fn tmp(t: u8) -> u32 {
    (9 + t) as u32
}

fn tmp_of(t: u8) -> (r: u32)
    ensures
        r == tmp(t),
{
    9 + t as u32
}

/// `src` as an `imm12`, which `add` and `cmp` take directly.
pub open spec fn small(src: Src) -> Option<u32> {
    match src {
        Src::Imm(w) => if w < 4096 {
            Some(w as u32)
        } else {
            None
        },
        _ => None,
    }
}

fn small_imm(src: Src) -> (r: Option<u32>)
    ensures
        r == small(src),
{
    match src {
        Src::Imm(w) => if w < 4096 {
            Some(w as u32)
        } else {
            None
        },
        _ => None,
    }
}

/// `k` where `mask` is the low `k` bits, which `and` takes as a logical immediate.
pub open spec fn low(mask: u64) -> Option<u32> {
    if mask != 0 && mask != u64::MAX && (mask & ((mask + 1) as u64)) == 0 {
        Some(ones(mask, 64) as u32)
    } else {
        None
    }
}

fn low_bits(mask: u64) -> (r: Option<u32>)
    ensures
        r == low(mask),
{
    if mask != 0 && mask != u64::MAX && (mask & (mask + 1)) == 0 {
        Some(count_ones(mask))
    } else {
        None
    }
}

/// `k` where `w` is `2^k`.
pub open spec fn exponent(w: u64) -> Option<u32> {
    if w != 0 && (w & ((w - 1) as u64)) == 0 && u64_trailing_zeros(w) < 64 {
        Some(u64_trailing_zeros(w))
    } else {
        None
    }
}

fn log2(w: u64) -> (r: Option<u32>)
    ensures
        r == exponent(w),
{
    if w != 0 && (w & (w - 1)) == 0 && w.trailing_zeros() < 64 {
        Some(w.trailing_zeros())
    } else {
        None
    }
}

/// The condition on which a guard goes away: its negation, unsigned.
pub open spec fn fails(c: Cond) -> u32 {
    match c {
        Cond::Eq => NE,
        Cond::Ne => EQ,
        Cond::Lt => HS,
        Cond::Le => HI,
        Cond::Gt => LS,
        Cond::Ge => LO,
    }
}

impl A {
    /// Where `src` already is, or `scratch`.
    pub open spec fn thin_of(self, src: Src, scratch: u32) -> u32 {
        match src {
            Src::Tmp(t) => tmp(t),
            Src::Reg(r) => self.x_of(r, scratch),
            Src::Imm(_) => scratch,
        }
    }

    /// With it there.
    pub open spec fn thin(self, src: Src, scratch: u32) -> A {
        match src {
            Src::Tmp(_) => self,
            Src::Reg(r) => self.x(r, scratch),
            Src::Imm(w) => self.imm(scratch, w),
        }
    }

    pub open spec fn thin_src(self, d: u32, src: Src) -> A {
        match src {
            Src::Reg(r) => self.get(d, r),
            Src::Tmp(t) => self.mov_x(d, tmp(t)),
            Src::Imm(w) => self.imm(d, w),
        }
    }

    pub open spec fn plus_step(self, d: u32, a: Src, b: Src) -> A {
        let n = self.thin_of(a, X14);
        let s = self.thin(a, X14);
        match small(b) {
            Some(k) => s.put(0x9100_0000 | k << 10 | n << 5 | d),
            None => s.thin(b, X15).put(0x8B00_0000 | s.thin_of(b, X15) << 16 | n << 5 | d),
        }
    }

    pub open spec fn and_step(self, d: u32, a: Src, mask: u64) -> A {
        let n = self.thin_of(a, X14);
        let s = self.thin(a, X14);
        match low(mask) {
            Some(k) => s.put(0x9240_0000 | k.wrapping_sub(1) << 10 | n << 5 | d),
            None => s.imm(X15, mask).put(0x8A00_0000 | X15 << 16 | n << 5 | d),
        }
    }

    pub open spec fn load_at_step(self, d: u32, base: Src, off: Src) -> A {
        let b = self.thin_of(base, X14);
        let s = self.thin(base, X14);
        match small(off) {
            Some(k) => s.ldr(d, b, (k * 8) as u32),
            None => s.thin(off, X15).ldr_idx(d, b, s.thin_of(off, X15)),
        }
    }

    pub open spec fn store_at_step(self, base: Src, off: Src, v: Src) -> A {
        let b = self.thin_of(base, X14);
        let s = self.thin(base, X14);
        let o = s.thin_of(off, X15);
        let s = s.thin(off, X15);
        s.thin(v, X16).put(0xF820_7800 | o << 16 | b << 5 | s.thin_of(v, X16))
    }

    /// `a < 2^k` is "no bit at or above k", which is a shift and a test.
    pub open spec fn guard_step(self, c: Cond, a: Src, b: Src, slow: Label) -> A {
        let n = self.thin_of(a, X14);
        let s = self.thin(a, X14);
        if c == Cond::Lt && b is Imm && exponent(b->Imm_0) is Some {
            s.thin_shr(X15, n, exponent(b->Imm_0)->0).branch(slow, Fixup::Imm19, 0xB500_0000 | X15)
        } else {
            (match small(b) {
                Some(k) => s.put(0xF100_001F | k << 10 | n << 5),
                None => s.thin(b, X15).compare(n, s.thin_of(b, X15)),
            }).b_cond(fails(c), slow)
        }
    }

    pub open spec fn thin_step(self, s: Step, slow: Label) -> A {
        match s {
            Step::Assign(t, src) => self.thin_src(tmp(t), src),
            Step::Plus(t, a, b) => self.plus_step(tmp(t), a, b),
            Step::And(t, a, mask) => self.and_step(tmp(t), a, mask),
            Step::Shr(t, a, n) => self.thin(a, X14).thin_shr(tmp(t), self.thin_of(a, X14), n),
            Step::ShrBy(t, a, b) => {
                let n = self.thin_of(a, X14);
                let s = self.thin(a, X14);
                s.thin(b, X15).put(0x9AC0_2400 | s.thin_of(b, X15) << 16 | n << 5 | tmp(t))
            },
            Step::Load(t, at) => self.thin(at, X14).thin_where(X15, self.thin_of(at, X14)).ldr(tmp(t), X15, 0),
            Step::Store(at, v) => {
                let s = self.thin(at, X14).thin_where(X15, self.thin_of(at, X14));
                s.thin(v, X14).str(s.thin_of(v, X14), X15, 0)
            },
            Step::Locate(t, at) => self.thin(at, X14).thin_where(tmp(t), self.thin_of(at, X14)),
            Step::LoadAt(t, base, off) => self.load_at_step(tmp(t), base, off),
            Step::StoreAt(base, off, v) => self.store_at_step(base, off, v),
            Step::Guard(c, a, b) => self.guard_step(c, a, b, slow),
            Step::Put(r, src) => self.thin(src, X14).set(self.thin_of(src, X14), r),
        }
    }

    /// The first `n` steps of a run.
    pub open spec fn thin_steps(self, run: Seq<Step>, slow: Label, n: nat) -> A
        decreases n,
    {
        if n == 0 || n > run.len() {
            self
        } else {
            self.thin_steps(run, slow, (n - 1) as nat).thin_step(run[n - 1], slow)
        }
    }

    /// The object whose address is in `x9`: `x12` where its first slot is in memory, `x13` its
    /// first header word and `w14` its kind. A compact region goes to `slow`. A nursery object
    /// is one load off the nursery's base, a frame in the current chunk one off the chunk's, and
    /// any other the walk of the block table.
    pub open spec fn locate(self, slow: Label) -> A {
        let at = self.at;
        let old = self.next_label();
        let s = self.new_label();
        let found = s.next_label();
        let s = s.new_label().thin_shr(X10, X9, at.gen_shift).branch(old, Fixup::Imm19, 0xB500_0000 | X10).ldr(
            X11,
            X19,
            at.base,
        ).put(0x8B00_0000 | X9 << 16 | 3u32 << 10 | X11 << 5 | X12).jump(found).bind(old).thin_shr(
            X10,
            X9,
            at.gen_shift.wrapping_add(1),
        ).branch(slow, Fixup::Imm19, 0xB500_0000 | X10);
        let walk = s.next_label();
        s.new_label().put(0xB940_0000 | (at.fcur / 4) << 10 | X19 << 5 | X10).put(
            0xB940_0000 | (at.flim / 4) << 10 | X19 << 5 | X11,
        ).compare(X9, X10).b_cond(LO, walk).compare(X9, X11).b_cond(HS, walk).put(
            0xCB0A_0000 | X9 << 5 | X10,
        ).ldr(X11, X19, at.fbase).put(0x8B00_0000 | X10 << 16 | 3u32 << 10 | X11 << 5 | X12).jump(found).bind(
            walk,
        ).thin_where(X12, X9).bind(found).ldr(X13, X12, 0).put(0x1200_1C00 | X13 << 5 | X14)
    }

    /// The same for the object in `r[x]`.
    pub open spec fn nursery(self, x: Reg, slow: Label) -> A {
        self.get(X9, x).locate(slow)
    }

    pub open spec fn tag_test(self, x: Reg, tag: u32, miss: Label, slow: Label) -> A {
        self.nursery(x, slow).test_kind(Kind::Data.byte() as u32).b_cond(NE, miss).put(
            0xB940_0000 | 2u32 << 10 | X12 << 5 | X14,
        ).imm(X10, tag as u64).put(0x6B00_001F | X10 << 16 | X14 << 5).b_cond(NE, miss)
    }

    /// `r[a] = ` field `i` of `r[b]`.
    pub open spec fn field(self, a: Reg, b: Reg, i: u32, slow: Label) -> A {
        if i >= 4000 {
            self.jump(slow)
        } else {
            let s = self.nursery(b, slow).test_kind(Kind::Array.byte() as u32).b_cond(HI, slow).length().put(
                0xF100_001F | i << 10 | X15 << 5,
            ).b_cond(LS, slow);
            let two_words = s.next_label();
            s.new_label().put(0xF274_001F | X13 << 5).b_cond(NE, two_words).put(0xF100_201F | X15 << 5).b_cond(
                HI,
                slow,
            ).bind(two_words).ldr(X9, X12, ((2 + i) * 8) as u32).store(a)
        }
    }
}

impl Asm {
    fn thin(&mut self, src: Src, scratch: u32) -> (x: u32)
        ensures
            final(self)@ == old(self)@.thin(src, scratch),
            x == old(self)@.thin_of(src, scratch),
    {
        match src {
            Src::Tmp(t) => tmp_of(t),
            Src::Reg(r) => self.x(r, scratch),
            Src::Imm(w) => {
                self.imm(scratch, w);
                scratch
            },
        }
    }

    fn thin_src(&mut self, d: u32, src: Src)
        ensures
            final(self)@ == old(self)@.thin_src(d, src),
    {
        match src {
            Src::Reg(r) => self.get(d, r),
            Src::Tmp(t) => self.mov_x(d, tmp_of(t)),
            Src::Imm(w) => self.imm(d, w),
        }
    }

    fn plus_step(&mut self, d: u32, a: Src, b: Src)
        ensures
            final(self)@ == old(self)@.plus_step(d, a, b),
    {
        let n: u32 = self.thin(a, X14);
        match small_imm(b) {
            Some(k) => self.put(0x9100_0000 | k << 10 | n << 5 | d),
            None => {
                let m: u32 = self.thin(b, X15);
                self.put(0x8B00_0000 | m << 16 | n << 5 | d);
            },
        }
    }

    fn and_step(&mut self, d: u32, a: Src, mask: u64)
        ensures
            final(self)@ == old(self)@.and_step(d, a, mask),
    {
        let n: u32 = self.thin(a, X14);
        match low_bits(mask) {
            Some(k) => self.put(0x9240_0000 | k.wrapping_sub(1) << 10 | n << 5 | d),
            None => {
                self.imm(X15, mask);
                self.put(0x8A00_0000 | X15 << 16 | n << 5 | d);
            },
        }
    }

    fn load_at_step(&mut self, d: u32, base: Src, off: Src)
        ensures
            final(self)@ == old(self)@.load_at_step(d, base, off),
    {
        let b: u32 = self.thin(base, X14);
        match small_imm(off) {
            Some(k) => self.ldr(d, b, k * 8),
            None => {
                let o: u32 = self.thin(off, X15);
                self.ldr_idx(d, b, o);
            },
        }
    }

    fn store_at_step(&mut self, base: Src, off: Src, v: Src)
        ensures
            final(self)@ == old(self)@.store_at_step(base, off, v),
    {
        let b: u32 = self.thin(base, X14);
        let o: u32 = self.thin(off, X15);
        let v: u32 = self.thin(v, X16);
        self.put(0xF820_7800 | o << 16 | b << 5 | v);
    }

    fn guard_step(&mut self, c: Cond, a: Src, b: Src, slow: Label)
        ensures
            final(self)@ == old(self)@.guard_step(c, a, b, slow),
    {
        let n: u32 = self.thin(a, X14);
        if c == Cond::Lt {
            if let Src::Imm(w) = b {
                if let Some(k) = log2(w) {
                    self.thin_shr(X15, n, k);
                    self.branch(slow, Fixup::Imm19, 0xB500_0000 | X15);
                    return;
                }
            }
        }
        match small_imm(b) {
            Some(k) => self.put(0xF100_001F | k << 10 | n << 5),
            None => {
                let m: u32 = self.thin(b, X15);
                self.compare(n, m);
            },
        }
        let f: u32 = match c {
            Cond::Eq => NE,
            Cond::Ne => EQ,
            Cond::Lt => HS,
            Cond::Le => HI,
            Cond::Gt => LS,
            Cond::Ge => LO,
        };
        self.b_cond(f, slow);
    }

    fn thin_step(&mut self, s: Step, slow: Label)
        ensures
            final(self)@ == old(self)@.thin_step(s, slow),
    {
        match s {
            Step::Assign(t, src) => self.thin_src(tmp_of(t), src),
            Step::Plus(t, a, b) => self.plus_step(tmp_of(t), a, b),
            Step::And(t, a, mask) => self.and_step(tmp_of(t), a, mask),
            Step::Shr(t, a, n) => {
                let a: u32 = self.thin(a, X14);
                self.thin_shr(tmp_of(t), a, n);
            },
            Step::ShrBy(t, a, b) => {
                let n: u32 = self.thin(a, X14);
                let m: u32 = self.thin(b, X15);
                self.put(0x9AC0_2400 | m << 16 | n << 5 | tmp_of(t));
            },
            Step::Load(t, at) => {
                let at: u32 = self.thin(at, X14);
                self.thin_where(X15, at);
                self.ldr(tmp_of(t), X15, 0);
            },
            Step::Store(at, v) => {
                let at: u32 = self.thin(at, X14);
                self.thin_where(X15, at);
                let v: u32 = self.thin(v, X14);
                self.str(v, X15, 0);
            },
            Step::Locate(t, at) => {
                let at: u32 = self.thin(at, X14);
                self.thin_where(tmp_of(t), at);
            },
            Step::LoadAt(t, base, off) => self.load_at_step(tmp_of(t), base, off),
            Step::StoreAt(base, off, v) => self.store_at_step(base, off, v),
            Step::Guard(c, a, b) => self.guard_step(c, a, b, slow),
            Step::Put(r, src) => {
                let v: u32 = self.thin(src, X14);
                self.set(v, r);
            },
        }
    }

    /// A run of small steps, or on to `slow` where a guard fails.
    pub fn steps(&mut self, run: &[Step], slow: Label)
        ensures
            final(self)@ == old(self)@.thin_steps(run@, slow, run@.len()),
    {
        let ghost start = self@;
        let mut i: usize = 0;
        while i < run.len()
            invariant
                i <= run@.len(),
                self@ == start.thin_steps(run@, slow, i as nat),
            decreases run@.len() - i,
        {
            self.thin_step(run[i], slow);
            i = i + 1;
        }
    }

    pub fn locate(&mut self, slow: Label)
        ensures
            final(self)@ == old(self)@.locate(slow),
    {
        let at: super::a64::Layout = self.at;
        let old_one: Label = self.label();
        let found: Label = self.label();
        self.thin_shr(X10, X9, at.gen_shift);
        self.branch(old_one, Fixup::Imm19, 0xB500_0000 | X10);
        self.ldr(X11, X19, at.base);
        self.put(0x8B00_0000 | X9 << 16 | 3u32 << 10 | X11 << 5 | X12);
        self.jump(found);
        self.bind(old_one);
        // Not a region: the generation bit was the old one.
        self.thin_shr(X10, X9, at.gen_shift.wrapping_add(1));
        self.branch(slow, Fixup::Imm19, 0xB500_0000 | X10);
        let walk: Label = self.label();
        self.put(0xB940_0000 | (at.fcur / 4) << 10 | X19 << 5 | X10);
        self.put(0xB940_0000 | (at.flim / 4) << 10 | X19 << 5 | X11);
        self.compare(X9, X10);
        self.b_cond(LO, walk);
        self.compare(X9, X11);
        self.b_cond(HS, walk);
        self.put(0xCB0A_0000 | X9 << 5 | X10);
        self.ldr(X11, X19, at.fbase);
        self.put(0x8B00_0000 | X10 << 16 | 3u32 << 10 | X11 << 5 | X12);
        self.jump(found);
        self.bind(walk);
        self.thin_where(X12, X9);
        self.bind(found);
        self.ldr(X13, X12, 0);
        self.put(0x1200_1C00 | X13 << 5 | X14);
    }

    pub fn nursery(&mut self, x: Reg, slow: Label)
        ensures
            final(self)@ == old(self)@.nursery(x, slow),
    {
        self.get(X9, x);
        self.locate(slow);
    }

    /// On to `miss` unless `r[x]` is data of that tag.
    pub fn tag_test(&mut self, x: Reg, tag: u32, miss: Label, slow: Label)
        ensures
            final(self)@ == old(self)@.tag_test(x, tag, miss, slow),
    {
        self.nursery(x, slow);
        self.test_kind(Kind::Data.to_byte() as u32);
        self.b_cond(NE, miss);
        self.put(0xB940_0000 | 2u32 << 10 | X12 << 5 | X14);
        self.imm(X10, tag as u64);
        self.put(0x6B00_001F | X10 << 16 | X14 << 5);
        self.b_cond(NE, miss);
    }

    pub fn field(&mut self, a: Reg, b: Reg, i: u32, slow: Label)
        ensures
            final(self)@ == old(self)@.field(a, b, i, slow),
    {
        if i >= 4000 {
            self.jump(slow);
            return;
        }
        self.nursery(b, slow);
        self.test_kind(Kind::Array.to_byte() as u32);
        self.b_cond(HI, slow);
        self.length();
        self.put(0xF100_001F | i << 10 | X15 << 5);
        self.b_cond(LS, slow);
        let two_words: Label = self.label();
        self.put(0xF274_001F | X13 << 5);
        self.b_cond(NE, two_words);
        self.put(0xF100_201F | X15 << 5);
        self.b_cond(HI, slow);
        self.bind(two_words);
        self.ldr(X9, X12, (2 + i) * 8);
        self.store(a);
    }
}

} // verus!
