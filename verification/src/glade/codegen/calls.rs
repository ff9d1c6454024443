//! Calls, returns and allocation.

use super::a64::{
    home, home_of, Asm, Fixup, Label, Layout, A, FIXED, HI, HS, LO, LS, LT, NE, X0, X10, X11, X12, X13, X14, X15,
    X16, X17, X19, X20, X9,
};
use super::code::{Pc, Reg};
use crate::glade::object::{header_slots, slots, Kind};
use vstd::prelude::*;

verus! {

/// What `n` slots take, in bytes.
pub open spec fn in_bytes(n: u32) -> u32 {
    n.wrapping_mul(8)
}

/// X1, the second argument of a call.
pub const X1: u32 = 1;

impl A {
    /// `r[r] = xt`, into its general register whatever it lives in for this function.
    pub open spec fn set_x(self, t: u32, r: u32) -> A {
        if r < 13 {
            if home(r as int) != t {
                self.mov_x(home(r as int), t)
            } else {
                self
            }
        } else {
            self.str(t, X20, in_bytes(r))
        }
    }

    /// `xd = ` the block number of the frame stack's current chunk, from its end.
    pub open spec fn chunk_of_current(self, d: u32, t: u32) -> A {
        self.put(0xB940_0000 | (self.at.flim / 4) << 10 | X19 << 5 | t).put(0xD100_0400 | t << 5 | t).thin_shr(
            d,
            t,
            self.at.block_shift,
        )
    }

    /// `x16 = ` the method entry for the pc in `w17`, or on to `none`.
    pub open spec fn method_entry(self, none: Label) -> A {
        self.ldr(X16, X19, self.at.native_methods).put(0xF860_7800 | X17 << 16 | X16 << 5 | X16).branch(
            none,
            Fixup::Imm19,
            0xB400_0000 | X16,
        ).budget(none)
    }

    /// The first `n` arguments at `r[base]` down to `r[0..n]`, lowest first.
    pub open spec fn args_to(self, base: Reg, n: nat) -> A
        decreases n,
    {
        if n == 0 {
            self
        } else {
            let s = self.args_to(base, (n - 1) as nat);
            let r: u8 = base.wrapping_add((n - 1) as u8);
            s.x(r, X9).set_x(s.x_of(r, X9), (n - 1) as u32)
        }
    }

    pub open spec fn args_down(self, base: Reg, argc: u32) -> A {
        if base == 0 {
            self
        } else {
            self.args_to(base, argc as nat)
        }
    }

    /// The interpreter called for the instruction at `pc`.
    pub open spec fn interpret(self, pc: Pc) -> A {
        let s = self.flush_steps().spill().mov_x(X0, X19).put(0x5280_0000 | (pc & 0xFFFF) << 5 | X1);
        let s = if pc >> 16 != 0 {
            s.put(0x72A0_0000 | (pc >> 16) << 5 | X1)
        } else {
            s
        };
        let s = s.ldr(X16, X19, s.at.interpret).put(0xD63F_0000 | X16 << 5);
        let (s, l) = match s.ret_w0 {
            Some(l) => (s, l),
            None => (A { ret_w0: Some(s.next_label()), ..s.new_label() }, s.next_label()),
        };
        s.branch(l, Fixup::Imm19, 0x3500_0000 | X0).reload()
    }

    /// The first `n` words of a header, at `x14`.
    pub open spec fn header_to(self, header: Seq<u64>, n: nat) -> A
        decreases n,
    {
        if n == 0 || n > header.len() {
            self
        } else {
            self.header_to(header, (n - 1) as nat).imm(X15, header[n - 1]).str(X15, X14, in_bytes((n - 1) as u32))
        }
    }

    /// The first `n` fields behind a header of `hdr` words.
    pub open spec fn fields_to(self, fields: Seq<Reg>, hdr: u32, n: nat) -> A
        decreases n,
    {
        if n == 0 || n > fields.len() {
            self
        } else {
            let s = self.fields_to(fields, hdr, (n - 1) as nat);
            s.x(fields[n - 1], X15).str(
                s.x_of(fields[n - 1], X15),
                X14,
                in_bytes(hdr.wrapping_add((n - 1) as u32)),
            )
        }
    }

    /// `r[a] = ` a new object in the nursery, or on to `slow` where it does not fit.
    pub open spec fn allocate(self, a: Reg, header: Seq<u64>, fields: Seq<Reg>, slow: Label) -> A {
        let at = self.at;
        let hdr = header.len() as u32;
        let size = hdr.wrapping_add(fields.len() as u32);
        self.ldr(X9, X19, at.top).put(0x9100_0000 | size << 10 | X9 << 5 | X10).ldr(X11, X19, at.cap).compare(
            X10,
            X11,
        ).b_cond(HI, slow).ldr(X12, X19, at.region_growth).compare(X12, X11).b_cond(HI, slow).ldr(
            X13,
            X19,
            at.base,
        ).put(0x8B00_0000 | X9 << 16 | 3u32 << 10 | X13 << 5 | X14).header_to(header, header.len()).fields_to(
            fields,
            hdr,
            fields.len(),
        ).str(X10, X19, at.top).ldr(X15, X19, at.allocated).put(0x9100_0000 | size << 10 | X15 << 5 | X15).str(
            X15,
            X19,
            at.allocated,
        ).store(a)
    }

    /// `r[a] = ` a new frame on the frame stack, or on to `slow` where it does not fit.
    pub open spec fn frame(self, a: Reg, header: Seq<u64>, fields: Seq<Reg>, slow: Label) -> A {
        let at = self.at;
        let hdr = header.len() as u32;
        let size = hdr.wrapping_add(fields.len() as u32);
        self.put(0xB940_0000 | (at.fsp / 4) << 10 | X19 << 5 | X9).put(
            0x1100_0000 | size << 10 | X9 << 5 | X10,
        ).put(0xB940_0000 | (at.flim / 4) << 10 | X19 << 5 | X11).compare(X10, X11).b_cond(HI, slow).put(
            0xB940_0000 | (at.fcur / 4) << 10 | X19 << 5 | X12,
        ).put(0xCB0C_0000 | X9 << 5 | X12).ldr(X13, X19, at.fbase).put(
            0x8B00_0000 | X12 << 16 | 3u32 << 10 | X13 << 5 | X14,
        ).header_to(header, header.len()).fields_to(fields, hdr, fields.len()).put(
            0xB900_0000 | (at.fsp / 4) << 10 | X19 << 5 | X10,
        ).store(a)
    }

    /// The last `n` of `argc` arguments up past the captures, highest first.
    pub open spec fn args_up(self, captures: u32, argc: u32, n: nat) -> A
        decreases n,
    {
        if n == 0 {
            self
        } else {
            let j = argc - n;
            self.args_up(captures, argc, (n - 1) as nat).mov_x(home(captures + j), home(j))
        }
    }

    /// The first `n` captures behind a header of `hdr` words.
    pub open spec fn captures_in(self, hdr: u32, n: nat) -> A
        decreases n,
    {
        if n == 0 {
            self
        } else {
            self.captures_in(hdr, (n - 1) as nat).ldr(home(n - 1), X12, in_bytes(hdr.wrapping_add((n - 1) as u32)))
        }
    }

    /// A method's entry: its arguments up past its captures, and the captures in.
    pub open spec fn stub(self, captures: u32, params: u32, warm: Label) -> A {
        let argc = (params - captures) as u32;
        let hdr = slots(false, captures as nat) as u32;
        self.args_up(captures, argc, argc as nat).captures_in(hdr, captures as nat).imm(X9, params as u64).str(
            X9,
            X19,
            self.at.live,
        ).jump(warm)
    }

    /// The first `n` arguments out of the way, to the scratch slots.
    pub open spec fn args_out(self, base: Reg, n: nat) -> A
        decreases n,
    {
        if n == 0 {
            self
        } else {
            let j = (n - 1) as u32;
            self.args_out(base, (n - 1) as nat).ldr(X9, X20, in_bytes((base + j) as u32)).str(
                X9,
                X20,
                in_bytes(self.at.scratch.wrapping_add(j)),
            )
        }
    }

    /// The first `n` arguments back in, behind the captures.
    pub open spec fn args_in(self, n: nat) -> A
        decreases n,
    {
        if n == 0 {
            self
        } else {
            let j = (n - 1) as u32;
            self.args_in((n - 1) as nat).ldr(X9, X20, in_bytes(self.at.scratch.wrapping_add(j))).put(
                0x9100_0000 | j << 10 | X15 << 5 | X11,
            ).put(0xF820_7800 | X11 << 16 | X20 << 5 | X9)
        }
    }

    /// On to a method's entry with its arguments in place, where functions are chained.
    pub open spec fn go_in(self, none: Label, base: Reg, argc: u32, pop: bool) -> A {
        if !self.chains {
            self
        } else {
            let s = self.method_entry(none);
            let s = if pop {
                s.put(0xB900_0000 | (s.at.fsp / 4) << 10 | X19 << 5 | X9)
            } else {
                s
            };
            s.args_down(base, argc).put(0xD61F_0000 | X16 << 5)
        }
    }

    /// A return: the object is a frame in the current chunk of the frame stack, whose return pc
    /// is its `meta`.
    pub open spec fn through_frame(self, object: Label, generic: Label, generic_frame: Label, base: Reg, argc: u32) -> A {
        let at = self.at;
        self.put(0xB940_0000 | (at.fcur / 4) << 10 | X19 << 5 | X10).put(
            0xB940_0000 | (at.flim / 4) << 10 | X19 << 5 | X11,
        ).compare(X9, X10).b_cond(LO, object).compare(X9, X11).b_cond(HS, object).put(
            0xCB0A_0000 | X9 << 5 | X10,
        ).ldr(X11, X19, at.fbase).put(0x8B00_0000 | X10 << 16 | 3u32 << 10 | X11 << 5 | X12).put(
            0xB940_0000 | 2u32 << 10 | X12 << 5 | X17,
        ).go_in(generic_frame, base, argc, true).bind(generic_frame).ldr(X13, X12, 0).length().jump(generic)
    }

    /// A call: a closure, wherever it is, and the pc of its method.
    pub open spec fn through_closure(self, method: u8, generic: Label, base: Reg, argc: u32, slow: Label) -> A {
        let at = self.at;
        let m = method as u32;
        self.locate(slow).test_kind(Kind::Closure.byte() as u32).b_cond(NE, slow).length().put(
            0xB940_0000 | 2u32 << 10 | X12 << 5 | X14,
        ).ldr(X16, X19, at.method_starts).put(0xB860_7800 | X14 << 16 | X16 << 5 | X10).put(
            0x9100_0400 | X14 << 5 | X14,
        ).put(0xB860_7800 | X14 << 16 | X16 << 5 | X11).put(0xCB00_0000 | X10 << 16 | X11 << 5 | X11).put(
            0xF100_001F | m << 10 | X11 << 5,
        ).b_cond(LS, slow).put(0x9100_0000 | m << 10 | X10 << 5 | X10).ldr(X16, X19, at.method_pcs).put(
            0xB860_7800 | X10 << 16 | X16 << 5 | X17,
        ).go_in(generic, base, argc, false)
    }

    /// The register file rebuilt in memory: the arguments out of the way, the captures in, the
    /// arguments after.
    pub open spec fn rebuild(self, saved: u32, base: Reg, argc: u32) -> A {
        let s = self.spill().str(X9, X20, saved).put(0xD100_0000 | 8u32 << 10 | X15 << 5 | X14).put(
            0xF100_001F | X14 << 5,
        ).put(0x9A80_0000 | X14 << 16 | LT << 12 | 31u32 << 5 | X14).put(
            0x9100_0000 | 15u32 << 10 | X14 << 5 | X14,
        ).thin_shr(X14, X14, 4).put(0x9100_0000 | 2u32 << 10 | X14 << 5 | X14).args_out(base, argc as nat);
        let top = s.next_label();
        let s = s.new_label();
        let done = s.next_label();
        s.new_label().imm(X10, 0).bind(top).compare(X10, X15).b_cond(HS, done).put(
            0x8B00_0000 | X14 << 16 | X10 << 5 | X11,
        ).put(0xF860_7800 | X11 << 16 | X12 << 5 | X9).put(0xF820_7800 | X10 << 16 | X20 << 5 | X9).put(
            0x9100_0400 | X10 << 5 | X10,
        ).jump(top).bind(done).args_in(argc as nat).put(0x9100_0000 | argc << 10 | X15 << 5 | X9).str(
            X9,
            X19,
            self.at.live,
        )
    }

    /// Returning through a frame pops it: the stack's top goes back to the frame's own slot.
    pub open spec fn pop_frame(self, saved: u32) -> A {
        let kept = self.next_label();
        let at = self.at;
        self.new_label().ldr(X9, X20, saved).chunk_of_current(X10, X11).thin_shr(X11, X9, at.block_shift).compare(
            X10,
            X11,
        ).b_cond(NE, kept).put(0xB900_0000 | (at.fsp / 4) << 10 | X19 << 5 | X9).bind(kept)
    }

    /// On to the function at the pc in `x17`, where there is one and functions are chained.
    pub open spec fn go_on(self) -> A {
        if !self.chains {
            self
        } else {
            let out = self.next_label();
            let at = self.at;
            self.new_label().budget(out).ldr(X9, X19, at.native_table).put(
                0xF860_7800 | X17 << 16 | X9 << 5 | X9,
            ).branch(out, Fixup::Imm19, 0xB400_0000 | X9).reload_x_to(FIXED as nat).enter_warm().bind(out)
        }
    }

    /// Method `method` of the object in `r[obj]`, with `argc` arguments at `r[base]`.
    pub open spec fn invoke(self, obj: Reg, method: u8, base: Reg, argc: u32, slow: Label) -> A {
        if argc > 247 {
            self.jump(slow)
        } else {
            let saved = in_bytes(self.at.scratch.wrapping_add(argc));
            let s = self.floats_out().get(X9, obj);
            let object = s.next_label();
            let s = s.new_label();
            let generic = s.next_label();
            let s = s.new_label();
            let generic_frame = s.next_label();
            let s = s.new_label().through_frame(object, generic, generic_frame, base, argc).bind(
                object,
            ).through_closure(method, generic, base, argc, slow).bind(generic).rebuild(saved, base, argc).pop_frame(
                saved,
            ).go_on();
            s.str(X17, X19, s.at.pc).ret_as_is(s.at.jumped)
        }
    }
}

impl Asm {
    fn set_x(&mut self, t: u32, r: u32)
        ensures
            final(self)@ == old(self)@.set_x(t, r),
    {
        if r < 13 {
            let m: u32 = home_of(r as u8);
            if m != t {
                self.mov_x(m, t);
            }
        } else {
            self.str(t, X20, r.wrapping_mul(8));
        }
    }

    fn chunk_of_current(&mut self, d: u32, t: u32)
        ensures
            final(self)@ == old(self)@.chunk_of_current(d, t),
    {
        let at: Layout = self.at;
        self.put(0xB940_0000 | (at.flim / 4) << 10 | X19 << 5 | t);
        self.put(0xD100_0400 | t << 5 | t);
        self.thin_shr(d, t, at.block_shift);
    }

    fn method_entry(&mut self, none: Label)
        ensures
            final(self)@ == old(self)@.method_entry(none),
    {
        self.ldr(X16, X19, self.at.native_methods);
        self.put(0xF860_7800 | X17 << 16 | X16 << 5 | X16);
        self.branch(none, Fixup::Imm19, 0xB400_0000 | X16);
        self.budget(none);
    }

    fn args_down(&mut self, base: Reg, argc: u32)
        requires
            argc <= 247,
        ensures
            final(self)@ == old(self)@.args_down(base, argc),
    {
        if base == 0 {
            return;
        }
        let ghost start = self@;
        let mut j: u32 = 0;
        while j < argc
            invariant
                j <= argc,
                argc <= 247,
                self@ == start.args_to(base, j as nat),
            decreases argc - j,
        {
            let s: u32 = self.x(base.wrapping_add(j as u8), X9);
            self.set_x(s, j);
            j = j + 1;
        }
    }

    /// The interpreter called for the instruction at `pc`: its answers that are not "carry on"
    /// are returned.
    pub fn interpret(&mut self, pc: Pc)
        ensures
            final(self)@ == old(self)@.interpret(pc),
    {
        self.flush_steps();
        self.spill();
        self.mov_x(X0, X19);
        self.put(0x5280_0000 | (pc & 0xFFFF) << 5 | X1);
        if pc >> 16 != 0 {
            self.put(0x72A0_0000 | (pc >> 16) << 5 | X1);
        }
        self.ldr(X16, X19, self.at.interpret);
        self.put(0xD63F_0000 | X16 << 5);
        let l: Label = match self.ret_w0 {
            Some(l) => l,
            None => {
                let l: Label = self.label();
                self.ret_w0 = Some(l);
                l
            },
        };
        self.branch(l, Fixup::Imm19, 0x3500_0000 | X0);
        self.reload();
    }

    fn header_in(&mut self, header: &[u64])
        ensures
            final(self)@ == old(self)@.header_to(header@, header@.len()),
    {
        let ghost start = self@;
        let mut k: usize = 0;
        while k < header.len()
            invariant
                k <= header@.len(),
                self@ == start.header_to(header@, k as nat),
            decreases header@.len() - k,
        {
            self.imm(X15, header[k]);
            self.str(X15, X14, (k as u32).wrapping_mul(8));
            k = k + 1;
        }
    }

    fn fields_in(&mut self, fields: &[Reg], hdr: u32)
        ensures
            final(self)@ == old(self)@.fields_to(fields@, hdr, fields@.len()),
    {
        let ghost start = self@;
        let mut k: usize = 0;
        while k < fields.len()
            invariant
                k <= fields@.len(),
                self@ == start.fields_to(fields@, hdr, k as nat),
            decreases fields@.len() - k,
        {
            let s: u32 = self.x(fields[k], X15);
            self.str(s, X14, hdr.wrapping_add(k as u32).wrapping_mul(8));
            k = k + 1;
        }
    }

    /// `r[a] = ` a new object in the nursery, or on to `slow` where it does not fit.
    pub fn allocate(&mut self, a: Reg, header: &[u64], fields: &[Reg], slow: Label)
        ensures
            final(self)@ == old(self)@.allocate(a, header@, fields@, slow),
    {
        let at: Layout = self.at;
        let hdr: u32 = header.len() as u32;
        let size: u32 = hdr.wrapping_add(fields.len() as u32);
        self.ldr(X9, X19, at.top);
        self.put(0x9100_0000 | size << 10 | X9 << 5 | X10);
        self.ldr(X11, X19, at.cap);
        self.compare(X10, X11);
        self.b_cond(HI, slow);
        // A heap that has put enough into regions wants a collection first.
        self.ldr(X12, X19, at.region_growth);
        self.compare(X12, X11);
        self.b_cond(HI, slow);
        self.ldr(X13, X19, at.base);
        self.put(0x8B00_0000 | X9 << 16 | 3u32 << 10 | X13 << 5 | X14);
        self.header_in(header);
        self.fields_in(fields, hdr);
        self.str(X10, X19, at.top);
        self.ldr(X15, X19, at.allocated);
        self.put(0x9100_0000 | size << 10 | X15 << 5 | X15);
        self.str(X15, X19, at.allocated);
        self.store(a);
    }

    /// `r[a] = ` a new frame on the frame stack, or on to `slow` where it does not fit.
    pub fn frame(&mut self, a: Reg, header: &[u64], fields: &[Reg], slow: Label)
        ensures
            final(self)@ == old(self)@.frame(a, header@, fields@, slow),
    {
        let at: Layout = self.at;
        let hdr: u32 = header.len() as u32;
        let size: u32 = hdr.wrapping_add(fields.len() as u32);
        self.put(0xB940_0000 | (at.fsp / 4) << 10 | X19 << 5 | X9);
        self.put(0x1100_0000 | size << 10 | X9 << 5 | X10);
        self.put(0xB940_0000 | (at.flim / 4) << 10 | X19 << 5 | X11);
        self.compare(X10, X11);
        self.b_cond(HI, slow);
        self.put(0xB940_0000 | (at.fcur / 4) << 10 | X19 << 5 | X12);
        self.put(0xCB0C_0000 | X9 << 5 | X12);
        self.ldr(X13, X19, at.fbase);
        self.put(0x8B00_0000 | X12 << 16 | 3u32 << 10 | X13 << 5 | X14);
        self.header_in(header);
        self.fields_in(fields, hdr);
        self.put(0xB900_0000 | (at.fsp / 4) << 10 | X19 << 5 | X10);
        self.store(a);
    }

    /// A method's entry: its arguments up past its captures, and the captures in.
    pub fn stub(&mut self, captures: u32, params: u32, warm: Label)
        requires
            captures <= params <= FIXED,
        ensures
            final(self)@ == old(self)@.stub(captures, params, warm),
    {
        let live: u32 = self.at.live;
        let ghost start = self@;
        let argc: u32 = params - captures;
        let mut n: u32 = 0;
        while n < argc
            invariant
                n <= argc,
                captures + argc == params,
                params <= 13,
                self@ == start.args_up(captures, argc, n as nat),
            decreases argc - n,
        {
            let j: u32 = argc - n - 1;
            self.mov_x(home_of((captures + j) as u8), home_of(j as u8));
            n = n + 1;
        }
        let hdr: u32 = header_slots(false, captures as usize) as u32;
        let ghost mid = self@;
        let mut i: u32 = 0;
        while i < captures
            invariant
                i <= captures,
                captures <= 13,
                self@ == mid.captures_in(hdr, i as nat),
            decreases captures - i,
        {
            self.ldr(home_of(i as u8), X12, hdr.wrapping_add(i).wrapping_mul(8));
            i = i + 1;
        }
        self.imm(X9, params as u64);
        self.str(X9, X19, live);
        self.jump(warm);
    }

    fn go_in(&mut self, none: Label, base: Reg, argc: u32, pop: bool)
        requires
            argc <= 247,
        ensures
            final(self)@ == old(self)@.go_in(none, base, argc, pop),
    {
        if self.chains {
            let at: Layout = self.at;
            self.method_entry(none);
            if pop {
                self.put(0xB900_0000 | (at.fsp / 4) << 10 | X19 << 5 | X9);
            }
            self.args_down(base, argc);
            self.put(0xD61F_0000 | X16 << 5);
        }
    }

    fn through_frame(&mut self, object: Label, generic: Label, generic_frame: Label, base: Reg, argc: u32)
        requires
            argc <= 247,
        ensures
            final(self)@ == old(self)@.through_frame(object, generic, generic_frame, base, argc),
    {
        let at: Layout = self.at;
        self.put(0xB940_0000 | (at.fcur / 4) << 10 | X19 << 5 | X10);
        self.put(0xB940_0000 | (at.flim / 4) << 10 | X19 << 5 | X11);
        self.compare(X9, X10);
        self.b_cond(LO, object);
        self.compare(X9, X11);
        self.b_cond(HS, object);
        self.put(0xCB0A_0000 | X9 << 5 | X10);
        self.ldr(X11, X19, at.fbase);
        self.put(0x8B00_0000 | X10 << 16 | 3u32 << 10 | X11 << 5 | X12);
        self.put(0xB940_0000 | 2u32 << 10 | X12 << 5 | X17);
        // Returning pops the frame: the stack's top goes back to its slot.
        self.go_in(generic_frame, base, argc, true);
        self.bind(generic_frame);
        self.ldr(X13, X12, 0);
        self.length();
        self.jump(generic);
    }

    fn through_closure(&mut self, method: u8, generic: Label, base: Reg, argc: u32, slow: Label)
        requires
            argc <= 247,
        ensures
            final(self)@ == old(self)@.through_closure(method, generic, base, argc, slow),
    {
        let at: Layout = self.at;
        let m: u32 = method as u32;
        self.locate(slow);
        self.test_kind(Kind::Closure.to_byte() as u32);
        self.b_cond(NE, slow);
        self.length();
        self.put(0xB940_0000 | 2u32 << 10 | X12 << 5 | X14);
        self.ldr(X16, X19, at.method_starts);
        self.put(0xB860_7800 | X14 << 16 | X16 << 5 | X10);
        self.put(0x9100_0400 | X14 << 5 | X14);
        self.put(0xB860_7800 | X14 << 16 | X16 << 5 | X11);
        self.put(0xCB00_0000 | X10 << 16 | X11 << 5 | X11);
        self.put(0xF100_001F | m << 10 | X11 << 5);
        self.b_cond(LS, slow);
        self.put(0x9100_0000 | m << 10 | X10 << 5 | X10);
        self.ldr(X16, X19, at.method_pcs);
        self.put(0xB860_7800 | X10 << 16 | X16 << 5 | X17);
        self.go_in(generic, base, argc, false);
    }

    fn args_out(&mut self, base: Reg, argc: u32)
        requires
            argc <= 247,
        ensures
            final(self)@ == old(self)@.args_out(base, argc as nat),
    {
        let ghost start = self@;
        let scratch: u32 = self.at.scratch;
        let mut j: u32 = 0;
        while j < argc
            invariant
                j <= argc,
                argc <= 247,
                scratch == start.at.scratch,
                self@ == start.args_out(base, j as nat),
            decreases argc - j,
        {
            self.ldr(X9, X20, (base as u32 + j).wrapping_mul(8));
            self.str(X9, X20, scratch.wrapping_add(j).wrapping_mul(8));
            j = j + 1;
        }
    }

    fn args_in(&mut self, argc: u32)
        requires
            argc <= 247,
        ensures
            final(self)@ == old(self)@.args_in(argc as nat),
    {
        let ghost start = self@;
        let scratch: u32 = self.at.scratch;
        let mut j: u32 = 0;
        while j < argc
            invariant
                j <= argc,
                argc <= 247,
                scratch == start.at.scratch,
                self@ == start.args_in(j as nat),
            decreases argc - j,
        {
            self.ldr(X9, X20, scratch.wrapping_add(j).wrapping_mul(8));
            self.put(0x9100_0000 | j << 10 | X15 << 5 | X11);
            self.put(0xF820_7800 | X11 << 16 | X20 << 5 | X9);
            j = j + 1;
        }
    }

    fn rebuild(&mut self, saved: u32, base: Reg, argc: u32)
        requires
            argc <= 247,
        ensures
            final(self)@ == old(self)@.rebuild(saved, base, argc),
    {
        let live: u32 = self.at.live;
        self.spill();
        self.str(X9, X20, saved);
        self.put(0xD100_0000 | 8u32 << 10 | X15 << 5 | X14);
        self.put(0xF100_001F | X14 << 5);
        self.put(0x9A80_0000 | X14 << 16 | LT << 12 | 31u32 << 5 | X14);
        self.put(0x9100_0000 | 15u32 << 10 | X14 << 5 | X14);
        self.thin_shr(X14, X14, 4);
        self.put(0x9100_0000 | 2u32 << 10 | X14 << 5 | X14);
        self.args_out(base, argc);
        let top: Label = self.label();
        let done: Label = self.label();
        self.imm(X10, 0);
        self.bind(top);
        self.compare(X10, X15);
        self.b_cond(HS, done);
        self.put(0x8B00_0000 | X14 << 16 | X10 << 5 | X11);
        self.put(0xF860_7800 | X11 << 16 | X12 << 5 | X9);
        self.put(0xF820_7800 | X10 << 16 | X20 << 5 | X9);
        self.put(0x9100_0400 | X10 << 5 | X10);
        self.jump(top);
        self.bind(done);
        self.args_in(argc);
        self.put(0x9100_0000 | argc << 10 | X15 << 5 | X9);
        self.str(X9, X19, live);
    }

    fn pop_frame(&mut self, saved: u32)
        ensures
            final(self)@ == old(self)@.pop_frame(saved),
    {
        let at: Layout = self.at;
        let kept: Label = self.label();
        self.ldr(X9, X20, saved);
        self.chunk_of_current(X10, X11);
        self.thin_shr(X11, X9, at.block_shift);
        self.compare(X10, X11);
        self.b_cond(NE, kept);
        self.put(0xB900_0000 | (at.fsp / 4) << 10 | X19 << 5 | X9);
        self.bind(kept);
    }

    fn go_on(&mut self)
        ensures
            final(self)@ == old(self)@.go_on(),
    {
        if self.chains {
            let at: Layout = self.at;
            let out: Label = self.label();
            self.budget(out);
            self.ldr(X9, X19, at.native_table);
            self.put(0xF860_7800 | X17 << 16 | X9 << 5 | X9);
            self.branch(out, Fixup::Imm19, 0xB400_0000 | X9);
            // The register file was rebuilt in memory: the next function expects it in the
            // fixed registers.
            self.reload_x();
            self.enter_warm();
            self.bind(out);
        }
    }

    /// Method `method` of the object in `r[obj]`, with `argc` arguments at `r[base]`: a return
    /// where it is a frame of the current chunk, a call where it is a closure, and on to `slow`
    /// where it is neither.
    pub fn invoke(&mut self, obj: Reg, method: u8, base: Reg, argc: u32, slow: Label)
        ensures
            final(self)@ == old(self)@.invoke(obj, method, base, argc, slow),
    {
        if argc > 247 {
            self.jump(slow);
            return;
        }
        let saved: u32 = self.at.scratch.wrapping_add(argc).wrapping_mul(8);
        // Whichever way the call goes, the next function expects the fixed registers in their
        // general registers.
        self.floats_out();
        self.get(X9, obj);
        let object: Label = self.label();
        let generic: Label = self.label();
        let generic_frame: Label = self.label();
        self.through_frame(object, generic, generic_frame, base, argc);
        self.bind(object);
        self.through_closure(method, generic, base, argc, slow);
        self.bind(generic);
        self.rebuild(saved, base, argc);
        self.pop_frame(saved);
        self.go_on();
        self.str(X17, X19, self.at.pc);
        self.ret_as_is(self.at.jumped);
    }
}

} // verus!
