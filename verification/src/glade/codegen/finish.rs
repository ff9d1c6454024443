//! The assembler around the instructions: how a function is set up, and how branches are
//! filled in.

use super::a64::{
    Asm, Fixup, Label, Layout, Loc, A, FP, LR, SP, X0, X19, X20, X21, X22, X23, X24, X25, X26, X27, X28,
};
use super::a64::{home, home_of, FIXED, WARM};
use super::code::Reg;
use crate::seq::lower::state::OptLevel;
use vstd::prelude::*;

verus! {

/// The first `n` bytecode registers, with where each lives: a float register takes the next
/// of `d16` to `d31`.
pub open spec fn pinned_to(floats: Seq<Reg>, n: nat) -> Seq<(Reg, Loc)>
    decreases n,
{
    if n == 0 {
        Seq::empty()
    } else {
        let before = pinned_to(floats, (n - 1) as nat);
        let r = (n - 1) as u8;
        before.push(
            (
                r,
                if floats.contains(r) && taken(floats, (n - 1) as nat) < 16 {
                    Loc::D((16 + taken(floats, (n - 1) as nat)) as u32)
                } else {
                    Loc::X(home(n - 1))
                },
            ),
        )
    }
}

/// How many of the first `n` bytecode registers are float registers.
pub open spec fn taken(floats: Seq<Reg>, n: nat) -> nat
    decreases n,
{
    if n == 0 {
        0
    } else {
        taken(floats, (n - 1) as nat) + (if floats.contains((n - 1) as u8) {
            1nat
        } else {
            0nat
        })
    }
}

impl A {
    /// At that optimisation level, with those float registers.
    pub open spec fn configure(self, opt: OptLevel, floats: Seq<Reg>) -> A {
        let more = opt != OptLevel::O0;
        A { defer_live: more, short: more, chains: more, pins: pinned_to(floats, FIXED as nat), ..self }
    }

    pub open spec fn prologue(self, warm: Option<Label>) -> A {
        let s = self.put(0xA980_0000 | 0x74u32 << 15 | LR << 10 | SP << 5 | FP).put(
            0x9100_0000 | SP << 5 | FP,
        ).put(0xA900_0000 | 2u32 << 15 | X20 << 10 | SP << 5 | X19).str(X21, SP, 32).str(X22, SP, 40).put(
            0xA900_0000 | 6u32 << 15 | X24 << 10 | SP << 5 | X23,
        ).put(0xA900_0000 | 8u32 << 15 | X26 << 10 | SP << 5 | X25).put(
            0xA900_0000 | 10u32 << 15 | X28 << 10 | SP << 5 | X27,
        ).mov_x(X19, X0).ldr(X20, X19, self.at.regs).imm(X21, 0).imm(X22, 0).reload_x_to(FIXED as nat);
        let s = match warm {
            Some(l) => s.bind(l),
            None => s,
        };
        A { ret_w0: None, ..s.floats_in() }
    }

    /// How far a fixup branches, in instructions, if its label is bound.
    pub open spec fn distance(self, f: (usize, Label, Fixup)) -> Option<int> {
        if (f.1).0 < self.labels.len() {
            match self.labels[(f.1).0 as int] {
                Some(to) => Some(to - f.0),
                None => None,
            }
        } else {
            None
        }
    }

    /// Every branch to a label that is bound fits.
    pub open spec fn all_reach(self) -> bool {
        forall|k: int|
            0 <= k < self.fixups.len() ==> match self.distance(#[trigger] self.fixups[k]) {
                Some(d) => self.fixups[k].2.spans(d),
                None => true,
            }
    }

    /// Every branch is in the code, and its label is bound.
    pub open spec fn complete(self) -> bool {
        forall|k: int|
            0 <= k < self.fixups.len() ==> (#[trigger] self.fixups[k]).0 < self.words.len() && self.distance(
                self.fixups[k],
            ) is Some
    }

    /// The words with the first `n` branches filled in.
    pub open spec fn filled(self, n: nat) -> Seq<u32>
        decreases n,
    {
        if n == 0 || n > self.fixups.len() {
            self.words
        } else {
            let ws = self.filled((n - 1) as nat);
            let f = self.fixups[n - 1];
            ws.update(f.0 as int, with_distance(ws[f.0 as int], f.2, self.distance(f)->0))
        }
    }
}

/// A branch's word, with how far it goes.
pub open spec fn with_distance(word: u32, f: Fixup, delta: int) -> u32 {
    match f {
        Fixup::B => word | ((delta as i32 as u32) & 0x03FF_FFFF),
        Fixup::Imm19 => word | ((delta as i32 as u32) & 0x7FFFF) << 5,
    }
}

/// The first `n` words, lowest byte first.
pub open spec fn bytes(ws: Seq<u32>, n: nat) -> Seq<u8>
    decreases n,
{
    if n == 0 || n > ws.len() {
        Seq::empty()
    } else {
        let w = ws[n - 1];
        bytes(ws, (n - 1) as nat).push((w & 0xff) as u8).push(((w >> 8) & 0xff) as u8).push(
            ((w >> 16) & 0xff) as u8,
        ).push(((w >> 24) & 0xff) as u8)
    }
}

fn has_reg(rs: &[Reg], r: Reg) -> (b: bool)
    ensures
        b == rs@.contains(r),
{
    let mut i: usize = 0;
    while i < rs.len()
        invariant
            i <= rs@.len(),
            forall|k: int| 0 <= k < i ==> #[trigger] rs@[k] != r,
        decreases rs@.len() - i,
    {
        if rs[i] == r {
            proof {
                assert(rs@[i as int] == r);
            }
            return true;
        }
        i = i + 1;
    }
    false
}

impl Asm {
    pub fn new(at: Layout) -> (a: Asm)
        ensures
            a@ == (A {
                words: Seq::empty(),
                labels: Seq::empty(),
                fixups: Seq::empty(),
                ret_w0: None,
                defer_live: false,
                short: false,
                chains: false,
                pins: Seq::empty(),
                at,
            }),
    {
        Asm {
            words: Vec::new(),
            labels: Vec::new(),
            fixups: Vec::new(),
            ret_w0: None,
            defer_live: false,
            short: false,
            chains: false,
            pins: Vec::new(),
            at,
        }
    }

    /// At that optimisation level, with those float registers.
    pub fn configure(&mut self, opt: OptLevel, floats: &[Reg])
        ensures
            final(self)@ == old(self)@.configure(opt, floats@),
    {
        let more: bool = match opt {
            OptLevel::O0 => false,
            _ => true,
        };
        self.defer_live = more;
        self.short = more;
        self.chains = more;
        let mut pins: Vec<(Reg, Loc)> = Vec::new();
        let mut used: u32 = 0;
        let mut r: u8 = 0;
        while r < 13
            invariant
                r <= 13,
                used <= r,
                used == taken(floats@, r as nat),
                pins@ == pinned_to(floats@, r as nat),
            decreases 13 - r,
        {
            if has_reg(floats, r) {
                pins.push((r, Loc::D(16 + used)));
                used = used + 1;
            } else {
                pins.push((r, Loc::X(home_of(r))));
            }
            r = r + 1;
        }
        self.pins = pins;
    }

    /// A function's start. A chained function arrives behind what is saved and loaded, with
    /// the frame, the machine, its register file, the fixed registers, the steps and the
    /// loop count of the one it came from.
    pub fn prologue(&mut self, warm: Option<Label>)
        ensures
            final(self)@ == old(self)@.prologue(warm),
    {
        let regs: u32 = self.at.regs;
        self.put(0xA980_0000 | 0x74u32 << 15 | LR << 10 | SP << 5 | FP);
        self.put(0x9100_0000 | SP << 5 | FP);
        self.put(0xA900_0000 | 2u32 << 15 | X20 << 10 | SP << 5 | X19);
        self.str(X21, SP, 32);
        self.str(X22, SP, 40);
        self.put(0xA900_0000 | 6u32 << 15 | X24 << 10 | SP << 5 | X23);
        self.put(0xA900_0000 | 8u32 << 15 | X26 << 10 | SP << 5 | X25);
        self.put(0xA900_0000 | 10u32 << 15 | X28 << 10 | SP << 5 | X27);
        self.mov_x(X19, X0);
        self.ldr(X20, X19, regs);
        self.imm(X21, 0);
        self.imm(X22, 0);
        self.reload_x();
        if let Some(l) = warm {
            self.bind(l);
        }
        self.floats_in();
        self.ret_w0 = None;
    }

    fn distance(&self, k: usize) -> (r: Option<i128>)
        requires
            k < self@.fixups.len(),
        ensures
            match (r, self@.distance(self@.fixups[k as int])) {
                (Some(a), Some(b)) => a == b,
                (None, None) => true,
                _ => false,
            },
    {
        let (at, l, _) = self.fixups[k];
        if l.0 < self.labels.len() {
            match self.labels[l.0] {
                Some(to) => Some(to as i128 - at as i128),
                None => None,
            }
        } else {
            None
        }
    }

    /// Does every branch to a label that is bound fit?
    pub fn reaches(&self) -> (r: bool)
        ensures
            r == self@.all_reach(),
    {
        let mut k: usize = 0;
        while k < self.fixups.len()
            invariant
                k <= self.fixups@.len(),
                forall|i: int|
                    0 <= i < k ==> match self@.distance(#[trigger] self@.fixups[i]) {
                        Some(d) => self@.fixups[i].2.spans(d),
                        None => true,
                    },
            decreases self.fixups@.len() - k,
        {
            if let Some(d) = self.distance(k) {
                let fits: bool = d >= -0x8000_0000 && d <= 0x7fff_ffff && self.fixups[k].2.reaches(d as i64);
                if !fits {
                    proof {
                        assert(!(self@.fixups[k as int].2.spans(d as int)));
                    }
                    return false;
                }
            }
            k = k + 1;
        }
        true
    }

    /// The code, with every branch filled in.
    pub fn finish(self) -> (r: Vec<u8>)
        requires
            self@.complete(),
            self@.all_reach(),
        ensures
            r@ == bytes(self@.filled(self@.fixups.len()), self@.words.len()),
    {
        let ghost a = self@;
        let mut words: Vec<u32> = Vec::new();
        let mut i: usize = 0;
        while i < self.words.len()
            invariant
                i <= self.words@.len(),
                words@ == self.words@.take(i as int),
            decreases self.words@.len() - i,
        {
            words.push(self.words[i]);
            i = i + 1;
            proof {
                assert(words@ =~= self.words@.take(i as int));
            }
        }
        proof {
            assert(words@ =~= self.words@);
        }
        let mut k: usize = 0;
        while k < self.fixups.len()
            invariant
                k <= self.fixups@.len(),
                a == self@,
                a.complete(),
                a.all_reach(),
                words@ == a.filled(k as nat),
                words@.len() == a.words.len(),
            decreases self.fixups@.len() - k,
        {
            let (at, _, f) = self.fixups[k];
            proof {
                assert(a.fixups[k as int].0 < a.words.len() && a.distance(a.fixups[k as int]) is Some);
                assert(a.fixups[k as int].2.spans(a.distance(a.fixups[k as int])->0));
            }
            if let Some(d) = self.distance(k) {
                let delta: u32 = d as i32 as u32;
                let word: u32 = words[at];
                let word: u32 = match f {
                    Fixup::B => word | (delta & 0x03FF_FFFF),
                    Fixup::Imm19 => word | (delta & 0x7FFFF) << 5,
                };
                words.set(at, word);
            }
            k = k + 1;
        }
        let mut out: Vec<u8> = Vec::new();
        let mut i: usize = 0;
        while i < words.len()
            invariant
                i <= words@.len(),
                out@ == bytes(words@, i as nat),
            decreases words@.len() - i,
        {
            let w: u32 = words[i];
            out.push((w & 0xff) as u8);
            out.push(((w >> 8) & 0xff) as u8);
            out.push(((w >> 16) & 0xff) as u8);
            out.push(((w >> 24) & 0xff) as u8);
            i = i + 1;
        }
        out
    }
}

proof fn lemma_nothing(a: A, d: u32)
    ensures
        a.imm(d, 0).words.len() == a.words.len() + 1,
        a.imm(d, 0).labels == a.labels,
{
    assert((0u64 >> 16) & 0xFFFF == 0) by (bit_vector);
    assert((0u64 >> 32) & 0xFFFF == 0) by (bit_vector);
    assert((0u64 >> 48) & 0xFFFF == 0) by (bit_vector);
}

proof fn lemma_reload_x(a: A, n: nat)
    ensures
        a.reload_x_to(n).words.len() == a.words.len() + n,
        a.reload_x_to(n).labels == a.labels,
    decreases n,
{
    if n > 0 {
        lemma_reload_x(a, (n - 1) as nat);
    }
}

proof fn lemma_floats(a: A, n: nat)
    ensures
        a.floats_to(true, n).labels == a.labels,
    decreases n,
{
    if n > 0 && n <= a.pins.len() {
        lemma_floats(a, (n - 1) as nat);
    }
}

/// The warm entry is where other functions jump to: as many bytes behind a function's start as
/// [`WARM`] says.
pub proof fn the_warm_entry_stays_put(a: A, l: Label)
    requires
        l.0 < a.labels.len(),
        a.words.len() + 25 <= usize::MAX,
    ensures
        a.prologue(Some(l)).labels[l.0 as int] == Some((a.words.len() + WARM / 4) as usize),
{
    let s = a.put(0xA980_0000 | 0x74u32 << 15 | LR << 10 | SP << 5 | FP).put(0x9100_0000 | SP << 5 | FP).put(
        0xA900_0000 | 2u32 << 15 | X20 << 10 | SP << 5 | X19,
    ).str(X21, SP, 32).str(X22, SP, 40).put(0xA900_0000 | 6u32 << 15 | X24 << 10 | SP << 5 | X23).put(
        0xA900_0000 | 8u32 << 15 | X26 << 10 | SP << 5 | X25,
    ).put(0xA900_0000 | 10u32 << 15 | X28 << 10 | SP << 5 | X27).mov_x(X19, X0).ldr(X20, X19, a.at.regs);
    assert(s.words.len() == a.words.len() + 10);
    lemma_nothing(s, X21);
    lemma_nothing(s.imm(X21, 0), X22);
    let t = s.imm(X21, 0).imm(X22, 0);
    lemma_reload_x(t, FIXED as nat);
    let u = t.reload_x_to(FIXED as nat).bind(l);
    lemma_floats(u, u.pins.len());
}

} // verus!
