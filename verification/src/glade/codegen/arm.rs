//! What AArch64 instructions do.
//!
//! As much of the architecture as the instructions a function is made of: the general
//! registers, the float registers, memory by the word, and the condition flags.

use vstd::arithmetic::power2::pow2;
use vstd::prelude::*;

verus! {

/// What float arithmetic is, and how floats compare: of their bits.
pub struct Floats {
    pub sum: spec_fn(u64, u64) -> u64,
    pub difference: spec_fn(u64, u64) -> u64,
    pub product: spec_fn(u64, u64) -> u64,
    pub quotient: spec_fn(u64, u64) -> u64,
    pub less: spec_fn(u64, u64) -> bool,
    pub equal: spec_fn(u64, u64) -> bool,
    pub from_int: spec_fn(int) -> u64,
}

pub struct Flags {
    pub n: bool,
    pub z: bool,
    pub c: bool,
    pub v: bool,
}

pub struct Cpu {
    /// `x0` to `x30`.
    pub x: Seq<u64>,
    /// `d0` to `d31`.
    pub d: Seq<u64>,
    /// Memory, by address.
    pub mem: Map<u64, u64>,
    pub flags: Flags,
}

/// What an instruction comes to: on to the next, away to the place it branches to, or
/// something that is not said here.
pub enum Then {
    On(Cpu),
    Away(Cpu),
    Unsaid,
}

/// An integer, in 64 bits.
pub open spec fn wrap(n: int) -> u64 {
    (n % 0x1_0000_0000_0000_0000) as u64
}

/// 64 bits, as a signed integer.
pub open spec fn signed(x: u64) -> int {
    if x < 0x8000_0000_0000_0000 {
        x as int
    } else {
        x - 0x1_0000_0000_0000_0000
    }
}

/// Division that rounds towards zero.
pub open spec fn truncated(a: int, b: int) -> int {
    if a >= 0 && b > 0 {
        a / b
    } else if a < 0 && b > 0 {
        -((-a) / b)
    } else if a >= 0 && b < 0 {
        -(a / (-b))
    } else {
        (-a) / (-b)
    }
}

/// The flags a subtraction sets.
pub open spec fn flags_of_sub(a: u64, b: u64) -> Flags {
    Flags {
        n: wrap(a - b) >= 0x8000_0000_0000_0000,
        z: wrap(a - b) == 0,
        c: a >= b,
        v: signed(a) - signed(b) < -0x8000_0000_0000_0000 || signed(a) - signed(b) >= 0x8000_0000_0000_0000,
    }
}

/// The flags an addition sets.
pub open spec fn flags_of_add(a: u64, b: u64) -> Flags {
    Flags {
        n: wrap(a + b) >= 0x8000_0000_0000_0000,
        z: wrap(a + b) == 0,
        c: a + b >= 0x1_0000_0000_0000_0000,
        v: signed(a) + signed(b) < -0x8000_0000_0000_0000 || signed(a) + signed(b) >= 0x8000_0000_0000_0000,
    }
}

/// The flags a comparison of floats sets: what is not ordered is neither less nor equal, and
/// sets the last two.
pub open spec fn flags_of_floats(fl: Floats, a: u64, b: u64) -> Flags {
    let (lt, eq, gt) = ((fl.less)(a, b), (fl.equal)(a, b), (fl.less)(b, a));
    if eq {
        Flags { n: false, z: true, c: true, v: false }
    } else if lt {
        Flags { n: true, z: false, c: false, v: false }
    } else if gt {
        Flags { n: false, z: false, c: true, v: false }
    } else {
        Flags { n: false, z: false, c: true, v: true }
    }
}

/// Whether a condition holds, by its number.
pub open spec fn condition(f: Flags, cond: u32) -> bool {
    if cond == 0 {
        f.z
    } else if cond == 1 {
        !f.z
    } else if cond == 2 {
        f.c
    } else if cond == 3 {
        !f.c
    } else if cond == 4 {
        f.n
    } else if cond == 5 {
        !f.n
    } else if cond == 6 {
        f.v
    } else if cond == 7 {
        !f.v
    } else if cond == 8 {
        f.c && !f.z
    } else if cond == 9 {
        !(f.c && !f.z)
    } else if cond == 10 {
        f.n == f.v
    } else if cond == 11 {
        f.n != f.v
    } else if cond == 12 {
        !f.z && f.n == f.v
    } else if cond == 13 {
        !(!f.z && f.n == f.v)
    } else {
        true
    }
}

impl Cpu {
    /// A general register; number 31 is always nothing.
    pub open spec fn reg(self, r: u32) -> u64 {
        if r < 31 {
            self.x[r as int]
        } else {
            0
        }
    }

    pub open spec fn set(self, r: u32, v: u64) -> Cpu {
        if r < 31 {
            Cpu { x: self.x.update(r as int, v), ..self }
        } else {
            self
        }
    }

    pub open spec fn set_d(self, r: u32, v: u64) -> Cpu {
        Cpu { d: self.d.update(r as int, v), ..self }
    }

    pub open spec fn compared(self, f: Flags) -> Cpu {
        Cpu { flags: f, ..self }
    }

    pub open spec fn stored(self, at: u64, v: u64) -> Cpu {
        Cpu { mem: self.mem.insert(at, v), ..self }
    }

    pub open spec fn well(self) -> bool {
        self.x.len() == 31 && self.d.len() == 32
    }
}

/// `x` with its bits from `16 * hw` on, sixteen of them, made `imm`.
pub open spec fn half_put(x: u64, imm: u64, hw: u32) -> u64 {
    if hw == 0 {
        (x & !0xFFFFu64) | imm
    } else if hw == 1 {
        (x & !0xFFFF_0000u64) | imm << 16
    } else if hw == 2 {
        (x & !0xFFFF_0000_0000u64) | imm << 32
    } else {
        (x & !0xFFFF_0000_0000_0000u64) | imm << 48
    }
}

/// A bit field of a register, in its place or moved.
pub open spec fn bits(x: u64, from: u32, to: u32) -> Option<u64> {
    if to == 63 {
        Some((x as int / pow2(from as nat) as int) as u64)
    } else if to + 1 == from {
        Some(wrap(x * pow2((63 - to) as nat)))
    } else if to >= from {
        Some(((x as int / pow2(from as nat) as int) % pow2((to - from + 1) as nat) as int) as u64)
    } else {
        None
    }
}

/// One instruction.
pub open spec fn exec(fl: Floats, s: Cpu, w: u32) -> Then {
    let t = w >> 21;
    let d = w & 31;
    let n = (w >> 5) & 31;
    let m = (w >> 16) & 31;
    let six = (w >> 10) & 63;
    let imm = (w >> 10) & 4095;
    if t == 0x458 {
        // add xd, xn, xm, lsl #six
        Then::On(s.set(d, wrap(s.reg(n) + s.reg(m) * pow2(six as nat))))
    } else if t == 0x658 && six == 0 {
        // sub xd, xn, xm
        Then::On(s.set(d, wrap(s.reg(n) - s.reg(m))))
    } else if t == 0x758 && six == 0 {
        // subs xd, xn, xm
        Then::On(s.set(d, wrap(s.reg(n) - s.reg(m))).compared(flags_of_sub(s.reg(n), s.reg(m))))
    } else if t == 0x450 && six == 0 {
        // and xd, xn, xm
        Then::On(s.set(d, s.reg(n) & s.reg(m)))
    } else if t == 0x550 && six == 0 {
        // orr xd, xn, xm
        Then::On(s.set(d, s.reg(n) | s.reg(m)))
    } else if t == 0x4D8 && six < 32 {
        // madd xd, xn, xm, xa
        Then::On(s.set(d, wrap(s.reg(six) + s.reg(n) * s.reg(m))))
    } else if t == 0x4D8 {
        // msub xd, xn, xm, xa
        Then::On(s.set(d, wrap(s.reg((six - 32) as u32) - s.reg(n) * s.reg(m))))
    } else if t == 0x4D6 && six == 3 {
        // sdiv xd, xn, xm
        Then::On(
            s.set(
                d,
                if s.reg(m) == 0 {
                    0
                } else {
                    wrap(truncated(signed(s.reg(n)), signed(s.reg(m))))
                },
            ),
        )
    } else if t == 0x4D6 && six == 8 {
        // lslv xd, xn, xm
        Then::On(s.set(d, wrap(s.reg(n) * pow2((s.reg(m) % 64) as nat))))
    } else if t == 0x4D6 && six == 9 {
        // lsrv xd, xn, xm
        Then::On(s.set(d, (s.reg(n) as int / pow2((s.reg(m) % 64) as nat) as int) as u64))
    } else if t == 0x4D6 && six == 10 {
        // asrv xd, xn, xm
        Then::On(s.set(d, wrap(signed(s.reg(n)) / pow2((s.reg(m) % 64) as nat) as int)))
    } else if t == 0x4D4 && six % 4 == 0 {
        // csel xd, xn, xm, cond
        Then::On(
            s.set(
                d,
                if condition(s.flags, six / 4) {
                    s.reg(n)
                } else {
                    s.reg(m)
                },
            ),
        )
    } else if t == 0x4D4 && six % 4 == 1 {
        // csinc xd, xn, xm, cond
        Then::On(
            s.set(
                d,
                if condition(s.flags, six / 4) {
                    s.reg(n)
                } else {
                    wrap(s.reg(m) + 1)
                },
            ),
        )
    } else if (t == 0x488 || t == 0x489) && n < 31 && d < 31 {
        // add xd, xn, #imm
        Then::On(s.set(d, wrap(s.reg(n) + imm)))
    } else if (t == 0x688 || t == 0x689) && n < 31 && d < 31 {
        // sub xd, xn, #imm
        Then::On(s.set(d, wrap(s.reg(n) - imm)))
    } else if (t == 0x588 || t == 0x589) && n < 31 {
        // adds xd, xn, #imm
        Then::On(s.set(d, wrap(s.reg(n) + imm)).compared(flags_of_add(s.reg(n), imm as u64)))
    } else if (t == 0x788 || t == 0x789) && n < 31 {
        // subs xd, xn, #imm
        Then::On(s.set(d, wrap(s.reg(n) - imm)).compared(flags_of_sub(s.reg(n), imm as u64)))
    } else if 0x694 <= t <= 0x697 {
        // movz xd, #imm16, lsl #16 * hw
        Then::On(s.set(d, half_put(0, ((w >> 5) & 0xFFFF) as u64, (t - 0x694) as u32)))
    } else if 0x794 <= t <= 0x797 {
        // movk xd, #imm16, lsl #16 * hw
        Then::On(s.set(d, half_put(s.reg(d), ((w >> 5) & 0xFFFF) as u64, (t - 0x794) as u32)))
    } else if t == 0x69A || t == 0x69B {
        // ubfm xd, xn, #from, #to
        match bits(s.reg(n), (w >> 16) & 63, six) {
            Some(v) => Then::On(s.set(d, v)),
            None => Then::Unsaid,
        }
    } else if (t == 0x49A || t == 0x49B) && six == 63 {
        // sbfm xd, xn, #from, #63
        Then::On(s.set(d, wrap(signed(s.reg(n)) / pow2(((w >> 16) & 63) as nat) as int)))
    } else if (t == 0x7CA || t == 0x7CB) && n < 31 {
        // ldr xd, [xn, #8 * imm]
        Then::On(s.set(d, s.mem[wrap(s.reg(n) + 8 * imm)]))
    } else if (t == 0x7C8 || t == 0x7C9) && n < 31 {
        // str xd, [xn, #8 * imm]
        Then::On(s.stored(wrap(s.reg(n) + 8 * imm), s.reg(d)))
    } else if (t == 0x7EA || t == 0x7EB) && n < 31 {
        // ldr dd, [xn, #8 * imm]
        Then::On(s.set_d(d, s.mem[wrap(s.reg(n) + 8 * imm)]))
    } else if (t == 0x7E8 || t == 0x7E9) && n < 31 {
        // str dd, [xn, #8 * imm]
        Then::On(s.stored(wrap(s.reg(n) + 8 * imm), s.d[d as int]))
    } else if t == 0x4F3 && six == 0 && m == 6 {
        // fmov xd, dn
        Then::On(s.set(d, s.d[n as int]))
    } else if t == 0x4F3 && six == 0 && m == 7 {
        // fmov dd, xn
        Then::On(s.set_d(d, s.reg(n)))
    } else if t == 0x4F3 && six == 0 && m == 2 {
        // scvtf dd, xn
        Then::On(s.set_d(d, (fl.from_int)(signed(s.reg(n)))))
    } else if t == 0xF3 && six == 2 {
        // fmul dd, dn, dm
        Then::On(s.set_d(d, (fl.product)(s.d[n as int], s.d[m as int])))
    } else if t == 0xF3 && six == 6 {
        // fdiv dd, dn, dm
        Then::On(s.set_d(d, (fl.quotient)(s.d[n as int], s.d[m as int])))
    } else if t == 0xF3 && six == 10 {
        // fadd dd, dn, dm
        Then::On(s.set_d(d, (fl.sum)(s.d[n as int], s.d[m as int])))
    } else if t == 0xF3 && six == 14 {
        // fsub dd, dn, dm
        Then::On(s.set_d(d, (fl.difference)(s.d[n as int], s.d[m as int])))
    } else if t == 0xF3 && six == 16 && m == 0 {
        // fmov dd, dn
        Then::On(s.set_d(d, s.d[n as int]))
    } else if t == 0xF3 && six == 8 && d == 0 {
        // fcmp dn, dm
        Then::On(s.compared(flags_of_floats(fl, s.d[n as int], s.d[m as int])))
    } else if 0x5A0 <= t <= 0x5A7 {
        // cbz xd, there
        if s.reg(d) == 0 {
            Then::Away(s)
        } else {
            Then::On(s)
        }
    } else if 0x2A0 <= t <= 0x2A7 && d < 16 {
        // b.cond there
        if condition(s.flags, d) {
            Then::Away(s)
        } else {
            Then::On(s)
        }
    } else {
        Then::Unsaid
    }
}

/// The instructions from `from` to `to`, one after the other, until one branches away.
pub open spec fn run(fl: Floats, s: Cpu, words: Seq<u32>, from: nat, to: nat) -> Then
    decreases to - from,
{
    if to <= from || to > words.len() {
        Then::On(s)
    } else {
        match run(fl, s, words, from, (to - 1) as nat) {
            Then::On(s1) => exec(fl, s1, words[to - 1]),
            other => other,
        }
    }
}

// --- runs ---

pub proof fn lemma_run_same(fl: Floats, s: Cpu, a: Seq<u32>, b: Seq<u32>, from: nat, to: nat)
    requires
        to <= a.len(),
        to <= b.len(),
        forall|i: int| from <= i < to ==> #[trigger] a[i] == b[i],
    ensures
        run(fl, s, a, from, to) == run(fl, s, b, from, to),
    decreases to - from,
{
    if from < to {
        lemma_run_same(fl, s, a, b, from, (to - 1) as nat);
        assert(a[to - 1] == b[to - 1]);
    }
}

pub proof fn lemma_run_then(fl: Floats, s: Cpu, words: Seq<u32>, from: nat, mid: nat, to: nat)
    requires
        from <= mid <= to <= words.len(),
    ensures
        run(fl, s, words, from, to) == match run(fl, s, words, from, mid) {
            Then::On(s1) => run(fl, s1, words, mid, to),
            other => other,
        },
    decreases to - mid,
{
    if mid < to {
        lemma_run_then(fl, s, words, from, mid, (to - 1) as nat);
    }
}

// --- how instructions are written ---

/// Three registers.
pub proof fn lemma_three(base: u32, m: u32, n: u32, d: u32)
    requires
        base & 0x001F_03FF == 0,
        m < 32,
        n < 32,
        d < 32,
    ensures
        ({
            let w = base | m << 16 | n << 5 | d;
            &&& w >> 21 == base >> 21
            &&& w & 31 == d
            &&& (w >> 5) & 31 == n
            &&& (w >> 16) & 31 == m
            &&& (w >> 10) & 63 == (base >> 10) & 63
        }),
{
    assert(base & 0x001F_03FF == 0 && m < 32 && n < 32 && d < 32 ==> (base | m << 16 | n << 5 | d) >> 21 == base >> 21 && (
    base | m << 16 | n << 5 | d) & 31 == d && ((base | m << 16 | n << 5 | d) >> 5) & 31 == n && ((base | m << 16 | n << 5
        | d) >> 16) & 31 == m && ((base | m << 16 | n << 5 | d) >> 10) & 63 == (base >> 10) & 63) by (bit_vector);
}

/// Two registers and twelve bits.
pub proof fn lemma_twelve(base: u32, k: u32, n: u32, d: u32)
    requires
        base & 0x003F_FFFF == 0,
        k < 4096,
        n < 32,
        d < 32,
    ensures
        ({
            let w = base | k << 10 | n << 5 | d;
            &&& w >> 21 == base >> 21 || w >> 21 == (base >> 21) + 1
            &&& w & 31 == d
            &&& (w >> 5) & 31 == n
            &&& (w >> 10) & 4095 == k
        }),
{
    assert(base & 0x003F_FFFF == 0 && k < 4096 && n < 32 && d < 32 ==> ((base | k << 10 | n << 5 | d) >> 21 == base >> 21
        || (base | k << 10 | n << 5 | d) >> 21 == (base >> 21) | 1) && (base | k << 10 | n << 5 | d) & 31 == d && ((base | k
        << 10 | n << 5 | d) >> 5) & 31 == n && ((base | k << 10 | n << 5 | d) >> 10) & 4095 == k && ((base >> 21) | 1)
        == (base >> 21) ^ 1 && (base >> 21) & 1 == 0) by (bit_vector);
    let t = base >> 21;
    assert(t & 1 == 0 && t < 0x800 ==> (t | 1) as int == t + 1) by (bit_vector);
    assert(base >> 21 < 0x800) by (bit_vector);
}

/// Two registers and two fields of six bits.
pub proof fn lemma_sixes(base: u32, from: u32, to: u32, n: u32, d: u32)
    requires
        base & 0x003F_FFFF == 0,
        from < 64,
        to < 64,
        n < 32,
        d < 32,
    ensures
        ({
            let w = base | from << 16 | to << 10 | n << 5 | d;
            &&& w >> 21 == base >> 21 || w >> 21 == (base >> 21) | 1
            &&& w & 31 == d
            &&& (w >> 5) & 31 == n
            &&& (w >> 10) & 63 == to
            &&& (w >> 16) & 63 == from
        }),
{
    assert(base & 0x003F_FFFF == 0 && from < 64 && to < 64 && n < 32 && d < 32 ==> ((base | from << 16 | to << 10 | n << 5
        | d) >> 21 == base >> 21 || (base | from << 16 | to << 10 | n << 5 | d) >> 21 == (base >> 21) | 1) && (base | from
        << 16 | to << 10 | n << 5 | d) & 31 == d && ((base | from << 16 | to << 10 | n << 5 | d) >> 5) & 31 == n && ((base
        | from << 16 | to << 10 | n << 5 | d) >> 10) & 63 == to && ((base | from << 16 | to << 10 | n << 5 | d) >> 16) & 63
        == from) by (bit_vector);
}

/// A register and sixteen bits, in one of four places.
pub proof fn lemma_sixteen(base: u32, hw: u32, k: u32, d: u32)
    requires
        base & 0x007F_FFFF == 0,
        hw < 4,
        k <= 0xFFFF,
        d < 32,
    ensures
        ({
            let w = base | hw << 21 | k << 5 | d;
            &&& w >> 21 == (base >> 21) | hw
            &&& w & 31 == d
            &&& (w >> 5) & 0xFFFF == k
        }),
{
    assert(base & 0x007F_FFFF == 0 && hw < 4 && k <= 0xFFFF && d < 32 ==> (base | hw << 21 | k << 5 | d) >> 21 == (base
        >> 21) | hw && (base | hw << 21 | k << 5 | d) & 31 == d && ((base | hw << 21 | k << 5 | d) >> 5) & 0xFFFF == k)
        by (bit_vector);
}

/// Where the numbers of the instructions are.
pub proof fn lemma_numbers()
    ensures
        0x8B00_0000u32 >> 21 == 0x458,
        0xCB00_0000u32 >> 21 == 0x658,
        0xEB00_0000u32 >> 21 == 0x758,
        0x8A00_0000u32 >> 21 == 0x450,
        0xAA00_0000u32 >> 21 == 0x550,
        0x9B00_7C00u32 >> 21 == 0x4D8,
        0x9B00_8000u32 >> 21 == 0x4D8,
        0x9AC0_0C00u32 >> 21 == 0x4D6,
        0x9AC0_2000u32 >> 21 == 0x4D6,
        0x9AC0_2400u32 >> 21 == 0x4D6,
        0x9AC0_2800u32 >> 21 == 0x4D6,
        0x9100_0000u32 >> 21 == 0x488,
        0xD100_0000u32 >> 21 == 0x688,
        0xB100_0000u32 >> 21 == 0x588,
        0xF100_0000u32 >> 21 == 0x788,
        0xF940_0000u32 >> 21 == 0x7CA,
        0xF900_0000u32 >> 21 == 0x7C8,
        0xFD40_0000u32 >> 21 == 0x7EA,
        0xFD00_0000u32 >> 21 == 0x7E8,
        0x1E60_2800u32 >> 21 == 0xF3,
        0x1E60_3800u32 >> 21 == 0xF3,
        0x1E60_0800u32 >> 21 == 0xF3,
        0x1E60_1800u32 >> 21 == 0xF3,
        (0x8B00_0000u32 >> 10) & 63 == 0,
        (0xCB00_0000u32 >> 10) & 63 == 0,
        (0x8A00_0000u32 >> 10) & 63 == 0,
        (0x9B00_7C00u32 >> 10) & 63 == 31,
        (0x9AC0_0C00u32 >> 10) & 63 == 3,
        (0x9AC0_2000u32 >> 10) & 63 == 8,
        (0x9AC0_2400u32 >> 10) & 63 == 9,
        (0x9AC0_2800u32 >> 10) & 63 == 10,
        (0x1E60_2800u32 >> 10) & 63 == 10,
        (0x1E60_3800u32 >> 10) & 63 == 14,
        (0x1E60_0800u32 >> 10) & 63 == 2,
        (0x1E60_1800u32 >> 10) & 63 == 6,
        0x8B00_0000u32 & 0x001F_03FF == 0,
        0xCB00_0000u32 & 0x001F_03FF == 0,
        0x8A00_0000u32 & 0x001F_03FF == 0,
        0x9B00_7C00u32 & 0x001F_03FF == 0,
        0x9AC0_0C00u32 & 0x001F_03FF == 0,
        0x9AC0_2000u32 & 0x001F_03FF == 0,
        0x9AC0_2400u32 & 0x001F_03FF == 0,
        0x9AC0_2800u32 & 0x001F_03FF == 0,
        0x1E60_2800u32 & 0x001F_03FF == 0,
        0x1E60_3800u32 & 0x001F_03FF == 0,
        0x1E60_0800u32 & 0x001F_03FF == 0,
        0x1E60_1800u32 & 0x001F_03FF == 0,
        0x9100_0000u32 & 0x003F_FFFF == 0,
        0xD100_0000u32 & 0x003F_FFFF == 0,
        0xB100_0000u32 & 0x003F_FFFF == 0,
        0xF100_0000u32 & 0x003F_FFFF == 0,
        0xF940_0000u32 & 0x003F_FFFF == 0,
        0xF900_0000u32 & 0x003F_FFFF == 0,
        0xFD40_0000u32 & 0x003F_FFFF == 0,
        0xFD00_0000u32 & 0x003F_FFFF == 0,
        0xD340_0000u32 & 0x003F_FFFF == 0,
        0x9340_0000u32 & 0x003F_FFFF == 0,
        0xD340_0000u32 >> 21 == 0x69A,
        0x9340_0000u32 >> 21 == 0x49A,
        0x69Au32 | 1 == 0x69B,
        0x49Au32 | 1 == 0x49B,
        0xD280_0000u32 & 0x007F_FFFF == 0,
        0xF280_0000u32 & 0x007F_FFFF == 0,
        0xD280_0000u32 >> 21 == 0x694,
        0xF280_0000u32 >> 21 == 0x794,
        0x794u32 | 1 == 0x795,
        0x794u32 | 2 == 0x796,
        0x794u32 | 3 == 0x797,
        0x694u32 | 0 == 0x694,
{
    assert(0x8B00_0000u32 >> 21 == 0x458 && 0xCB00_0000u32 >> 21 == 0x658 && 0xEB00_0000u32 >> 21 == 0x758
        && 0x8A00_0000u32 >> 21 == 0x450 && 0xAA00_0000u32 >> 21 == 0x550 && 0x9B00_7C00u32 >> 21 == 0x4D8
        && 0x9B00_8000u32 >> 21 == 0x4D8 && 0x9AC0_0C00u32 >> 21 == 0x4D6 && 0x9AC0_2000u32 >> 21 == 0x4D6
        && 0x9AC0_2400u32 >> 21 == 0x4D6 && 0x9AC0_2800u32 >> 21 == 0x4D6 && 0x9100_0000u32 >> 21 == 0x488
        && 0xD100_0000u32 >> 21 == 0x688 && 0xB100_0000u32 >> 21 == 0x588 && 0xF100_0000u32 >> 21 == 0x788
        && 0xF940_0000u32 >> 21 == 0x7CA && 0xF900_0000u32 >> 21 == 0x7C8 && 0xFD40_0000u32 >> 21 == 0x7EA
        && 0xFD00_0000u32 >> 21 == 0x7E8 && 0x1E60_2800u32 >> 21 == 0xF3 && 0x1E60_3800u32 >> 21 == 0xF3
        && 0x1E60_0800u32 >> 21 == 0xF3 && 0x1E60_1800u32 >> 21 == 0xF3 && (0x8B00_0000u32 >> 10) & 63 == 0
        && (0xCB00_0000u32 >> 10) & 63 == 0 && (0x8A00_0000u32 >> 10) & 63 == 0 && (0x9B00_7C00u32 >> 10) & 63 == 31
        && (0x9AC0_0C00u32 >> 10) & 63 == 3 && (0x9AC0_2000u32 >> 10) & 63 == 8 && (0x9AC0_2400u32 >> 10) & 63 == 9
        && (0x9AC0_2800u32 >> 10) & 63 == 10 && (0x1E60_2800u32 >> 10) & 63 == 10 && (0x1E60_3800u32 >> 10) & 63 == 14
        && (0x1E60_0800u32 >> 10) & 63 == 2 && (0x1E60_1800u32 >> 10) & 63 == 6) by (bit_vector);
    assert(0x8B00_0000u32 & 0x001F_03FF == 0 && 0xCB00_0000u32 & 0x001F_03FF == 0 && 0x8A00_0000u32 & 0x001F_03FF == 0
        && 0x9B00_7C00u32 & 0x001F_03FF == 0 && 0x9AC0_0C00u32 & 0x001F_03FF == 0 && 0x9AC0_2000u32 & 0x001F_03FF == 0
        && 0x9AC0_2400u32 & 0x001F_03FF == 0 && 0x9AC0_2800u32 & 0x001F_03FF == 0 && 0x1E60_2800u32 & 0x001F_03FF == 0
        && 0x1E60_3800u32 & 0x001F_03FF == 0 && 0x1E60_0800u32 & 0x001F_03FF == 0 && 0x1E60_1800u32 & 0x001F_03FF == 0
        && 0x9100_0000u32 & 0x003F_FFFF == 0 && 0xD100_0000u32 & 0x003F_FFFF == 0 && 0xB100_0000u32 & 0x003F_FFFF == 0
        && 0xF100_0000u32 & 0x003F_FFFF == 0 && 0xF940_0000u32 & 0x003F_FFFF == 0 && 0xF900_0000u32 & 0x003F_FFFF == 0
        && 0xFD40_0000u32 & 0x003F_FFFF == 0 && 0xFD00_0000u32 & 0x003F_FFFF == 0 && 0xD340_0000u32 & 0x003F_FFFF == 0
        && 0x9340_0000u32 & 0x003F_FFFF == 0 && 0xD340_0000u32 >> 21 == 0x69A && 0x9340_0000u32 >> 21 == 0x49A && 0x69Au32
        | 1 == 0x69B && 0x49Au32 | 1 == 0x49B && 0xD280_0000u32 & 0x007F_FFFF == 0 && 0xF280_0000u32 & 0x007F_FFFF == 0
        && 0xD280_0000u32 >> 21 == 0x694 && 0xF280_0000u32 >> 21 == 0x794 && 0x794u32 | 1 == 0x795 && 0x794u32 | 2 == 0x796
        && 0x794u32 | 3 == 0x797 && 0x694u32 | 0 == 0x694) by (bit_vector);
}

} // verus!
