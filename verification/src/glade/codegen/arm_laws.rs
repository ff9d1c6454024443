//! The instructions an operation of the bytecode becomes leave, where its result lives, what
//! the operation comes to.

use super::a64::{Fixup, Label, Loc, A, HS, X10, X11, X19};
use super::arm::{
    exec, flags_of_sub, half_put, lemma_numbers, lemma_run_same, lemma_run_then, lemma_sixteen, lemma_twelve, run,
    wrap, Cpu, Floats, Then,
};
use super::code::{Operand, Reg};
use vstd::prelude::*;

verus! {

/// What `b` adds to `a`, run.
pub open spec fn does(fl: Floats, a: A, b: A, s: Cpu) -> Then {
    run(fl, s, b.words, a.words.len(), b.words.len())
}

/// `b` is `a` with more behind it.
pub open spec fn behind(a: A, b: A) -> bool {
    &&& a.words.len() <= b.words.len()
    &&& forall|i: int| 0 <= i < a.words.len() ==> #[trigger] b.words[i] == a.words[i]
    &&& a.pins == b.pins
    &&& a.short == b.short
    &&& a.defer_live == b.defer_live
    &&& a.at == b.at
}

pub proof fn lemma_put(fl: Floats, a: A, w: u32, s: Cpu)
    ensures
        does(fl, a, a.put(w), s) == exec(fl, s, w),
        behind(a, a.put(w)),
{
    let b = a.put(w);
    assert(run(fl, s, b.words, a.words.len(), a.words.len()) == Then::On(s));
    assert(b.words[a.words.len() as int] == w);
}

pub proof fn lemma_branch(fl: Floats, a: A, l: Label, f: Fixup, w: u32, s: Cpu)
    ensures
        does(fl, a, a.branch(l, f, w), s) == exec(fl, s, w),
        behind(a, a.branch(l, f, w)),
{
    let c = A { fixups: a.fixups.push((a.words.len() as usize, l, f)), ..a };
    lemma_put(fl, c, w, s);
}

pub proof fn lemma_none(fl: Floats, a: A, s: Cpu)
    ensures
        does(fl, a, a, s) == Then::On(s),
        behind(a, a),
{
}

pub proof fn lemma_does(fl: Floats, a: A, b: A, c: A, s: Cpu)
    requires
        behind(a, b),
        behind(b, c),
    ensures
        behind(a, c),
        does(fl, a, c, s) == match does(fl, a, b, s) {
            Then::On(s1) => does(fl, b, c, s1),
            other => other,
        },
{
    lemma_run_then(fl, s, c.words, a.words.len(), b.words.len(), c.words.len());
    lemma_run_same(fl, s, b.words, c.words, a.words.len(), b.words.len());
    assert forall|i: int| 0 <= i < a.words.len() implies #[trigger] c.words[i] == a.words[i] by {
        assert(b.words[i] == a.words[i]);
    }
}

// --- where bytecode registers are ---

/// Where a bytecode register is in memory, where nothing else holds it.
pub open spec fn slot_at(s: Cpu, r: Reg) -> u64 {
    wrap(s.reg(20) + 8 * r)
}

/// What a bytecode register holds.
pub open spec fn value(s: Cpu, a: A, r: Reg) -> u64 {
    match a.pin(r) {
        Some(Loc::X(m)) => s.reg(m),
        Some(Loc::D(m)) => s.d[m as int],
        None => s.mem[slot_at(s, r)],
    }
}

/// What an operand is.
pub open spec fn given(s: Cpu, a: A, c: Operand) -> u64 {
    match c {
        Operand::Reg(r) => value(s, a, r),
        Operand::Imm(n) => wrap(n as int),
    }
}

/// Bytecode registers live apart: in the general registers that are kept for them, in the
/// upper float registers, or in memory.
pub open spec fn placed(a: A) -> bool {
    &&& forall|r: Reg|
        match #[trigger] a.pin(r) {
            Some(Loc::X(m)) => 2 <= m <= 8 || 23 <= m <= 28,
            Some(Loc::D(m)) => 16 <= m <= 31,
            None => true,
        }
    &&& forall|q: Reg, r: Reg|
        q != r && #[trigger] a.pin(q) is Some && #[trigger] a.pin(r) is Some ==> a.pin(q) != a.pin(r)
}

/// Where the machine keeps how many registers are in use.
pub open spec fn live_at(s: Cpu, a: A) -> u64 {
    wrap(s.reg(19) + 8 * (a.at.live / 8))
}

/// The machine is in order: registers are apart from what the machine keeps.
pub open spec fn ready(s: Cpu, a: A) -> bool {
    &&& s.well()
    &&& placed(a)
    &&& a.at.live < 32768
    &&& forall|r: Reg| #[trigger] slot_at(s, r) != live_at(s, a)
}

/// From `s` to `t` only the register `r` changes, to `v`, as far as the bytecode sees; and the
/// machine's own registers stay.
pub open spec fn leaves(s: Cpu, t: Cpu, a: A, r: Reg, v: u64) -> bool {
    &&& t.well()
    &&& value(t, a, r) == v
    &&& unharmed(s, t, a, r)
}

pub open spec fn unharmed(s: Cpu, t: Cpu, a: A, r: Reg) -> bool {
    &&& forall|q: Reg| q != r ==> #[trigger] value(t, a, q) == value(s, a, q)
    &&& t.reg(19) == s.reg(19)
    &&& t.reg(20) == s.reg(20)
    &&& t.reg(21) == s.reg(21)
    &&& t.reg(22) == s.reg(22)
}

pub proof fn lemma_wrap_apart(x: u64, q: u8, r: u8)
    requires
        q != r,
    ensures
        wrap(x + 8 * q) != wrap(x + 8 * r),
{
    let big = 0x1_0000_0000_0000_0000int;
    let (a, b) = (x + 8 * q, x + 8 * r);
    if wrap(a) == wrap(b) {
        assert(a % big == b % big);
        assert(a == big * (a / big) + a % big) by {
            vstd::arithmetic::div_mod::lemma_fundamental_div_mod(a, big);
        }
        assert(b == big * (b / big) + b % big) by {
            vstd::arithmetic::div_mod::lemma_fundamental_div_mod(b, big);
        }
        assert(0 <= a / big <= 1 && 0 <= b / big <= 1);
    }
}

/// Scratch registers are nobody's.
pub proof fn lemma_scratch(s: Cpu, a: A, t: u32, v: u64)
    requires
        ready(s, a),
        9 <= t <= 11,
    ensures
        ready(s.set(t, v), a),
        forall|q: Reg| #[trigger] value(s.set(t, v), a, q) == value(s, a, q),
        s.set(t, v).reg(t) == v,
        forall|r: u32| r != t ==> #[trigger] s.set(t, v).reg(r) == s.reg(r),
{
    let u = s.set(t, v);
    assert(u.reg(20) == s.reg(20) && u.reg(19) == s.reg(19));
    assert forall|r: Reg| #[trigger] slot_at(u, r) != live_at(u, a) by {
        assert(slot_at(s, r) != live_at(s, a));
    }
    assert forall|q: Reg| #[trigger] value(u, a, q) == value(s, a, q) by {
        assert(match a.pin(q) {
            Some(Loc::X(m)) => 2 <= m <= 8 || 23 <= m <= 28,
            Some(Loc::D(m)) => 16 <= m <= 31,
            None => true,
        });
    }
}

/// A bytecode register changed where it lives.
pub open spec fn put_in(s: Cpu, a: A, r: Reg, v: u64) -> Cpu {
    match a.pin(r) {
        Some(Loc::X(m)) => s.set(m, v),
        Some(Loc::D(m)) => s.set_d(m, v),
        None => s.stored(slot_at(s, r), v),
    }
}

pub proof fn lemma_put_in(s: Cpu, a: A, r: Reg, v: u64)
    requires
        ready(s, a),
    ensures
        ready(put_in(s, a, r, v), a),
        leaves(s, put_in(s, a, r, v), a, r, v),
        forall|q: u32| (9 <= q <= 11) ==> #[trigger] put_in(s, a, r, v).reg(q) == s.reg(q),
{
    let u = put_in(s, a, r, v);
    assert(match a.pin(r) {
        Some(Loc::X(m)) => 2 <= m <= 8 || 23 <= m <= 28,
        Some(Loc::D(m)) => 16 <= m <= 31,
        None => true,
    });
    assert(u.reg(20) == s.reg(20) && u.reg(19) == s.reg(19));
    assert forall|q: Reg| #[trigger] slot_at(u, q) != live_at(u, a) by {
        assert(slot_at(s, q) != live_at(s, a));
    }
    assert forall|q: Reg| q != r implies #[trigger] value(u, a, q) == value(s, a, q) by {
        assert(match a.pin(q) {
            Some(Loc::X(m)) => 2 <= m <= 8 || 23 <= m <= 28,
            Some(Loc::D(m)) => 16 <= m <= 31,
            None => true,
        });
        if a.pin(q) is Some && a.pin(r) is Some {
            assert(a.pin(q) != a.pin(r));
        }
        lemma_wrap_apart(s.reg(20), q, r);
    }
}

// --- single instructions ---

pub proof fn lemma_two(base: u32, n: u32, d: u32)
    requires
        base & 0x3FF == 0,
        n < 32,
        d < 32,
    ensures
        ({
            let w = base | n << 5 | d;
            &&& w >> 21 == base >> 21
            &&& w & 31 == d
            &&& (w >> 5) & 31 == n
            &&& (w >> 16) & 31 == (base >> 16) & 31
            &&& (w >> 10) & 63 == (base >> 10) & 63
        }),
{
    assert(base & 0x3FF == 0 && n < 32 && d < 32 ==> (base | n << 5 | d) >> 21 == base >> 21 && (base | n << 5 | d) & 31
        == d && ((base | n << 5 | d) >> 5) & 31 == n && ((base | n << 5 | d) >> 16) & 31 == (base >> 16) & 31 && ((base | n
        << 5 | d) >> 10) & 63 == (base >> 10) & 63) by (bit_vector);
}

pub proof fn lemma_moves(m: u32, n: u32, d: u32)
    requires
        m < 32,
        n < 32,
        d < 32,
    ensures
        ({
            let w = 0xAA00_03E0 | m << 16 | d;
            &&& w >> 21 == 0x550
            &&& w & 31 == d
            &&& (w >> 5) & 31 == 31
            &&& (w >> 16) & 31 == m
            &&& (w >> 10) & 63 == 0
        }),
        ({
            let w = 0xEB00_001F | m << 16 | n << 5;
            &&& w >> 21 == 0x758
            &&& w & 31 == 31
            &&& (w >> 5) & 31 == n
            &&& (w >> 16) & 31 == m
            &&& (w >> 10) & 63 == 0
        }),
        ({
            let w = 0x1E60_2000 | m << 16 | n << 5;
            &&& w >> 21 == 0xF3
            &&& w & 31 == 0
            &&& (w >> 5) & 31 == n
            &&& (w >> 16) & 31 == m
            &&& (w >> 10) & 63 == 8
        }),
        0x9E66_0000u32 & 0x3FF == 0,
        0x9E67_0000u32 & 0x3FF == 0,
        0x9E62_0000u32 & 0x3FF == 0,
        0x1E60_4000u32 & 0x3FF == 0,
        0x9E66_0000u32 >> 21 == 0x4F3,
        0x9E67_0000u32 >> 21 == 0x4F3,
        0x9E62_0000u32 >> 21 == 0x4F3,
        0x1E60_4000u32 >> 21 == 0xF3,
        (0x9E66_0000u32 >> 16) & 31 == 6,
        (0x9E67_0000u32 >> 16) & 31 == 7,
        (0x9E62_0000u32 >> 16) & 31 == 2,
        (0x1E60_4000u32 >> 16) & 31 == 0,
        (0x9E66_0000u32 >> 10) & 63 == 0,
        (0x9E67_0000u32 >> 10) & 63 == 0,
        (0x9E62_0000u32 >> 10) & 63 == 0,
        (0x1E60_4000u32 >> 10) & 63 == 16,
{
    assert(m < 32 && n < 32 && d < 32 ==> (0xAA00_03E0 | m << 16 | d) >> 21 == 0x550 && (0xAA00_03E0 | m << 16 | d) & 31
        == d && ((0xAA00_03E0 | m << 16 | d) >> 5) & 31 == 31 && ((0xAA00_03E0 | m << 16 | d) >> 16) & 31 == m && ((
    0xAA00_03E0 | m << 16 | d) >> 10) & 63 == 0) by (bit_vector);
    assert(m < 32 && n < 32 ==> (0xEB00_001F | m << 16 | n << 5) >> 21 == 0x758 && (0xEB00_001F | m << 16 | n << 5) & 31
        == 31 && ((0xEB00_001F | m << 16 | n << 5) >> 5) & 31 == n && ((0xEB00_001F | m << 16 | n << 5) >> 16) & 31 == m
        && ((0xEB00_001F | m << 16 | n << 5) >> 10) & 63 == 0 && (0x1E60_2000 | m << 16 | n << 5) >> 21 == 0xF3 && (
    0x1E60_2000 | m << 16 | n << 5) & 31 == 0 && ((0x1E60_2000 | m << 16 | n << 5) >> 5) & 31 == n && ((0x1E60_2000 | m
        << 16 | n << 5) >> 16) & 31 == m && ((0x1E60_2000 | m << 16 | n << 5) >> 10) & 63 == 8) by (bit_vector);
    assert(0x9E66_0000u32 & 0x3FF == 0 && 0x9E67_0000u32 & 0x3FF == 0 && 0x9E62_0000u32 & 0x3FF == 0 && 0x1E60_4000u32
        & 0x3FF == 0 && 0x9E66_0000u32 >> 21 == 0x4F3 && 0x9E67_0000u32 >> 21 == 0x4F3 && 0x9E62_0000u32 >> 21 == 0x4F3
        && 0x1E60_4000u32 >> 21 == 0xF3 && (0x9E66_0000u32 >> 16) & 31 == 6 && (0x9E67_0000u32 >> 16) & 31 == 7 && (
    0x9E62_0000u32 >> 16) & 31 == 2 && (0x1E60_4000u32 >> 16) & 31 == 0 && (0x9E66_0000u32 >> 10) & 63 == 0 && (
    0x9E67_0000u32 >> 10) & 63 == 0 && (0x9E62_0000u32 >> 10) & 63 == 0 && (0x1E60_4000u32 >> 10) & 63 == 16)
        by (bit_vector);
}

pub proof fn lemma_mov_x(fl: Floats, a: A, d: u32, m: u32, s: Cpu)
    requires
        d < 31,
        m < 31,
    ensures
        does(fl, a, a.mov_x(d, m), s) == Then::On(s.set(d, s.reg(m))),
        behind(a, a.mov_x(d, m)),
{
    lemma_moves(m, 0, d);
    lemma_put(fl, a, 0xAA00_03E0 | m << 16 | d, s);
    let v = s.reg(m);
    assert(0u64 | v == v) by (bit_vector);
}

pub proof fn lemma_fmovs(fl: Floats, a: A, d: u32, n: u32, s: Cpu)
    requires
        d < 32,
        n < 32,
    ensures
        does(fl, a, a.fmov_xd(d, n), s) == Then::On(s.set(d, s.d[n as int])),
        behind(a, a.fmov_xd(d, n)),
        does(fl, a, a.fmov_dx(d, n), s) == Then::On(s.set_d(d, s.reg(n))),
        behind(a, a.fmov_dx(d, n)),
        does(fl, a, a.fmov_dd(d, n), s) == Then::On(s.set_d(d, s.d[n as int])),
        behind(a, a.fmov_dd(d, n)),
{
    lemma_moves(0, n, 0);
    lemma_two(0x9E66_0000, n, d);
    lemma_two(0x9E67_0000, n, d);
    lemma_two(0x1E60_4000, n, d);
    lemma_put(fl, a, 0x9E66_0000 | n << 5 | d, s);
    lemma_put(fl, a, 0x9E67_0000 | n << 5 | d, s);
    lemma_put(fl, a, 0x1E60_4000 | n << 5 | d, s);
}

pub proof fn lemma_memory(fl: Floats, a: A, t: u32, n: u32, off: u32, s: Cpu)
    requires
        t < 32,
        n < 31,
        off / 8 < 4096,
    ensures
        does(fl, a, a.ldr(t, n, off), s) == Then::On(s.set(t, s.mem[wrap(s.reg(n) + 8 * (off / 8))])),
        behind(a, a.ldr(t, n, off)),
        does(fl, a, a.str(t, n, off), s) == Then::On(s.stored(wrap(s.reg(n) + 8 * (off / 8)), s.reg(t))),
        behind(a, a.str(t, n, off)),
        does(fl, a, a.ldr_d(t, n, off), s) == Then::On(s.set_d(t, s.mem[wrap(s.reg(n) + 8 * (off / 8))])),
        behind(a, a.ldr_d(t, n, off)),
        does(fl, a, a.str_d(t, n, off), s) == Then::On(s.stored(wrap(s.reg(n) + 8 * (off / 8)), s.d[t as int])),
        behind(a, a.str_d(t, n, off)),
{
    lemma_numbers();
    let k = off / 8;
    lemma_twelve(0xF940_0000, k, n, t);
    lemma_twelve(0xF900_0000, k, n, t);
    lemma_twelve(0xFD40_0000, k, n, t);
    lemma_twelve(0xFD00_0000, k, n, t);
    lemma_put(fl, a, 0xF940_0000 | (off / 8) << 10 | n << 5 | t, s);
    lemma_put(fl, a, 0xF900_0000 | (off / 8) << 10 | n << 5 | t, s);
    lemma_put(fl, a, 0xFD40_0000 | (off / 8) << 10 | n << 5 | t, s);
    lemma_put(fl, a, 0xFD00_0000 | (off / 8) << 10 | n << 5 | t, s);
}

// --- constants ---

/// The lowest bits of a word, and nothing above.
pub open spec fn low(v: u64, halves: int) -> u64 {
    if halves == 1 {
        v & 0xFFFF
    } else if halves == 2 {
        v & 0xFFFF_FFFF
    } else if halves == 3 {
        v & 0xFFFF_FFFF_FFFF
    } else {
        v
    }
}

pub proof fn lemma_halves(v: u64)
    ensures
        half_put(0, v & 0xFFFF, 0) == low(v, 1),
        half_put(low(v, 1), (v >> 16) & 0xFFFF, 1) == low(v, 2),
        (v >> 16) & 0xFFFF == 0 ==> low(v, 1) == low(v, 2),
        half_put(low(v, 2), (v >> 32) & 0xFFFF, 2) == low(v, 3),
        (v >> 32) & 0xFFFF == 0 ==> low(v, 2) == low(v, 3),
        half_put(low(v, 3), (v >> 48) & 0xFFFF, 3) == v,
        (v >> 48) & 0xFFFF == 0 ==> low(v, 3) == v,
        v & 0xFFFF <= 0xFFFF,
        (v >> 16) & 0xFFFF <= 0xFFFF,
        (v >> 32) & 0xFFFF <= 0xFFFF,
        (v >> 48) & 0xFFFF <= 0xFFFF,
{
    assert((0u64 & !0xFFFFu64) | (v & 0xFFFF) == v & 0xFFFF && ((v & 0xFFFF) & !0xFFFF_0000u64) | ((v >> 16) & 0xFFFF)
        << 16 == v & 0xFFFF_FFFF && ((v >> 16) & 0xFFFF == 0 ==> v & 0xFFFF == v & 0xFFFF_FFFF) && ((v & 0xFFFF_FFFF)
        & !0xFFFF_0000_0000u64) | ((v >> 32) & 0xFFFF) << 32 == v & 0xFFFF_FFFF_FFFF && ((v >> 32) & 0xFFFF == 0 ==> v
        & 0xFFFF_FFFF == v & 0xFFFF_FFFF_FFFF) && ((v & 0xFFFF_FFFF_FFFF) & !0xFFFF_0000_0000_0000u64) | ((v >> 48)
        & 0xFFFF) << 48 == v && ((v >> 48) & 0xFFFF == 0 ==> v & 0xFFFF_FFFF_FFFF == v) && v & 0xFFFF <= 0xFFFF && (v >> 16)
        & 0xFFFF <= 0xFFFF && (v >> 32) & 0xFFFF <= 0xFFFF && (v >> 48) & 0xFFFF <= 0xFFFF) by (bit_vector);
}

pub proof fn lemma_half(fl: Floats, a: A, d: u32, part: u64, hw: u32, s: Cpu)
    requires
        d < 31,
        part <= 0xFFFF,
        1 <= hw <= 3,
    ensures
        behind(a, a.half(d, part, hw)),
        part != 0 ==> does(fl, a, a.half(d, part, hw), s) == Then::On(s.set(d, half_put(s.reg(d), part, hw))),
        part == 0 ==> does(fl, a, a.half(d, part, hw), s) == Then::On(s),
{
    lemma_numbers();
    lemma_none(fl, a, s);
    if part != 0 {
        lemma_sixteen(0xF280_0000, hw, part as u32, d);
        lemma_put(fl, a, 0xF280_0000 | hw << 21 | (part as u32) << 5 | d, s);
    }
}

/// A constant is built in a register.
pub proof fn lemma_imm(fl: Floats, a: A, d: u32, v: u64, s: Cpu)
    requires
        d < 31,
        s.well(),
    ensures
        behind(a, a.imm(d, v)),
        does(fl, a, a.imm(d, v), s) == Then::On(s.set(d, v)),
{
    lemma_numbers();
    lemma_halves(v);
    let k = (v & 0xFFFF) as u32;
    lemma_sixteen(0xD280_0000, 0, k, d);
    let w = 0xD280_0000 | k << 5 | d;
    assert(0xD280_0000u32 | 0u32 << 21 | k << 5 | d == w) by {
        assert(0xD280_0000u32 | 0u32 << 21 == 0xD280_0000u32) by (bit_vector);
    }
    let a0 = a.put(w);
    lemma_put(fl, a, w, s);
    let s0 = s.set(d, low(v, 1));
    let p1 = (v >> 16) & 0xFFFF;
    let a1 = a0.half(d, p1, 1);
    lemma_half(fl, a0, d, p1, 1, s0);
    lemma_does(fl, a, a0, a1, s);
    let s1 = s.set(d, low(v, 2));
    assert(s0.set(d, low(v, 2)).x =~= s1.x);
    assert(does(fl, a, a1, s) == Then::On(s1));
    let p2 = (v >> 32) & 0xFFFF;
    let a2 = a1.half(d, p2, 2);
    lemma_half(fl, a1, d, p2, 2, s1);
    lemma_does(fl, a, a1, a2, s);
    let s2 = s.set(d, low(v, 3));
    assert(s1.set(d, low(v, 3)).x =~= s2.x);
    assert(does(fl, a, a2, s) == Then::On(s2));
    let p3 = (v >> 48) & 0xFFFF;
    let a3 = a2.half(d, p3, 3);
    lemma_half(fl, a2, d, p3, 3, s2);
    lemma_does(fl, a, a2, a3, s);
    assert(s2.set(d, v).x =~= s.set(d, v).x);
}

// --- operands ---

/// A register's value is where the code that wants it looks.
pub proof fn lemma_x(fl: Floats, a: A, r: Reg, scratch: u32, s: Cpu)
    requires
        ready(s, a),
        9 <= scratch <= 11,
    ensures
        behind(a, a.x(r, scratch)),
        a.x_of(r, scratch) < 31,
        a.x_of(r, scratch) == scratch || a.x_of(r, scratch) < 9 || a.x_of(r, scratch) > 22,
        ({
            let t = if a.x_of(r, scratch) == scratch {
                s.set(scratch, value(s, a, r))
            } else {
                s
            };
            &&& does(fl, a, a.x(r, scratch), s) == Then::On(t)
            &&& t.reg(a.x_of(r, scratch)) == value(s, a, r)
        }),
{
    assert(match a.pin(r) {
        Some(Loc::X(m)) => 2 <= m <= 8 || 23 <= m <= 28,
        Some(Loc::D(m)) => 16 <= m <= 31,
        None => true,
    });
    match a.pin(r) {
        Some(Loc::X(m)) => {
            lemma_none(fl, a, s);
        },
        Some(Loc::D(m)) => {
            lemma_fmovs(fl, a, scratch, m, s);
        },
        None => {
            lemma_memory(fl, a, scratch, 20, super::a64::slot_of(r), s);
        },
    }
}

pub proof fn lemma_operand(fl: Floats, a: A, c: Operand, s: Cpu)
    requires
        ready(s, a),
    ensures
        behind(a, a.operand(c, X10)),
        a.operand_of(c, X10) < 31,
        a.operand_of(c, X10) == 10 || a.operand_of(c, X10) < 9 || a.operand_of(c, X10) > 22,
        ({
            let t = if a.operand_of(c, X10) == 10 {
                s.set(10, given(s, a, c))
            } else {
                s
            };
            &&& does(fl, a, a.operand(c, X10), s) == Then::On(t)
            &&& t.reg(a.operand_of(c, X10)) == given(s, a, c)
        }),
{
    match c {
        Operand::Reg(r) => {
            lemma_x(fl, a, r, X10, s);
        },
        Operand::Imm(n) => {
            lemma_imm(fl, a, 10, n as u64, s);
            lemma_cast(n);
        },
    }
}

pub proof fn lemma_cast(n: i64)
    ensures
        n as u64 == wrap(n as int),
{
    if n < 0 {
        let m = (-(n + 1)) as i64;
        let u = m as u64;
        assert(n == !m && m >= 0 ==> n as u64 == !(m as u64)) by (bit_vector);
        assert(n < 0 && m == -(n + 1) ==> n == !m) by (bit_vector);
        assert(!u == 0xFFFF_FFFF_FFFF_FFFF - u) by (bit_vector);
    }
}

// --- results ---

pub proof fn lemma_set(fl: Floats, a: A, t: u32, r: Reg, s: Cpu)
    requires
        ready(s, a),
        t < 31,
    ensures
        behind(a, a.set(t, r)),
        does(fl, a, a.set(t, r), s) == Then::On(put_in(s, a, r, s.reg(t))),
{
    assert(match a.pin(r) {
        Some(Loc::X(m)) => 2 <= m <= 8 || 23 <= m <= 28,
        Some(Loc::D(m)) => 16 <= m <= 31,
        None => true,
    });
    match a.pin(r) {
        Some(Loc::X(m)) => {
            if m != t {
                lemma_mov_x(fl, a, m, t, s);
            } else {
                lemma_none(fl, a, s);
                assert(s.set(m, s.reg(m)).x =~= s.x);
            }
        },
        Some(Loc::D(m)) => {
            lemma_fmovs(fl, a, m, t, s);
        },
        None => {
            lemma_memory(fl, a, t, 20, super::a64::slot_of(r), s);
        },
    }
}

pub proof fn lemma_set_float(fl: Floats, a: A, t: u32, r: Reg, s: Cpu)
    requires
        ready(s, a),
        t < 32,
    ensures
        behind(a, a.set_float(t, r)),
        does(fl, a, a.set_float(t, r), s) == Then::On(put_in(s, a, r, s.d[t as int])),
{
    assert(match a.pin(r) {
        Some(Loc::X(m)) => 2 <= m <= 8 || 23 <= m <= 28,
        Some(Loc::D(m)) => 16 <= m <= 31,
        None => true,
    });
    match a.pin(r) {
        Some(Loc::D(m)) => {
            if m != t {
                lemma_fmovs(fl, a, m, t, s);
            } else {
                lemma_none(fl, a, s);
                assert(s.set_d(m, s.d[m as int]).d =~= s.d);
            }
        },
        Some(Loc::X(m)) => {
            lemma_fmovs(fl, a, m, t, s);
        },
        None => {
            lemma_memory(fl, a, t, 20, super::a64::slot_of(r), s);
        },
    }
}

pub proof fn lemma_select()
    ensures
        ({
            let w = 0x9A80_0000u32 | X11 << 16 | HS << 12 | X10 << 5 | X10;
            &&& w >> 21 == 0x4D4
            &&& w & 31 == 10
            &&& (w >> 5) & 31 == 10
            &&& (w >> 16) & 31 == 11
            &&& (w >> 10) & 63 == 8
        }),
{
    assert((0x9A80_0000u32 | 11u32 << 16 | 2u32 << 12 | 10u32 << 5 | 10u32) >> 21 == 0x4D4 && (0x9A80_0000u32 | 11u32 << 16
        | 2u32 << 12 | 10u32 << 5 | 10u32) & 31 == 10 && ((0x9A80_0000u32 | 11u32 << 16 | 2u32 << 12 | 10u32 << 5 | 10u32)
        >> 5) & 31 == 10 && ((0x9A80_0000u32 | 11u32 << 16 | 2u32 << 12 | 10u32 << 5 | 10u32) >> 16) & 31 == 11 && ((
    0x9A80_0000u32 | 11u32 << 16 | 2u32 << 12 | 10u32 << 5 | 10u32) >> 10) & 63 == 8) by (bit_vector);
}

pub proof fn lemma_compare(fl: Floats, a: A, n: u32, m: u32, s: Cpu)
    requires
        n < 32,
        m < 32,
    ensures
        behind(a, a.compare(n, m)),
        does(fl, a, a.compare(n, m), s) == Then::On(s.compared(flags_of_sub(s.reg(n), s.reg(m)))),
{
    lemma_moves(m, n, 0);
    lemma_put(fl, a, 0xEB00_001F | m << 16 | n << 5, s);
}

/// How many registers are in use becomes at least `n`, and no bytecode register changes.
pub proof fn lemma_raise(fl: Floats, a: A, n: u32, s: Cpu)
    requires
        ready(s, a),
    ensures
        behind(a, a.raise(n)),
        does(fl, a, a.raise(n), s) matches Then::On(t) && {
            &&& ready(t, a)
            &&& forall|q: Reg| #[trigger] value(t, a, q) == value(s, a, q)
            &&& t.reg(19) == s.reg(19)
            &&& t.reg(20) == s.reg(20)
            &&& t.reg(21) == s.reg(21)
            &&& t.reg(22) == s.reg(22)
            &&& t.mem[live_at(s, a)] == (if s.mem[live_at(s, a)] >= n {
                s.mem[live_at(s, a)]
            } else {
                n as u64
            })
        },
{
    let at = live_at(s, a);
    let old = s.mem[at];
    let a1 = a.ldr(X10, X19, a.at.live);
    lemma_memory(fl, a, X10, X19, a.at.live, s);
    let s1 = s.set(10, old);
    lemma_scratch(s, a, 10, old);
    let a2 = a1.imm(X11, n as u64);
    lemma_imm(fl, a1, X11, n as u64, s1);
    let s2 = s1.set(11, n as u64);
    lemma_scratch(s1, a, 11, n as u64);
    lemma_does(fl, a, a1, a2, s);
    let a3 = a2.compare(X10, X11);
    lemma_compare(fl, a2, X10, X11, s2);
    let s3 = s2.compared(flags_of_sub(s2.reg(10), s2.reg(11)));
    lemma_does(fl, a, a2, a3, s);
    let w = 0x9A80_0000u32 | X11 << 16 | HS << 12 | X10 << 5 | X10;
    let a4 = a3.put(w);
    lemma_put(fl, a3, w, s3);
    lemma_select();
    let most = if old >= n {
        old
    } else {
        n as u64
    };
    let s4 = s3.set(10, most);
    lemma_does(fl, a, a3, a4, s);
    assert(s2.reg(10) == old && s2.reg(11) == n as u64);
    assert(does(fl, a, a4, s) == Then::On(s4));
    assert(ready(s3, a)) by {
        assert forall|r: Reg| #[trigger] slot_at(s3, r) != live_at(s3, a) by {
            assert(slot_at(s2, r) != live_at(s2, a));
        }
    }
    lemma_scratch(s3, a, 10, most);
    let a5 = a4.str(X10, X19, a.at.live);
    lemma_memory(fl, a4, X10, X19, a.at.live, s4);
    let t = s4.stored(at, most);
    lemma_does(fl, a, a4, a5, s);
    assert(a5 == a.raise(n));
    assert(s4.reg(19) == s.reg(19) && s4.reg(20) == s.reg(20));
    assert(does(fl, a, a5, s) == Then::On(t));
    assert forall|r: Reg| #[trigger] slot_at(t, r) != live_at(t, a) by {
        assert(slot_at(s, r) != live_at(s, a));
    }
    assert forall|q: Reg| #[trigger] value(t, a, q) == value(s, a, q) by {
        assert(value(s4, a, q) == value(s3, a, q));
        assert(value(s3, a, q) == value(s2, a, q));
        assert(value(s2, a, q) == value(s1, a, q));
        assert(slot_at(s, q) != live_at(s, a));
    }
}

pub proof fn lemma_raised(fl: Floats, a: A, r: Reg, s: Cpu)
    requires
        ready(s, a),
    ensures
        behind(a, a.raised(r)),
        does(fl, a, a.raised(r), s) matches Then::On(t) && ready(t, a) && (forall|q: Reg| #[trigger]
            value(t, a, q) == value(s, a, q)) && t.reg(19) == s.reg(19) && t.reg(20) == s.reg(20) && t.reg(21) == s.reg(21)
            && t.reg(22) == s.reg(22),
{
    lemma_none(fl, a, s);
    if !a.defer_live {
        lemma_raise(fl, a, (r as u32 + 1) as u32, s);
    }
}

/// A result is put where it lives.
pub proof fn lemma_store_from(fl: Floats, a: A, d: u32, r: Reg, s: Cpu)
    requires
        ready(s, a),
        d < 31,
    ensures
        behind(a, a.store_from(d, r)),
        does(fl, a, a.store_from(d, r), s) matches Then::On(t) && ready(t, a) && leaves(s, t, a, r, s.reg(d)),
{
    let a1 = a.set(d, r);
    lemma_set(fl, a, d, r, s);
    let s1 = put_in(s, a, r, s.reg(d));
    lemma_put_in(s, a, r, s.reg(d));
    assert(ready(s1, a1)) by {
        lemma_same_pins(s1, a, a1);
    }
    lemma_raised(fl, a1, r, s1);
    lemma_does(fl, a, a1, a1.raised(r), s);
    let t = does(fl, a1, a1.raised(r), s1)->On_0;
    lemma_same_pins(t, a1, a);
    assert forall|q: Reg| #[trigger] value(t, a, q) == value(s1, a, q) by {
        assert(value(t, a1, q) == value(s1, a1, q));
        assert(a.pin(q) == a1.pin(q));
    }
}

pub proof fn lemma_store_float_from(fl: Floats, a: A, d: u32, r: Reg, s: Cpu)
    requires
        ready(s, a),
        d < 32,
    ensures
        behind(a, a.store_float_from(d, r)),
        does(fl, a, a.store_float_from(d, r), s) matches Then::On(t) && ready(t, a) && leaves(
            s,
            t,
            a,
            r,
            s.d[d as int],
        ),
{
    let a1 = a.set_float(d, r);
    lemma_set_float(fl, a, d, r, s);
    let s1 = put_in(s, a, r, s.d[d as int]);
    lemma_put_in(s, a, r, s.d[d as int]);
    lemma_same_pins(s1, a, a1);
    lemma_raised(fl, a1, r, s1);
    lemma_does(fl, a, a1, a1.raised(r), s);
    let t = does(fl, a1, a1.raised(r), s1)->On_0;
    lemma_same_pins(t, a1, a);
    assert forall|q: Reg| #[trigger] value(t, a, q) == value(s1, a, q) by {
        assert(value(t, a1, q) == value(s1, a1, q));
        assert(a.pin(q) == a1.pin(q));
    }
}

pub proof fn lemma_same_pins(s: Cpu, a: A, b: A)
    requires
        ready(s, a),
        a.pins == b.pins,
        a.at == b.at,
    ensures
        ready(s, b),
        forall|q: Reg| #[trigger] value(s, b, q) == value(s, a, q),
        forall|q: Reg| #[trigger] b.pin(q) == a.pin(q),
{
    assert forall|q: Reg| #[trigger] b.pin(q) == a.pin(q) by {}
    assert forall|q: Reg|
        match #[trigger] b.pin(q) {
            Some(Loc::X(m)) => 2 <= m <= 8 || 23 <= m <= 28,
            Some(Loc::D(m)) => 16 <= m <= 31,
            None => true,
        } by {
        assert(a.pin(q) == b.pin(q));
    }
    assert forall|q: Reg, r: Reg|
        q != r && #[trigger] b.pin(q) is Some && #[trigger] b.pin(r) is Some implies b.pin(q) != b.pin(r) by {
        assert(a.pin(q) == b.pin(q) && a.pin(r) == b.pin(r));
    }
    assert forall|r: Reg| #[trigger] slot_at(s, r) != live_at(s, b) by {
        assert(slot_at(s, r) != live_at(s, a));
    }
    assert forall|q: Reg| #[trigger] value(s, b, q) == value(s, a, q) by {
        assert(a.pin(q) == b.pin(q));
    }
}

} // verus!
