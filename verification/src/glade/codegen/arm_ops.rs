//! What the code for an operation of the bytecode comes to: laws.

use super::a64::{Fixup, IntOp, Label, Loc, UnaryOp, A, X10, X11, X9};
use super::arm::{
    condition, flags_of_add, flags_of_floats, flags_of_sub, lemma_numbers, lemma_sixes, lemma_three, lemma_twelve,
    signed, truncated, wrap, Cpu, Flags, Floats, Then,
};
use super::arm_laws::{
    behind, does, given, leaves, lemma_branch, lemma_cast, lemma_compare, lemma_does, lemma_fmovs, lemma_imm,
    lemma_memory, lemma_mov_x, lemma_moves, lemma_none, lemma_operand, lemma_put, lemma_put_in, lemma_raised,
    lemma_same_pins, lemma_scratch, lemma_store_float_from, lemma_store_from, lemma_two, lemma_x, live_at, placed,
    put_in, ready, slot_at, value,
};
use super::code::{Cond, FloatOp, Operand, Reg};
use vstd::arithmetic::power2::pow2;
use vstd::prelude::*;

verus! {

/// What integer arithmetic on 64 bits comes to. Sums, differences and products wrap, shifts
/// are by the lowest six bits, and division, which rounds towards zero, is of signed
/// integers and by nothing but zero.
pub open spec fn result(op: IntOp, x: u64, y: u64) -> Option<u64> {
    match op {
        IntOp::Plus => Some(wrap(x + y)),
        IntOp::Minus => Some(wrap(x - y)),
        IntOp::Times => Some(wrap(x * y)),
        IntOp::Shl => Some(wrap(x * pow2((y % 64) as nat))),
        IntOp::Shr => Some(wrap(signed(x) / pow2((y % 64) as nat) as int)),
        IntOp::Ushr => Some((x as int / pow2((y % 64) as nat) as int) as u64),
        IntOp::And => Some(x & y),
        IntOp::Div => if y == 0 {
            None
        } else {
            Some(wrap(truncated(signed(x), signed(y))))
        },
        IntOp::Rem => if y == 0 {
            None
        } else {
            Some(wrap(signed(x) - signed(y) * truncated(signed(x), signed(y))))
        },
    }
}

proof fn lemma_wrap_mod(a: int, b: int, k: int)
    requires
        a == b + k * 0x1_0000_0000_0000_0000,
    ensures
        wrap(a) == wrap(b),
{
    vstd::arithmetic::div_mod::lemma_mod_multiples_vanish(k, b, 0x1_0000_0000_0000_0000);
}

/// A multiple of 64 bits away.
proof fn lemma_wrapped(x: int) -> (k: int)
    ensures
        wrap(x) == x + k * 0x1_0000_0000_0000_0000,
{
    let big = 0x1_0000_0000_0000_0000int;
    vstd::arithmetic::div_mod::lemma_fundamental_div_mod(x, big);
    -(x / big)
}

proof fn lemma_signed(x: u64) -> (k: int)
    ensures
        x == signed(x) + k * 0x1_0000_0000_0000_0000,
{
    if x < 0x8000_0000_0000_0000 {
        0
    } else {
        1
    }
}

/// What is left of a division is the same wrapped or not.
proof fn lemma_remainder(x: u64, y: u64)
    requires
        y != 0,
    ensures
        wrap(x - wrap(truncated(signed(x), signed(y))) * y) == result(IntOp::Rem, x, y)->0,
{
    let big = 0x1_0000_0000_0000_0000int;
    let (sx, sy) = (signed(x), signed(y));
    let q = truncated(sx, sy);
    let kx = lemma_signed(x);
    let ky = lemma_signed(y);
    let kq = lemma_wrapped(q);
    let w = wrap(q) as int;
    let k = kx - ky * q - kq * y;
    assert(x - w * y == (sx - sy * q) + k * big) by (nonlinear_arith)
        requires
            x == sx + kx * big,
            y == sy + ky * big,
            w == q + kq * big,
            k == kx - ky * q - kq * y,
    ;
    lemma_wrap_mod(x - w * y, sx - sy * q, k);
}

proof fn lemma_msub(m: u32, n: u32, d: u32)
    requires
        m < 31,
        n < 31,
        d < 31,
    ensures
        ({
            let w = 0x9B00_8000u32 | m << 16 | n << 10 | X11 << 5 | d;
            &&& w >> 21 == 0x4D8
            &&& w & 31 == d
            &&& (w >> 5) & 31 == 11
            &&& (w >> 16) & 31 == m
            &&& (w >> 10) & 63 == n + 32
        }),
        ({
            let w = 0xB400_0000u32 | m;
            0x5A0 <= w >> 21 <= 0x5A7 && w & 31 == m
        }),
{
    assert(m < 31 && n < 31 && d < 31 ==> (0x9B00_8000u32 | m << 16 | n << 10 | 11u32 << 5 | d) >> 21 == 0x4D8 && (
    0x9B00_8000u32 | m << 16 | n << 10 | 11u32 << 5 | d) & 31 == d && ((0x9B00_8000u32 | m << 16 | n << 10 | 11u32 << 5 | d)
        >> 5) & 31 == 11 && ((0x9B00_8000u32 | m << 16 | n << 10 | 11u32 << 5 | d) >> 16) & 31 == m && ((0x9B00_8000u32 | m
        << 16 | n << 10 | 11u32 << 5 | d) >> 10) & 63 == (n | 32)) by (bit_vector);
    assert(n < 31 ==> (n | 32) as int == n + 32) by (bit_vector);
    assert(m < 31 ==> (0xB400_0000u32 | m) >> 21 == 0x5A0 && (0xB400_0000u32 | m) & 31 == m) by (bit_vector);
}

/// The instructions for one operation on two registers.
proof fn lemma_int_word(fl: Floats, a: A, op: IntOp, d: u32, n: u32, m: u32, zero: Label, s: Cpu)
    requires
        s.well(),
        d < 31,
        n < 31,
        m < 31,
        n != 11,
        m != 11,
    ensures
        behind(a, a.int_word(op, d, n, m, zero)),
        match result(op, s.reg(n), s.reg(m)) {
            Some(v) => does(fl, a, a.int_word(op, d, n, m, zero), s) == Then::On(
                if op == IntOp::Rem {
                    s.set(11, wrap(truncated(signed(s.reg(n)), signed(s.reg(m))))).set(d, v)
                } else {
                    s.set(d, v)
                },
            ),
            None => does(fl, a, a.int_word(op, d, n, m, zero), s) == Then::Away(s),
        },
{
    lemma_numbers();
    match op {
        IntOp::Plus => {
            lemma_three(0x8B00_0000, m, n, d);
            lemma_put(fl, a, 0x8B00_0000 | m << 16 | n << 5 | d, s);
            vstd::arithmetic::power2::lemma2_to64();
        },
        IntOp::Minus => {
            lemma_three(0xCB00_0000, m, n, d);
            lemma_put(fl, a, 0xCB00_0000 | m << 16 | n << 5 | d, s);
        },
        IntOp::Times => {
            lemma_three(0x9B00_7C00, m, n, d);
            lemma_put(fl, a, 0x9B00_7C00 | m << 16 | n << 5 | d, s);
        },
        IntOp::Shl => {
            lemma_three(0x9AC0_2000, m, n, d);
            lemma_put(fl, a, 0x9AC0_2000 | m << 16 | n << 5 | d, s);
        },
        IntOp::Shr => {
            lemma_three(0x9AC0_2800, m, n, d);
            lemma_put(fl, a, 0x9AC0_2800 | m << 16 | n << 5 | d, s);
        },
        IntOp::Ushr => {
            lemma_three(0x9AC0_2400, m, n, d);
            lemma_put(fl, a, 0x9AC0_2400 | m << 16 | n << 5 | d, s);
        },
        IntOp::And => {
            lemma_three(0x8A00_0000, m, n, d);
            lemma_put(fl, a, 0x8A00_0000 | m << 16 | n << 5 | d, s);
        },
        IntOp::Div => {
            lemma_msub(m, n, d);
            let a1 = a.branch(zero, Fixup::Imm19, 0xB400_0000 | m);
            lemma_branch(fl, a, zero, Fixup::Imm19, 0xB400_0000 | m, s);
            lemma_three(0x9AC0_0C00, m, n, d);
            lemma_put(fl, a1, 0x9AC0_0C00 | m << 16 | n << 5 | d, s);
            lemma_does(fl, a, a1, a1.put(0x9AC0_0C00 | m << 16 | n << 5 | d), s);
        },
        IntOp::Rem => {
            lemma_msub(m, n, d);
            let a1 = a.branch(zero, Fixup::Imm19, 0xB400_0000 | m);
            lemma_branch(fl, a, zero, Fixup::Imm19, 0xB400_0000 | m, s);
            let w1 = 0x9AC0_0C00 | m << 16 | n << 5 | X11;
            lemma_three(0x9AC0_0C00, m, n, 11);
            let a2 = a1.put(w1);
            lemma_put(fl, a1, w1, s);
            lemma_does(fl, a, a1, a2, s);
            let w2 = 0x9B00_8000 | m << 16 | n << 10 | X11 << 5 | d;
            let a3 = a2.put(w2);
            let (x, y) = (s.reg(n), s.reg(m));
            if y != 0 {
                let q = wrap(truncated(signed(x), signed(y)));
                let s1 = s.set(11, q);
                lemma_put(fl, a2, w2, s1);
                lemma_does(fl, a, a2, a3, s);
                lemma_remainder(x, y);
                assert(s1.reg(n) == x && s1.reg(m) == y && s1.reg(11) == q);
                assert(y * q == q * y) by (nonlinear_arith);
            } else {
                lemma_put(fl, a2, w2, s);
                lemma_does(fl, a, a2, a3, s);
            }
        },
    }
}

proof fn lemma_short(a: A, c: Operand)
    requires
        a.short_of(c) is Some,
    ensures
        ({
            let (k, negative) = a.short_of(c)->0;
            &&& k < 4096
            &&& c is Imm
            &&& c->Imm_0 == if negative {
                -k
            } else {
                k as int
            }
        }),
{
}

proof fn lemma_bits(op: IntOp, k: u32)
    requires
        1 <= k < 64,
    ensures
        op == IntOp::Shl ==> A::shift_word(op, k) == 0xD340_0000u32 | ((64 - k) as u32) << 16 | ((63 - k) as u32) << 10,
        op == IntOp::Shr ==> A::shift_word(op, k) == 0x9340_0000u32 | k << 16 | 63u32 << 10,
        op == IntOp::Ushr ==> A::shift_word(op, k) == 0xD340_0000u32 | k << 16 | 63u32 << 10,
{
}

proof fn lemma_shift(fl: Floats, a: A, op: IntOp, k: u32, n: u32, d: u32, s: Cpu)
    requires
        A::is_shift(op),
        1 <= k < 64,
        n < 31,
        d < 31,
    ensures
        behind(a, a.put(A::shift_word(op, k) | n << 5 | d)),
        does(fl, a, a.put(A::shift_word(op, k) | n << 5 | d), s) == Then::On(
            s.set(d, result(op, s.reg(n), k as u64)->0),
        ),
{
    lemma_numbers();
    lemma_bits(op, k);
    let w = A::shift_word(op, k) | n << 5 | d;
    lemma_put(fl, a, w, s);
    match op {
        IntOp::Shl => {
            lemma_sixes(0xD340_0000, (64 - k) as u32, (63 - k) as u32, n, d);
        },
        IntOp::Shr => {
            lemma_sixes(0x9340_0000, k, 63, n, d);
        },
        _ => {
            lemma_sixes(0xD340_0000, k, 63, n, d);
        },
    }
}

proof fn lemma_add_imm(fl: Floats, a: A, base: u32, k: u32, n: u32, d: u32, s: Cpu)
    requires
        base == 0x9100_0000 || base == 0xD100_0000,
        k < 4096,
        n < 31,
        d < 31,
    ensures
        behind(a, a.put(base | k << 10 | n << 5 | d)),
        does(fl, a, a.put(base | k << 10 | n << 5 | d), s) == Then::On(
            s.set(
                d,
                if base == 0x9100_0000 {
                    wrap(s.reg(n) + k)
                } else {
                    wrap(s.reg(n) - k)
                },
            ),
        ),
{
    lemma_numbers();
    lemma_twelve(base, k, n, d);
    lemma_put(fl, a, base | k << 10 | n << 5 | d, s);
}

/// The first operand is fetched, and nothing else has changed.
pub open spec fn fetched(fl: Floats, code: A, b: Reg, s: Cpu, s1: Cpu) -> bool {
    let a1 = code.x(b, X9);
    let n = code.x_of(b, X9);
    &&& behind(code, a1)
    &&& does(fl, code, a1, s) == Then::On(s1)
    &&& n < 31
    &&& n != 10
    &&& n != 11
    &&& s1.reg(n) == value(s, code, b)
    &&& ready(s1, code)
    &&& ready(s1, a1)
    &&& forall|q: Reg| #[trigger] value(s1, code, q) == value(s, code, q)
    &&& forall|q: Reg| #[trigger] value(s1, a1, q) == value(s, code, q)
    &&& forall|q: Reg| #[trigger] a1.pin(q) == code.pin(q)
    &&& s1.reg(19) == s.reg(19) && s1.reg(20) == s.reg(20) && s1.reg(21) == s.reg(21) && s1.reg(22) == s.reg(22)
}

proof fn lemma_fetched(fl: Floats, code: A, b: Reg, s: Cpu) -> (s1: Cpu)
    requires
        ready(s, code),
    ensures
        fetched(fl, code, b, s, s1),
{
    let n = code.x_of(b, X9);
    let a1 = code.x(b, X9);
    let x = value(s, code, b);
    lemma_x(fl, code, b, X9, s);
    let s1 = if n == 9 {
        s.set(9, x)
    } else {
        s
    };
    lemma_scratch(s, code, 9, x);
    lemma_same_pins(s1, code, a1);
    assert forall|q: Reg| #[trigger] value(s1, a1, q) == value(s, code, q) by {
        assert(value(s1, code, q) == value(s, code, q));
    }
    s1
}

proof fn lemma_dest(a: A, r: Reg)
    requires
        placed(a),
    ensures
        a.x_of(r, X9) < 31,
        a.x_of(r, X9) != 10,
        a.x_of(r, X9) != 11,
{
    assert(match a.pin(r) {
        Some(Loc::X(m)) => 2 <= m <= 8 || 23 <= m <= 28,
        Some(Loc::D(m)) => 16 <= m <= 31,
        None => true,
    });
}

#[verifier::spinoff_prover]
proof fn lemma_int_short(fl: Floats, code: A, op: IntOp, a: Reg, b: Reg, c: Operand, zero: Label, s: Cpu, s1: Cpu)
    requires
        ready(s, code),
        fetched(fl, code, b, s, s1),
        op == IntOp::Plus || op == IntOp::Minus,
        code.x(b, X9).short_of(c) is Some,
    ensures
        does(fl, code, code.int_to(op, a, b, c, zero), s) matches Then::On(t) && leaves(
            s,
            t,
            code,
            a,
            result(op, value(s, code, b), given(s, code, c))->0,
        ),
{
    let n = code.x_of(b, X9);
    let a1 = code.x(b, X9);
    let x = value(s, code, b);
    let y = given(s, code, c);
    let d = a1.x_of(a, X9);
    assert(a1.pin(a) == code.pin(a));
    lemma_dest(code, a);
    let (k, negative) = a1.short_of(c)->0;
    lemma_short(a1, c);
    let base: u32 = if (op == IntOp::Minus) != negative {
        0xD100_0000
    } else {
        0x9100_0000
    };
    let a2 = a1.put(base | k << 10 | n << 5 | d);
    lemma_add_imm(fl, a1, base, k, n, d, s1);
    let v = result(op, x, y)->0;
    let i = lemma_wrapped(c->Imm_0 as int);
    if op == IntOp::Plus {
        lemma_wrap_mod(x + y, x + c->Imm_0, i);
    } else {
        assert(x - y == (x - c->Imm_0) + (-i) * 0x1_0000_0000_0000_0000);
        lemma_wrap_mod(x - y, x - c->Imm_0, -i);
    }
    lemma_ends(fl, code, a1, a2, d, a, v, s, s1, s1.set(d, v));
}

#[verifier::spinoff_prover]
proof fn lemma_int_shift(fl: Floats, code: A, op: IntOp, a: Reg, b: Reg, c: Operand, zero: Label, s: Cpu, s1: Cpu)
    requires
        ready(s, code),
        fetched(fl, code, b, s, s1),
        A::is_shift(op),
        c is Imm && 1 <= c->Imm_0 < 64,
    ensures
        does(fl, code, code.int_to(op, a, b, c, zero), s) matches Then::On(t) && leaves(
            s,
            t,
            code,
            a,
            result(op, value(s, code, b), given(s, code, c))->0,
        ),
{
    let n = code.x_of(b, X9);
    let a1 = code.x(b, X9);
    let x = value(s, code, b);
    let y = given(s, code, c);
    let d = a1.x_of(a, X9);
    assert(a1.pin(a) == code.pin(a));
    lemma_dest(code, a);
    let k = c->Imm_0 as u32;
    let a2 = a1.put(A::shift_word(op, k) | n << 5 | d);
    lemma_shift(fl, a1, op, k, n, d, s1);
    let v = result(op, x, y)->0;
    assert(y == k);
    lemma_ends(fl, code, a1, a2, d, a, v, s, s1, s1.set(d, v));
}

#[verifier::spinoff_prover]
#[verifier::rlimit(60)]
proof fn lemma_int_regs(fl: Floats, code: A, op: IntOp, a: Reg, b: Reg, c: Operand, zero: Label, s: Cpu, s1: Cpu)
    requires
        ready(s, code),
        fetched(fl, code, b, s, s1),
    ensures
        ({
            let a1 = code.x(b, X9);
            let d = a1.x_of(a, X9);
            let out = a1.operand(c, X10).int_word(op, d, code.x_of(b, X9), a1.operand_of(c, X10), zero).store_from(d, a);
            match result(op, value(s, code, b), given(s, code, c)) {
                Some(v) => does(fl, code, out, s) matches Then::On(t) && leaves(s, t, code, a, v),
                None => does(fl, code, out, s) is Away,
            }
        }),
{
    let n = code.x_of(b, X9);
    let a1 = code.x(b, X9);
    let x = value(s, code, b);
    let y = given(s, code, c);
    let d = a1.x_of(a, X9);
    assert(a1.pin(a) == code.pin(a));
    lemma_dest(code, a);
    let m = a1.operand_of(c, X10);
    let a2 = a1.operand(c, X10);
    lemma_operand(fl, a1, c, s1);
    assert(given(s1, a1, c) == y) by {
        if let Operand::Reg(r) = c {
            assert(value(s1, a1, r) == value(s, code, r));
        }
    }
    let s2 = if m == 10 {
        s1.set(10, y)
    } else {
        s1
    };
    lemma_scratch(s1, code, 10, y);
    lemma_does(fl, code, a1, a2, s);
    assert(s2.reg(n) == x);
    assert(s2.reg(m) == y);
    assert forall|q: Reg| #[trigger] value(s2, code, q) == value(s, code, q) by {
        assert(value(s1, code, q) == value(s, code, q));
    }
    let a3 = a2.int_word(op, d, n, m, zero);
    lemma_int_word(fl, a2, op, d, n, m, zero, s2);
    match result(op, x, y) {
        Some(v) => {
            let q = wrap(truncated(signed(x), signed(y)));
            let s3 = if op == IntOp::Rem {
                s2.set(11, q)
            } else {
                s2
            };
            lemma_ends(fl, code, a2, a3, d, a, v, s, s2, s3.set(d, v));
        },
        None => {
            lemma_does(fl, code, a2, a3, s);
            lemma_same_pins(s2, code, a3);
            lemma_store_behind(fl, a3, d, a, s2);
            lemma_does(fl, code, a3, a3.store_from(d, a), s);
        },
    }
}

/// `r[a] = r[b] op c`: run from registers holding `x` and `y`, the code leaves `x op y` in the
/// register `a` is in, and every other register as it was. A division by zero goes away
/// instead.
pub proof fn integer_code_computes(
    fl: Floats,
    code: A,
    op: IntOp,
    a: Reg,
    b: Reg,
    c: Operand,
    zero: Label,
    s: Cpu,
)
    requires
        ready(s, code),
    ensures
        match result(op, value(s, code, b), given(s, code, c)) {
            Some(v) => does(fl, code, code.int_to(op, a, b, c, zero), s) matches Then::On(t) && leaves(s, t, code, a, v),
            None => does(fl, code, code.int_to(op, a, b, c, zero), s) is Away,
        },
{
    let s1 = lemma_fetched(fl, code, b, s);
    if (op == IntOp::Plus || op == IntOp::Minus) && code.x(b, X9).short_of(c) is Some {
        lemma_int_short(fl, code, op, a, b, c, zero, s, s1);
    } else if A::is_shift(op) && c is Imm && 1 <= c->Imm_0 < 64 {
        lemma_int_shift(fl, code, op, a, b, c, zero, s, s1);
    } else {
        lemma_int_regs(fl, code, op, a, b, c, zero, s, s1);
    }
}

proof fn lemma_store_behind(fl: Floats, a: A, d: u32, r: Reg, s: Cpu)
    requires
        ready(s, a),
        d < 31,
    ensures
        behind(a, a.store_from(d, r)),
{
    lemma_store_from(fl, a, d, r, s);
}

/// The end of an operation: its result is in `d`, which is a scratch register or where `r`
/// lives, and is stored.
proof fn lemma_ends(fl: Floats, code: A, a1: A, a2: A, d: u32, r: Reg, v: u64, s: Cpu, s1: Cpu, s2: Cpu)
    requires
        ready(s, code),
        behind(code, a1),
        behind(a1, a2),
        does(fl, code, a1, s) == Then::On(s1),
        does(fl, a1, a2, s1) == Then::On(s2),
        ready(s1, code),
        forall|q: Reg| #[trigger] value(s1, code, q) == value(s, code, q),
        s1.reg(19) == s.reg(19) && s1.reg(20) == s.reg(20) && s1.reg(21) == s.reg(21) && s1.reg(22) == s.reg(22),
        d == code.x_of(r, X9),
        s2 == s1.set(d, v) || exists|q: u64| s2 == #[trigger] s1.set(11, q).set(d, v),
    ensures
        behind(code, a2.store_from(d, r)),
        does(fl, code, a2.store_from(d, r), s) matches Then::On(t) && leaves(s, t, code, r, v),
{
    lemma_does(fl, code, a1, a2, s);
    assert(match code.pin(r) {
        Some(Loc::X(m)) => 2 <= m <= 8 || 23 <= m <= 28,
        Some(Loc::D(m)) => 16 <= m <= 31,
        None => true,
    });
    let mid = if s2 == s1.set(d, v) {
        s1
    } else {
        let q = choose|q: u64| s2 == #[trigger] s1.set(11, q).set(d, v);
        s1.set(11, q)
    };
    if s2 != s1.set(d, v) {
        let q = choose|q: u64| s2 == #[trigger] s1.set(11, q).set(d, v);
        lemma_scratch(s1, code, 11, q);
    }
    assert(s2 == mid.set(d, v));
    assert(ready(mid, code));
    assert forall|q: Reg| #[trigger] value(mid, code, q) == value(s, code, q) by {
        assert(value(s1, code, q) == value(s, code, q));
    }
    if d == 9 {
        lemma_scratch(mid, code, 9, v);
    } else {
        assert(code.pin(r) == Some(Loc::X(d)));
        assert(put_in(mid, code, r, v) == s2);
        lemma_put_in(mid, code, r, v);
    }
    assert(ready(s2, code));
    lemma_same_pins(s2, code, a2);
    lemma_store_from(fl, a2, d, r, s2);
    lemma_does(fl, code, a2, a2.store_from(d, r), s);
    let t = does(fl, a2, a2.store_from(d, r), s2)->On_0;
    lemma_same_pins(t, a2, code);
    assert(s2.reg(d) == v);
    assert forall|q: Reg| q != r implies #[trigger] value(t, code, q) == value(s, code, q) by {
        assert(value(t, a2, q) == value(s2, a2, q));
        assert(value(s2, code, q) == value(mid, code, q));
    }
}

/// Subtraction is not addition: what they leave differs but where the second operand is zero
/// or half of all there are.
pub proof fn a_difference_is_no_sum(x: u64, y: u64)
    requires
        y != 0,
        y != 0x8000_0000_0000_0000,
    ensures
        result(IntOp::Minus, x, y) != result(IntOp::Plus, x, y),
{
    let big = 0x1_0000_0000_0000_0000int;
    let i = lemma_wrapped(x - y);
    let j = lemma_wrapped(x + y);
    if wrap(x - y) == wrap(x + y) {
        assert(2 * y == (i - j) * big);
        assert(i - j == 0 || i - j == 1 || i - j >= 2 || i - j < 0);
    }
}

// --- comparisons ---

/// Whether a comparison of two signed integers holds.
pub open spec fn holds(c: Cond, x: int, y: int) -> bool {
    match c {
        Cond::Eq => x == y,
        Cond::Ne => x != y,
        Cond::Lt => x < y,
        Cond::Le => x <= y,
        Cond::Gt => x > y,
        Cond::Ge => x >= y,
    }
}

proof fn lemma_flags_sub(c: Cond, x: u64, y: u64)
    ensures
        condition(flags_of_sub(x, y), A::int_cond(c)) == holds(c, signed(x), signed(y)),
{
    let big = 0x1_0000_0000_0000_0000int;
    let i = lemma_wrapped(x - y);
    let r = wrap(x - y) as int;
    assert(r == x - y || r == x - y + big) by {
        assert(0 <= r < big);
        assert(r == x - y + i * big);
        assert(i == 0 || i == 1 || i >= 2 || i <= -1);
    }
}

proof fn lemma_flags_add(c: Cond, x: u64, k: u32)
    requires
        1 <= k < 4096,
    ensures
        condition(flags_of_add(x, k as u64), A::int_cond(c)) == holds(c, signed(x), -(k as int)),
{
    let big = 0x1_0000_0000_0000_0000int;
    let i = lemma_wrapped(x + k);
    let r = wrap(x + k) as int;
    assert(r == x + k || r == x + k - big) by {
        assert(0 <= r < big);
        assert(r == x + k + i * big);
        assert(i == 0 || i == -1 || i >= 1 || i <= -2);
    }
}

proof fn lemma_test_imm(n: u32, k: u32)
    requires
        n < 31,
        k < 4096,
    ensures
        ({
            let w = 0xB100_001Fu32 | k << 10 | n << 5;
            &&& w >> 21 == 0x588 || w >> 21 == 0x589
            &&& w & 31 == 31
            &&& (w >> 5) & 31 == n
            &&& (w >> 10) & 4095 == k
        }),
        ({
            let w = 0xF100_001Fu32 | k << 10 | n << 5;
            &&& w >> 21 == 0x788 || w >> 21 == 0x789
            &&& w & 31 == 31
            &&& (w >> 5) & 31 == n
            &&& (w >> 10) & 4095 == k
        }),
{
    assert(n < 31 && k < 4096 ==> ((0xB100_001Fu32 | k << 10 | n << 5) >> 21 == 0x588 || (0xB100_001Fu32 | k << 10 | n << 5)
        >> 21 == 0x589) && (0xB100_001Fu32 | k << 10 | n << 5) & 31 == 31 && ((0xB100_001Fu32 | k << 10 | n << 5) >> 5) & 31
        == n && ((0xB100_001Fu32 | k << 10 | n << 5) >> 10) & 4095 == k && ((0xF100_001Fu32 | k << 10 | n << 5) >> 21 == 0x788
        || (0xF100_001Fu32 | k << 10 | n << 5) >> 21 == 0x789) && (0xF100_001Fu32 | k << 10 | n << 5) & 31 == 31 && ((
    0xF100_001Fu32 | k << 10 | n << 5) >> 5) & 31 == n && ((0xF100_001Fu32 | k << 10 | n << 5) >> 10) & 4095 == k)
        by (bit_vector);
}

/// A register compared with an operand: every condition then says what it says of the two.
proof fn lemma_against(fl: Floats, a: A, n: u32, c: Operand, s: Cpu)
    requires
        ready(s, a),
        n < 31,
        n != 10,
    ensures
        behind(a, a.against(n, c)),
        does(fl, a, a.against(n, c), s) matches Then::On(t) && {
            &&& ready(t, a)
            &&& forall|q: Reg| #[trigger] value(t, a, q) == value(s, a, q)
            &&& t.reg(19) == s.reg(19) && t.reg(20) == s.reg(20) && t.reg(21) == s.reg(21) && t.reg(22) == s.reg(22)
            &&& forall|k: Cond|
                #![trigger holds(k, signed(s.reg(n)), signed(given(s, a, c)))]
                condition(t.flags, A::int_cond(k)) == holds(k, signed(s.reg(n)), signed(given(s, a, c)))
        },
{
    let x = s.reg(n);
    let y = given(s, a, c);
    match a.short_of(c) {
        Some((k, negative)) => {
            lemma_short(a, c);
            lemma_test_imm(n, k);
            lemma_put(fl, a, 0xB100_001F | k << 10 | n << 5, s);
            lemma_put(fl, a, 0xF100_001F | k << 10 | n << 5, s);
            let f = if negative {
                flags_of_add(x, k as u64)
            } else {
                flags_of_sub(x, k as u64)
            };
            let t = s.compared(f);
            lemma_compared(s, a, f);
            assert(signed(y) == c->Imm_0) by {
                lemma_cast(c->Imm_0);
            }
            assert forall|q: Cond|
                #![trigger holds(q, signed(x), signed(y))]
                condition(t.flags, A::int_cond(q)) == holds(q, signed(x), signed(y)) by {
                if negative {
                    lemma_flags_add(q, x, k);
                } else {
                    lemma_flags_sub(q, x, k as u64);
                }
            }
        },
        None => {
            let m = a.operand_of(c, X10);
            let a1 = a.operand(c, X10);
            lemma_operand(fl, a, c, s);
            let s1 = if m == 10 {
                s.set(10, y)
            } else {
                s
            };
            lemma_scratch(s, a, 10, y);
            lemma_compare(fl, a1, n, m, s1);
            lemma_does(fl, a, a1, a1.compare(n, m), s);
            let f = flags_of_sub(s1.reg(n), s1.reg(m));
            let t = s1.compared(f);
            lemma_compared(s1, a, f);
            assert forall|q: Cond|
                #![trigger holds(q, signed(x), signed(y))]
                condition(t.flags, A::int_cond(q)) == holds(q, signed(x), signed(y)) by {
                lemma_flags_sub(q, x, y);
            }
        },
    }
}

proof fn lemma_compared(s: Cpu, a: A, f: Flags)
    requires
        ready(s, a),
    ensures
        ready(s.compared(f), a),
        forall|q: Reg| #[trigger] value(s.compared(f), a, q) == value(s, a, q),
{
    assert forall|r: Reg| #[trigger] slot_at(s.compared(f), r) != live_at(s.compared(f), a) by {
        assert(slot_at(s, r) != live_at(s, a));
    }
}

proof fn lemma_conds(cond: u32, d: u32)
    requires
        cond < 14,
        d < 31,
    ensures
        ({
            let w = 0x9A9F_07E0u32 | (cond ^ 1) << 12 | d;
            &&& w >> 21 == 0x4D4
            &&& w & 31 == d
            &&& (w >> 5) & 31 == 31
            &&& (w >> 16) & 31 == 31
            &&& (w >> 10) & 63 == 4 * (cond ^ 1) + 1
        }),
        cond ^ 1 < 14,
        cond ^ 1 == if cond % 2 == 0 {
            cond + 1
        } else {
            cond - 1
        },
        ({
            let w = 0x5400_0000u32 | (cond ^ 1);
            0x2A0 <= w >> 21 <= 0x2A7 && w & 31 == cond ^ 1
        }),
{
    assert(cond < 14 && d < 31 ==> (0x9A9F_07E0u32 | (cond ^ 1) << 12 | d) >> 21 == 0x4D4 && (0x9A9F_07E0u32 | (cond ^ 1)
        << 12 | d) & 31 == d && ((0x9A9F_07E0u32 | (cond ^ 1) << 12 | d) >> 5) & 31 == 31 && ((0x9A9F_07E0u32 | (cond ^ 1)
        << 12 | d) >> 16) & 31 == 31 && ((0x9A9F_07E0u32 | (cond ^ 1) << 12 | d) >> 10) & 63 == ((cond ^ 1) << 2 | 1)
        && cond ^ 1 < 14 && (0x5400_0000u32 | (cond ^ 1)) >> 21 == 0x2A0 && (0x5400_0000u32 | (cond ^ 1)) & 31 == cond ^ 1)
        by (bit_vector);
    let k = cond ^ 1;
    assert(k < 14 ==> (k << 2 | 1) as int == 4 * k + 1) by (bit_vector);
    assert(cond < 14 ==> (cond ^ 1) as int == if cond % 2 == 0 {
        cond + 1
    } else {
        cond - 1
    }) by (bit_vector);
}

/// The other of a pair of conditions holds where the one does not.
proof fn lemma_other(f: Flags, cond: u32)
    requires
        cond < 14,
    ensures
        condition(f, cond ^ 1) == !condition(f, cond),
{
    lemma_conds(cond, 0);
}

proof fn lemma_cset(fl: Floats, a: A, d: u32, cond: u32, s: Cpu)
    requires
        d < 31,
        cond < 14,
    ensures
        behind(a, a.cset(d, cond)),
        does(fl, a, a.cset(d, cond), s) == Then::On(
            s.set(
                d,
                if condition(s.flags, cond) {
                    1
                } else {
                    0
                },
            ),
        ),
{
    lemma_conds(cond, d);
    lemma_other(s.flags, cond);
    lemma_put(fl, a, 0x9A9F_07E0 | (cond ^ 1) << 12 | d, s);
}

/// `r[a] = r[b] cond c`, of integers: the code leaves 1 where the comparison holds of the
/// signed values and 0 where it does not.
#[verifier::spinoff_prover]
pub proof fn integer_tests_say_whether_they_hold(fl: Floats, code: A, cond: Cond, a: Reg, b: Reg, c: Operand, s: Cpu)
    requires
        ready(s, code),
    ensures
        does(fl, code, code.test_int(cond, a, b, c), s) matches Then::On(t) && leaves(
            s,
            t,
            code,
            a,
            if holds(cond, signed(value(s, code, b)), signed(given(s, code, c))) {
                1
            } else {
                0
            },
        ),
{
    let n = code.x_of(b, X9);
    let a1 = code.x(b, X9);
    let x = value(s, code, b);
    lemma_x(fl, code, b, X9, s);
    let s1 = if n == 9 {
        s.set(9, x)
    } else {
        s
    };
    lemma_scratch(s, code, 9, x);
    lemma_same_pins(s1, code, a1);
    assert(given(s1, a1, c) == given(s, code, c)) by {
        if let Operand::Reg(r) = c {
            assert(value(s1, a1, r) == value(s, code, r));
        }
    }
    let a2 = a1.against(n, c);
    lemma_against(fl, a1, n, c, s1);
    lemma_does(fl, code, a1, a2, s);
    let s2 = does(fl, a1, a2, s1)->On_0;
    lemma_same_pins(s2, a1, code);
    assert forall|q: Reg| #[trigger] value(s2, code, q) == value(s, code, q) by {
        assert(value(s2, a1, q) == value(s1, a1, q));
        assert(value(s1, code, q) == value(s, code, q));
    }
    let yes = holds(cond, signed(x), signed(given(s, code, c)));
    assert(condition(s2.flags, A::int_cond(cond)) == yes);
    let d = a2.x_of(a, X9);
    lemma_same_pins(s2, code, a2);
    lemma_x(fl, a2, a, X9, s2);
    let v: u64 = if yes {
        1
    } else {
        0
    };
    let a3 = a2.cset(d, A::int_cond(cond));
    lemma_cset(fl, a2, d, A::int_cond(cond), s2);
    lemma_ends(fl, code, a2, a3, d, a, v, s, s2, s2.set(d, v));
}

/// To `to` unless `r[x]` and `y` compare as said: the code goes away exactly where the
/// comparison does not hold of the signed values.
pub proof fn integer_branches_go_where_the_test_fails(fl: Floats, code: A, cond: Cond, x: Reg, y: Operand, to: Label, s: Cpu)
    requires
        ready(s, code),
    ensures
        holds(cond, signed(value(s, code, x)), signed(given(s, code, y))) ==> does(
            fl,
            code,
            code.branch_int(cond, x, y, to),
            s,
        ) is On,
        !holds(cond, signed(value(s, code, x)), signed(given(s, code, y))) ==> does(
            fl,
            code,
            code.branch_int(cond, x, y, to),
            s,
        ) is Away,
        code.branch_int(cond, x, y, to).fixups.last().1 == to,
{
    let n = code.x_of(x, X9);
    let a1 = code.x(x, X9);
    let v = value(s, code, x);
    lemma_x(fl, code, x, X9, s);
    let s1 = if n == 9 {
        s.set(9, v)
    } else {
        s
    };
    lemma_scratch(s, code, 9, v);
    lemma_same_pins(s1, code, a1);
    assert(given(s1, a1, y) == given(s, code, y)) by {
        if let Operand::Reg(r) = y {
            assert(value(s1, a1, r) == value(s, code, r));
        }
    }
    let a2 = a1.against(n, y);
    lemma_against(fl, a1, n, y, s1);
    lemma_does(fl, code, a1, a2, s);
    let s2 = does(fl, a1, a2, s1)->On_0;
    let yes = holds(cond, signed(v), signed(given(s, code, y)));
    assert(condition(s2.flags, A::int_cond(cond)) == yes);
    let k = A::int_cond(cond);
    lemma_conds(k, 0);
    lemma_other(s2.flags, k);
    let a3 = a2.b_cond(k ^ 1, to);
    lemma_branch(fl, a2, to, Fixup::Imm19, 0x5400_0000 | (k ^ 1), s2);
    lemma_does(fl, code, a2, a3, s);
}

/// To `to` where `r[x]` is zero.
pub proof fn zero_branches_go_where_it_is_zero(fl: Floats, code: A, x: Reg, to: Label, s: Cpu)
    requires
        ready(s, code),
    ensures
        value(s, code, x) == 0 ==> does(fl, code, code.branch_zero(x, to), s) is Away,
        value(s, code, x) != 0 ==> does(fl, code, code.branch_zero(x, to), s) is On,
{
    let n = code.x_of(x, X9);
    let a1 = code.x(x, X9);
    lemma_x(fl, code, x, X9, s);
    let s1 = does(fl, code, a1, s)->On_0;
    lemma_msub(n, 0, 0);
    lemma_branch(fl, a1, to, Fixup::Imm19, 0xB400_0000 | n, s1);
    lemma_does(fl, code, a1, a1.branch(to, Fixup::Imm19, 0xB400_0000 | n), s);
}

// --- moves and constants ---

/// `r[a] = w`.
pub proof fn a_constant_is_put_in_its_register(fl: Floats, code: A, a: Reg, w: u64, s: Cpu)
    requires
        ready(s, code),
    ensures
        does(fl, code, code.word(a, w), s) matches Then::On(t) && leaves(s, t, code, a, w),
{
    let d = code.x_of(a, X9);
    lemma_x(fl, code, a, X9, s);
    lemma_none(fl, code, s);
    lemma_imm(fl, code, d, w, s);
    lemma_ends(fl, code, code, code.imm(d, w), d, a, w, s, s, s.set(d, w));
}

// --- floats ---

/// What float arithmetic comes to.
pub open spec fn float_result(fl: Floats, op: FloatOp, x: u64, y: u64) -> u64 {
    match op {
        FloatOp::Add => (fl.sum)(x, y),
        FloatOp::Sub => (fl.difference)(x, y),
        FloatOp::Mul => (fl.product)(x, y),
        FloatOp::Div => (fl.quotient)(x, y),
    }
}

/// The lowest float registers are nobody's.
proof fn lemma_scratch_d(s: Cpu, a: A, t: u32, v: u64)
    requires
        ready(s, a),
        t < 16,
    ensures
        ready(s.set_d(t, v), a),
        forall|q: Reg| #[trigger] value(s.set_d(t, v), a, q) == value(s, a, q),
        s.set_d(t, v).d[t as int] == v,
        forall|r: int| 0 <= r < 32 && r != t ==> #[trigger] s.set_d(t, v).d[r] == s.d[r],
{
    let u = s.set_d(t, v);
    assert forall|r: Reg| #[trigger] slot_at(u, r) != live_at(u, a) by {
        assert(slot_at(s, r) != live_at(s, a));
    }
    assert forall|q: Reg| #[trigger] value(u, a, q) == value(s, a, q) by {
        assert(match a.pin(q) {
            Some(Loc::X(m)) => 2 <= m <= 8 || 23 <= m <= 28,
            Some(Loc::D(m)) => 16 <= m <= 31,
            None => true,
        });
    }
}

proof fn lemma_d(fl: Floats, a: A, r: Reg, scratch: u32, s: Cpu)
    requires
        ready(s, a),
        scratch < 2,
    ensures
        behind(a, a.d(r, scratch)),
        a.d_of(r, scratch) == scratch || 16 <= a.d_of(r, scratch) <= 31,
        ({
            let t = if a.d_of(r, scratch) == scratch {
                s.set_d(scratch, value(s, a, r))
            } else {
                s
            };
            &&& does(fl, a, a.d(r, scratch), s) == Then::On(t)
            &&& t.d[a.d_of(r, scratch) as int] == value(s, a, r)
        }),
{
    assert(match a.pin(r) {
        Some(Loc::X(m)) => 2 <= m <= 8 || 23 <= m <= 28,
        Some(Loc::D(m)) => 16 <= m <= 31,
        None => true,
    });
    match a.pin(r) {
        Some(Loc::D(m)) => {
            lemma_none(fl, a, s);
        },
        Some(Loc::X(m)) => {
            lemma_fmovs(fl, a, scratch, m, s);
        },
        None => {
            lemma_memory(fl, a, scratch, 20, super::a64::slot_of(r), s);
        },
    }
}

/// Two floats fetched.
proof fn lemma_two_floats(fl: Floats, code: A, b: Reg, c: Reg, s: Cpu)
    requires
        ready(s, code),
    ensures
        ({
            let n = code.d_of(b, 0);
            let a1 = code.d(b, 0);
            let m = a1.d_of(c, 1);
            let a2 = a1.d(c, 1);
            &&& behind(code, a1)
            &&& behind(code, a2)
            &&& n < 32
            &&& m < 32
            &&& does(fl, code, a2, s) matches Then::On(t) && {
                &&& ready(t, code)
                &&& t.d[n as int] == value(s, code, b)
                &&& t.d[m as int] == value(s, code, c)
                &&& forall|q: Reg| #[trigger] value(t, code, q) == value(s, code, q)
                &&& t.x == s.x
            }
        }),
{
    let n = code.d_of(b, 0);
    let a1 = code.d(b, 0);
    let m = a1.d_of(c, 1);
    let a2 = a1.d(c, 1);
    let (x, y) = (value(s, code, b), value(s, code, c));
    lemma_d(fl, code, b, 0, s);
    let s1 = if n == 0 {
        s.set_d(0, x)
    } else {
        s
    };
    lemma_scratch_d(s, code, 0, x);
    lemma_same_pins(s1, code, a1);
    lemma_d(fl, a1, c, 1, s1);
    assert(value(s1, a1, c) == y);
    let s2 = if m == 1 {
        s1.set_d(1, y)
    } else {
        s1
    };
    lemma_scratch_d(s1, code, 1, y);
    lemma_does(fl, code, a1, a2, s);
    assert(s2.d[n as int] == x) by {
        assert(n != 1);
    }
}

/// `r[a] = r[b] op r[c]`, of floats.
#[verifier::spinoff_prover]
pub proof fn float_code_computes(fl: Floats, code: A, op: FloatOp, a: Reg, b: Reg, c: Reg, s: Cpu)
    requires
        ready(s, code),
    ensures
        does(fl, code, code.float(op, a, b, c), s) matches Then::On(t) && leaves(
            s,
            t,
            code,
            a,
            float_result(fl, op, value(s, code, b), value(s, code, c)),
        ),
{
    let n = code.d_of(b, 0);
    let a1 = code.d(b, 0);
    let m = a1.d_of(c, 1);
    let a2 = a1.d(c, 1);
    lemma_two_floats(fl, code, b, c, s);
    let s2 = does(fl, code, a2, s)->On_0;
    let v = float_result(fl, op, value(s, code, b), value(s, code, c));
    let d = a2.d_of(a, 0);
    lemma_same_pins(s2, code, a2);
    lemma_d(fl, a2, a, 0, s2);
    let base = A::float_base(op);
    let a3 = a2.put(base | m << 16 | n << 5 | d);
    lemma_numbers();
    lemma_three(base, m, n, d);
    lemma_put(fl, a2, base | m << 16 | n << 5 | d, s2);
    let s3 = s2.set_d(d, v);
    assert(does(fl, a2, a3, s2) == Then::On(s3));
    lemma_float_ends(fl, code, a2, a3, d, a, v, s, s2);
}

proof fn lemma_float_ends(fl: Floats, code: A, a2: A, a3: A, d: u32, r: Reg, v: u64, s: Cpu, s2: Cpu)
    requires
        ready(s, code),
        behind(code, a2),
        behind(a2, a3),
        does(fl, code, a2, s) == Then::On(s2),
        does(fl, a2, a3, s2) == Then::On(s2.set_d(d, v)),
        ready(s2, code),
        forall|q: Reg| #[trigger] value(s2, code, q) == value(s, code, q),
        s2.reg(19) == s.reg(19) && s2.reg(20) == s.reg(20) && s2.reg(21) == s.reg(21) && s2.reg(22) == s.reg(22),
        d == code.d_of(r, 0),
    ensures
        does(fl, code, a3.store_float_from(d, r), s) matches Then::On(t) && leaves(s, t, code, r, v),
{
    lemma_does(fl, code, a2, a3, s);
    let s3 = s2.set_d(d, v);
    assert(match code.pin(r) {
        Some(Loc::X(m)) => 2 <= m <= 8 || 23 <= m <= 28,
        Some(Loc::D(m)) => 16 <= m <= 31,
        None => true,
    });
    if d == 0 {
        lemma_scratch_d(s2, code, 0, v);
    } else {
        assert(put_in(s2, code, r, v) == s3);
        lemma_put_in(s2, code, r, v);
    }
    lemma_same_pins(s3, code, a3);
    lemma_store_float_from(fl, a3, d, r, s3);
    lemma_does(fl, code, a3, a3.store_float_from(d, r), s);
    let t = does(fl, a3, a3.store_float_from(d, r), s3)->On_0;
    lemma_same_pins(t, a3, code);
    assert forall|q: Reg| q != r implies #[trigger] value(t, code, q) == value(s, code, q) by {
        assert(value(t, a3, q) == value(s3, a3, q));
        assert(value(s3, code, q) == value(s2, code, q));
    }
}

/// Of two floats one is less, or they are equal, or neither: never two of these.
pub open spec fn sane(fl: Floats) -> bool {
    &&& forall|a: u64, b: u64| #[trigger] (fl.less)(a, b) ==> !(fl.less)(b, a) && !(fl.equal)(a, b) && !(fl.equal)(b, a)
    &&& forall|a: u64, b: u64| #[trigger] (fl.equal)(a, b) ==> (fl.equal)(b, a)
}

/// Whether a comparison of two floats holds: only `!=` does of two that are not ordered.
pub open spec fn float_holds(fl: Floats, c: Cond, x: u64, y: u64) -> bool {
    match c {
        Cond::Eq => (fl.equal)(x, y),
        Cond::Ne => !(fl.equal)(x, y),
        Cond::Lt => (fl.less)(x, y),
        Cond::Le => (fl.less)(x, y) || (fl.equal)(x, y),
        Cond::Gt => (fl.less)(y, x),
        Cond::Ge => (fl.less)(y, x) || (fl.equal)(x, y),
    }
}

proof fn lemma_flags_floats(fl: Floats, c: Cond, x: u64, y: u64)
    requires
        sane(fl),
    ensures
        condition(flags_of_floats(fl, x, y), A::float_cond(c)) == float_holds(fl, c, x, y),
{
    assert((fl.less)(x, y) ==> !(fl.less)(y, x) && !(fl.equal)(x, y));
    assert((fl.less)(y, x) ==> !(fl.less)(x, y) && !(fl.equal)(x, y));
}

proof fn lemma_compared_floats(fl: Floats, code: A, b: Reg, c: Reg, s: Cpu)
    requires
        ready(s, code),
    ensures
        behind(code, code.compared(b, c)),
        does(fl, code, code.compared(b, c), s) matches Then::On(t) && {
            &&& ready(t, code)
            &&& t.flags == flags_of_floats(fl, value(s, code, b), value(s, code, c))
            &&& forall|q: Reg| #[trigger] value(t, code, q) == value(s, code, q)
            &&& t.x == s.x
        },
{
    let n = code.d_of(b, 0);
    let a1 = code.d(b, 0);
    let m = a1.d_of(c, 1);
    let a2 = a1.d(c, 1);
    lemma_two_floats(fl, code, b, c, s);
    let s2 = does(fl, code, a2, s)->On_0;
    lemma_moves(m, n, 0);
    lemma_put(fl, a2, 0x1E60_2000 | m << 16 | n << 5, s2);
    lemma_does(fl, code, a2, a2.fcompare(n, m), s);
    lemma_compared(s2, code, flags_of_floats(fl, value(s, code, b), value(s, code, c)));
}

/// `r[a] = r[b] cond r[c]`, of floats.
pub proof fn float_tests_say_whether_they_hold(fl: Floats, code: A, cond: Cond, a: Reg, b: Reg, c: Reg, s: Cpu)
    requires
        ready(s, code),
        sane(fl),
    ensures
        does(fl, code, code.test_float(cond, a, b, c), s) matches Then::On(t) && leaves(
            s,
            t,
            code,
            a,
            if float_holds(fl, cond, value(s, code, b), value(s, code, c)) {
                1
            } else {
                0
            },
        ),
{
    let a2 = code.compared(b, c);
    lemma_compared_floats(fl, code, b, c, s);
    let s2 = does(fl, code, a2, s)->On_0;
    lemma_flags_floats(fl, cond, value(s, code, b), value(s, code, c));
    let v: u64 = if float_holds(fl, cond, value(s, code, b), value(s, code, c)) {
        1
    } else {
        0
    };
    let d = a2.x_of(a, X9);
    lemma_same_pins(s2, code, a2);
    lemma_x(fl, a2, a, X9, s2);
    let a3 = a2.cset(d, A::float_cond(cond));
    lemma_cset(fl, a2, d, A::float_cond(cond), s2);
    lemma_ends(fl, code, a2, a3, d, a, v, s, s2, s2.set(d, v));
}

/// To `to` unless two floats compare as said.
pub proof fn float_branches_go_where_the_test_fails(fl: Floats, code: A, cond: Cond, x: Reg, y: Reg, to: Label, s: Cpu)
    requires
        ready(s, code),
        sane(fl),
    ensures
        float_holds(fl, cond, value(s, code, x), value(s, code, y)) ==> does(
            fl,
            code,
            code.branch_float(cond, x, y, to),
            s,
        ) is On,
        !float_holds(fl, cond, value(s, code, x), value(s, code, y)) ==> does(
            fl,
            code,
            code.branch_float(cond, x, y, to),
            s,
        ) is Away,
{
    let a2 = code.compared(x, y);
    lemma_compared_floats(fl, code, x, y, s);
    let s2 = does(fl, code, a2, s)->On_0;
    lemma_flags_floats(fl, cond, value(s, code, x), value(s, code, y));
    let k = A::float_cond(cond);
    lemma_conds(k, 0);
    lemma_other(s2.flags, k);
    lemma_branch(fl, a2, to, Fixup::Imm19, 0x5400_0000 | (k ^ 1), s2);
    lemma_does(fl, code, a2, a2.b_cond(k ^ 1, to), s);
}

/// `r[a] = float(r[b])`.
pub proof fn a_conversion_makes_the_float(fl: Floats, code: A, a: Reg, b: Reg, s: Cpu)
    requires
        ready(s, code),
    ensures
        does(fl, code, code.unary(UnaryOp::ToFloat, a, b), s) matches Then::On(t) && leaves(
            s,
            t,
            code,
            a,
            (fl.from_int)(signed(value(s, code, b))),
        ),
{
    let n = code.x_of(b, X9);
    let a1 = code.x(b, X9);
    let x = value(s, code, b);
    lemma_x(fl, code, b, X9, s);
    let s1 = if n == 9 {
        s.set(9, x)
    } else {
        s
    };
    lemma_scratch(s, code, 9, x);
    lemma_same_pins(s1, code, a1);
    let d = a1.d_of(a, 0);
    lemma_d(fl, a1, a, 0, s1);
    lemma_moves(0, n, 0);
    lemma_two(0x9E62_0000, n, d);
    let a2 = a1.put(0x9E62_0000 | n << 5 | d);
    lemma_put(fl, a1, 0x9E62_0000 | n << 5 | d, s1);
    lemma_float_ends(fl, code, a1, a2, d, a, (fl.from_int)(signed(x)), s, s1);
}

/// `r[a] = r[b]`.
#[verifier::spinoff_prover]
pub proof fn a_move_copies(fl: Floats, code: A, a: Reg, b: Reg, s: Cpu)
    requires
        ready(s, code),
    ensures
        does(fl, code, code.mov(a, b), s) matches Then::On(t) && leaves(s, t, code, a, value(s, code, b)),
{
    let v = value(s, code, b);
    assert(match code.pin(a) {
        Some(Loc::X(m)) => 2 <= m <= 8 || 23 <= m <= 28,
        Some(Loc::D(m)) => 16 <= m <= 31,
        None => true,
    });
    assert(match code.pin(b) {
        Some(Loc::X(m)) => 2 <= m <= 8 || 23 <= m <= 28,
        Some(Loc::D(m)) => 16 <= m <= 31,
        None => true,
    });
    lemma_none(fl, code, s);
    let a1 = match (code.pin(a), code.pin(b)) {
        (Some(Loc::D(m)), _) => code.get_float(m, b),
        (_, Some(Loc::D(x))) => code.set_float(x, a),
        (Some(Loc::X(m)), _) => code.get(m, b),
        (None, _) => code.x(b, X9).set(code.x_of(b, X9), a),
    };
    match (code.pin(a), code.pin(b)) {
        (Some(Loc::D(m)), pb) => {
            match pb {
                Some(Loc::D(x)) => {
                    lemma_fmovs(fl, code, m, x, s);
                    assert(s.set_d(m, s.d[m as int]).d =~= s.d);
                },
                Some(Loc::X(x)) => {
                    lemma_fmovs(fl, code, m, x, s);
                },
                None => {
                    lemma_memory(fl, code, m, 20, super::a64::slot_of(b), s);
                },
            }
            assert(does(fl, code, a1, s) == Then::On(put_in(s, code, a, v)));
            lemma_put_in(s, code, a, v);
            lemma_moved(fl, code, a1, a, v, s, put_in(s, code, a, v));
        },
        (pa, Some(Loc::D(x))) => {
            super::arm_laws::lemma_set_float(fl, code, x, a, s);
            lemma_put_in(s, code, a, v);
            lemma_moved(fl, code, a1, a, v, s, put_in(s, code, a, v));
        },
        (Some(Loc::X(m)), pb) => {
            match pb {
                Some(Loc::X(x)) => {
                    lemma_mov_x(fl, code, m, x, s);
                    assert(s.set(m, s.reg(m)).x =~= s.x);
                },
                _ => {
                    lemma_memory(fl, code, m, 20, super::a64::slot_of(b), s);
                },
            }
            assert(does(fl, code, a1, s) == Then::On(put_in(s, code, a, v)));
            lemma_put_in(s, code, a, v);
            lemma_moved(fl, code, a1, a, v, s, put_in(s, code, a, v));
        },
        (None, _) => {
            let n = code.x_of(b, X9);
            let b1 = code.x(b, X9);
            lemma_x(fl, code, b, X9, s);
            let s1 = if n == 9 {
                s.set(9, v)
            } else {
                s
            };
            lemma_scratch(s, code, 9, v);
            lemma_same_pins(s1, code, b1);
            super::arm_laws::lemma_set(fl, b1, n, a, s1);
            lemma_does(fl, code, b1, a1, s);
            let t = put_in(s1, code, a, v);
            assert(b1.pin(a) == code.pin(a));
            lemma_put_in(s1, code, a, v);
            assert forall|q: Reg| q != a implies #[trigger] value(t, code, q) == value(s, code, q) by {
                assert(value(s1, code, q) == value(s, code, q));
            }
            lemma_moved(fl, code, a1, a, v, s, t);
        },
    }
}

proof fn lemma_moved(fl: Floats, code: A, a1: A, a: Reg, v: u64, s: Cpu, t: Cpu)
    requires
        behind(code, a1),
        does(fl, code, a1, s) == Then::On(t),
        ready(t, code),
        leaves(s, t, code, a, v),
    ensures
        does(fl, code, a1.raised(a), s) matches Then::On(u) && leaves(s, u, code, a, v),
{
    lemma_same_pins(t, code, a1);
    lemma_raised(fl, a1, a, t);
    lemma_does(fl, code, a1, a1.raised(a), s);
    let u = does(fl, a1, a1.raised(a), t)->On_0;
    lemma_same_pins(u, a1, code);
    assert forall|q: Reg| #[trigger] value(u, code, q) == value(t, code, q) by {
        assert(value(u, a1, q) == value(t, a1, q));
    }
}

} // verus!
