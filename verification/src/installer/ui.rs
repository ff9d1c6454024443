//! What the updater says while it works:
//!
//! ```text
//! info: latest release is v0.2.0
//! info: downloading toolchain for aarch64-apple-darwin
//! [=========================>        ]   9.1 MiB /  12.4 MiB ( 73 %)   6.2 MiB/s  ETA  1s
//! ```
//!
//! The bar is drawn only on a terminal. Anywhere else -- a pipe, a log -- it
//! would be a screenful of carriage returns, so the finished line is written
//! once instead. Colour follows the same rule.
//!
//! Speeds, shares and times are worked out in whole numbers, so that what is
//! shown is exact.

use crate::text::{chars, copies, decimal, digits, flush_right, repeat, right};
use vstd::prelude::*;

verus! {

/// Time that has passed.
#[derive(Debug, Clone, Copy, PartialEq, Eq, Structural)]
pub struct Elapsed {
    pub secs: u64,
    pub nanos: u32,
}

impl Elapsed {
    /// In nanoseconds.
    pub open spec fn total(self) -> nat {
        (self.secs * 1_000_000_000 + self.nanos) as nat
    }

    pub fn from_secs(secs: u64) -> (r: Elapsed)
        ensures
            r == (Elapsed { secs, nanos: 0 }),
    {
        Elapsed { secs, nanos: 0 }
    }

    pub fn as_nanos(&self) -> (r: u128)
        ensures
            r == self.total(),
    {
        self.secs as u128 * 1_000_000_000 + self.nanos as u128
    }
}

/// Whether to colour what is written: on a terminal, unless asked not to -- and
/// on Windows only where the console says it reads the escapes.
pub fn colour(interactive: bool, no_colour: bool, windows: bool, modern_console: bool) -> (r: bool)
    ensures
        r == (interactive && !no_colour && (!windows || modern_console)),
{
    interactive && !no_colour && (!windows || modern_console)
}

/// `word` in bold and of colour `code`, where there is colour.
pub open spec fn labelled(word: Seq<char>, code: Seq<char>, colour: bool) -> Seq<char> {
    if colour {
        "\x1b[1;"@ + code + "m"@ + word + "\x1b[0m"@
    } else {
        word
    }
}

pub fn label(word: &str, code: &str, colour: bool) -> (r: String)
    ensures
        r@ == labelled(word@, code@, colour),
{
    if colour {
        let mut r: String = "\x1b[1;".to_owned();
        r.append(code);
        r.append("m");
        r.append(word);
        r.append("\x1b[0m");
        r
    } else {
        word.to_owned()
    }
}

fn line(head: String, msg: &str) -> (r: String)
    ensures
        r@ == head@ + " "@ + msg@,
{
    let mut r: String = head;
    r.append(" ");
    r.append(msg);
    r
}

/// `info: ...`, bold.
pub fn info(msg: &str, colour: bool) -> (r: String)
    ensures
        r@ == labelled("info:"@, "39"@, colour) + " "@ + msg@,
{
    line(label("info:", "39", colour), msg)
}

/// `warning: ...`, in bold yellow.
pub fn warn(msg: &str, colour: bool) -> (r: String)
    ensures
        r@ == labelled("warning:"@, "33"@, colour) + " "@ + msg@,
{
    line(label("warning:", "33", colour), msg)
}

/// `error: ...`, in bold red.
pub fn error(msg: &str, colour: bool) -> (r: String)
    ensures
        r@ == labelled("error:"@, "31"@, colour) + " "@ + msg@,
{
    line(label("error:", "31", colour), msg)
}

/// `text` in bold, for the name of the thing a line is about.
pub fn bold(text: &str, colour: bool) -> (r: String)
    ensures
        r@ == (if colour {
            "\x1b[1m"@ + text@ + "\x1b[0m"@
        } else {
            text@
        }),
{
    if colour {
        let mut r: String = "\x1b[1m".to_owned();
        r.append(text);
        r.append("\x1b[0m");
        r
    } else {
        text.to_owned()
    }
}

/// `a / b` to the nearest whole number, and to the even one half way.
pub open spec fn nearest(a: nat, b: nat) -> nat {
    if 2 * (a % b) > b || (2 * (a % b) == b && (a / b) % 2 == 1) {
        a / b + 1
    } else {
        a / b
    }
}

/// The units a size is given in: how many bytes one is, and its name. The
/// largest there is that the size has at least one of.
pub open spec fn unit_of(bytes: nat) -> (nat, Seq<char>) {
    if bytes < 0x10_0000 {
        (0x400, "KiB"@)
    } else if bytes < 0x4000_0000 {
        (0x10_0000, "MiB"@)
    } else if bytes < 0x100_0000_0000 {
        (0x4000_0000, "GiB"@)
    } else {
        (0x100_0000_0000, "TiB"@)
    }
}

/// A size as a person reads one.
pub open spec fn sized(bytes: nat) -> Seq<char> {
    if bytes < 1024 {
        digits(bytes) + " B"@
    } else {
        let tenths = nearest(10 * bytes, unit_of(bytes).0);
        digits(tenths / 10) + "."@ + digits(tenths % 10) + " "@ + unit_of(bytes).1
    }
}

/// A size as a person reads one: `512 B`, `8.2 KiB`, `12.4 MiB`.
pub fn size(bytes: u64) -> (r: String)
    ensures
        r@ == sized(bytes as nat),
{
    if bytes < 1024 {
        let mut r: String = decimal(bytes);
        r.append(" B");
        return r;
    }
    let (unit, name): (u128, &str) = if bytes < 0x10_0000 {
        (0x400, "KiB")
    } else if bytes < 0x4000_0000 {
        (0x10_0000, "MiB")
    } else if bytes < 0x100_0000_0000 {
        (0x4000_0000, "GiB")
    } else {
        (0x100_0000_0000, "TiB")
    };
    let ten: u128 = 10 * bytes as u128;
    let whole: u128 = ten / unit;
    let part: u128 = ten % unit;
    let tenths: u128 = if 2 * part > unit || (2 * part == unit && whole % 2 == 1) {
        whole + 1
    } else {
        whole
    };
    proof {
        assert(whole <= ten / 1024) by (nonlinear_arith)
            requires
                whole == ten / unit,
                unit >= 1024,
        ;
    }
    let mut r: String = decimal((tenths / 10) as u64);
    r.append(".");
    r.append(decimal((tenths % 10) as u64).as_str());
    r.append(" ");
    r.append(name);
    r
}

/// `n` below a hundred, in two digits.
pub open spec fn two_digits(n: nat) -> Seq<char> {
    if n < 10 {
        "0"@ + digits(n)
    } else {
        digits(n)
    }
}

/// A time to the second.
pub open spec fn timed(secs: nat) -> Seq<char> {
    if secs < 60 {
        digits(secs) + "s"@
    } else {
        digits(secs / 60) + "m "@ + two_digits(secs % 60) + "s"@
    }
}

/// A time to the second: `4s`, `1m 05s`.
pub fn seconds(secs: u64) -> (r: String)
    ensures
        r@ == timed(secs as nat),
{
    if secs < 60 {
        let mut r: String = decimal(secs);
        r.append("s");
        r
    } else {
        let mut r: String = decimal(secs / 60);
        r.append("m ");
        if secs % 60 < 10 {
            let mut two: String = "0".to_owned();
            two.append(decimal(secs % 60).as_str());
            r.append(two.as_str());
        } else {
            r.append(decimal(secs % 60).as_str());
        }
        r.append("s");
        r
    }
}

/// How wide the bar itself is, in characters.
pub const BAR: usize = 30;

/// Has enough time passed to speak of a speed?
pub open spec fn is_timed(elapsed: Elapsed) -> bool {
    elapsed.total() > 50_000_000
}

/// Bytes a second, so far.
pub open spec fn rate_of(done: nat, elapsed: Elapsed) -> nat {
    if is_timed(elapsed) {
        let r = done * 1_000_000_000 / elapsed.total();
        if r > u64::MAX {
            u64::MAX as nat
        } else {
            r
        }
    } else {
        0
    }
}

/// How fast it goes, flush right.
pub open spec fn speed_of(done: nat, elapsed: Elapsed) -> Seq<char> {
    flush_right(sized(rate_of(done, elapsed)), 10) + "/s"@
}

/// How many of the bar's cells are full: the nearest whole number.
pub open spec fn filled_of(done: nat, total: nat) -> nat {
    (2 * BAR * done + total) as nat / (2 * total)
}

/// The full part of the bar.
pub open spec fn head_of(filled: nat) -> Seq<char> {
    if filled >= BAR {
        copies('=', BAR as nat)
    } else if filled < 1 {
        ">"@
    } else {
        copies('=', (filled - 1) as nat) + ">"@
    }
}

/// What is left of the bar.
pub open spec fn rest_of(filled: nat) -> Seq<char> {
    if filled >= BAR {
        Seq::empty()
    } else if filled < 1 {
        copies(' ', (BAR - 1) as nat)
    } else {
        copies(' ', (BAR - filled) as nat)
    }
}

/// The bar: its full part in bold, green once it is finished and cyan while it
/// is still moving.
pub open spec fn bar_of(filled: nat, finished: bool, colour: bool) -> Seq<char> {
    labelled(
        head_of(filled),
        if finished {
            "32"@
        } else {
            "36"@
        },
        colour,
    ) + rest_of(filled)
}

/// No more than there is in all.
pub open spec fn at_most(done: nat, total: nat) -> nat {
    if done > total {
        total
    } else {
        done
    }
}

/// The line for a download of known length.
pub open spec fn measured(done: nat, total: nat, elapsed: Elapsed, finished: bool, bar: Seq<char>) -> Seq<char> {
    "["@ + bar + after_bar(done, total, elapsed, finished)
}

/// What a line says after its bar.
pub open spec fn after_bar(done: nat, total: nat, elapsed: Elapsed, finished: bool) -> Seq<char> {
    let d = at_most(done, total);
    "] "@ + flush_right(sized(d), 10) + " / "@ + flush_right(sized(total), 10) + " ("@ + flush_right(
        digits(d * 100 / total),
        3,
    ) + " %) "@ + speed_of(done, elapsed) + tail_at(done, d, total, elapsed, finished)
}

/// What the line ends with, where `done` bytes came and `d` of them count.
pub open spec fn tail_at(done: nat, d: nat, total: nat, elapsed: Elapsed, finished: bool) -> Seq<char> {
    if finished {
        "  in "@ + timed(elapsed.secs as nat)
    } else if done > 0 && is_timed(elapsed) {
        "  ETA "@ + flush_right(timed(left_at(done, d, total, elapsed)), 3)
    } else {
        Seq::empty()
    }
}

/// The seconds left, at the speed at which `done` bytes came.
pub open spec fn left_at(done: nat, d: nat, total: nat, elapsed: Elapsed) -> nat {
    (total - d) as nat * elapsed.total() / (done * 1_000_000_000)
}

/// The line that describes a download.
pub open spec fn rendered(done: nat, total: Option<u64>, elapsed: Elapsed, finished: bool, colour: bool) -> Seq<char> {
    match total {
        Some(t) => if t > 0 {
            measured(
                done,
                t as nat,
                elapsed,
                finished,
                bar_of(filled_of(at_most(done, t as nat), t as nat), finished, colour),
            )
        } else {
            unmeasured(done, elapsed, finished)
        },
        None => unmeasured(done, elapsed, finished),
    }
}

/// The line for a download of unknown length: how much, and how fast.
pub open spec fn unmeasured(done: nat, elapsed: Elapsed, finished: bool) -> Seq<char> {
    flush_right(sized(done), 10) + "  "@ + speed_of(done, elapsed) + (if finished {
        "  in "@ + timed(elapsed.secs as nat)
    } else {
        Seq::empty()
    })
}

/// The time left is one that can be counted.
pub open spec fn countable(done: nat, total: Option<u64>, elapsed: Elapsed, finished: bool) -> bool {
    match total {
        Some(t) => t > 0 && !finished && done > 0 && is_timed(elapsed) ==> left_at(
            done,
            at_most(done, t as nat),
            t as nat,
            elapsed,
        ) <= u64::MAX,
        None => true,
    }
}

fn speed(done: u64, elapsed: Elapsed) -> (r: String)
    ensures
        r@ == speed_of(done as nat, elapsed),
{
    let nanos: u128 = elapsed.as_nanos();
    let rate: u64 = if nanos > 50_000_000 {
        let r: u128 = done as u128 * 1_000_000_000 / nanos;
        if r > u64::MAX as u128 {
            u64::MAX
        } else {
            r as u64
        }
    } else {
        0
    };
    let mut s: String = right(size(rate).as_str(), 10);
    s.append("/s");
    s
}

fn took(elapsed: Elapsed) -> (r: String)
    ensures
        r@ == "  in "@ + timed(elapsed.secs as nat),
{
    let mut t: String = "  in ".to_owned();
    t.append(seconds(elapsed.secs).as_str());
    t
}

/// One line describing a download `done` bytes in, of `total` if that is known,
/// `elapsed` since it started.
pub fn render(done: u64, total: Option<u64>, elapsed: Elapsed, finished: bool, colour: bool) -> (r: String)
    requires
        countable(done as nat, total, elapsed, finished),
    ensures
        r@ == rendered(done as nat, total, elapsed, finished, colour),
{
    let t: u64 = match total {
        Some(t) => t,
        None => 0,
    };
    if t == 0 {
        let mut r: String = right(size(done).as_str(), 10);
        r.append("  ");
        r.append(speed(done, elapsed).as_str());
        if finished {
            r.append(took(elapsed).as_str());
        }
        proof {
            if !finished {
                assert(r@ =~= unmeasured(done as nat, elapsed, finished));
            }
        }
        return r;
    }
    let d: u64 = if done > t {
        t
    } else {
        done
    };
    let filled: u128 = (60 * d as u128 + t as u128) / (2 * t as u128);
    proof {
        assert(filled <= 30) by (nonlinear_arith)
            requires
                filled == (60 * d + t) / (2 * t),
                d <= t,
                t > 0,
        ;
        assert(d * 100 / (t as int) <= 100) by (nonlinear_arith)
            requires
                d <= t,
                t > 0,
        ;
    }
    let cells: usize = filled as usize;
    let head: String = if cells >= BAR {
        repeat('=', BAR)
    } else if cells < 1 {
        ">".to_owned()
    } else {
        let mut h: String = repeat('=', cells - 1);
        h.append(">");
        h
    };
    let rest: String = if cells >= BAR {
        String::new()
    } else if cells < 1 {
        repeat(' ', BAR - 1)
    } else {
        repeat(' ', BAR - cells)
    };
    let mut bar: String = label(
        head.as_str(),
        if finished {
            "32"
        } else {
            "36"
        },
        colour,
    );
    bar.append(rest.as_str());
    let mut line: String = "[".to_owned();
    line.append(bar.as_str());
    let mut r: String = "] ".to_owned();
    r.append(right(size(d).as_str(), 10).as_str());
    r.append(" / ");
    r.append(right(size(t).as_str(), 10).as_str());
    r.append(" (");
    r.append(right(decimal((d as u128 * 100 / t as u128) as u64).as_str(), 3).as_str());
    r.append(" %) ");
    r.append(speed(done, elapsed).as_str());
    let ghost before = r@;
    if finished {
        r.append(took(elapsed).as_str());
    } else if done > 0 && elapsed.as_nanos() > 50_000_000 {
        let left: u64 = time_left(done, d, t, elapsed);
        let mut eta: String = "  ETA ".to_owned();
        eta.append(right(seconds(left).as_str(), 3).as_str());
        r.append(eta.as_str());
    } else {
        proof {
            assert(before + Seq::<char>::empty() =~= before);
        }
    }
    line.append(r.as_str());
    line
}

/// The seconds left for `total - d` bytes, at the speed at which `done` came.
fn time_left(done: u64, d: u64, total: u64, elapsed: Elapsed) -> (r: u64)
    requires
        d <= total,
        done > 0,
        left_at(done as nat, d as nat, total as nat, elapsed) <= u64::MAX,
    ensures
        r == left_at(done as nat, d as nat, total as nat, elapsed),
{
    // The product can pass what `u128` holds, so it is divided a part at a time:
    // whole seconds of time passed, and then the nanoseconds over.
    let left: u128 = (total - d) as u128;
    let nanos: u128 = elapsed.as_nanos();
    let per: u128 = done as u128 * 1_000_000_000;
    let q: u128 = nanos / per;
    let m: u128 = nanos % per;
    proof {
        assert(nanos == per * q + m) by (nonlinear_arith)
            requires
                q == nanos / per,
                m == nanos % per,
                per > 0,
        ;
        assert(m < per) by (nonlinear_arith)
            requires
                m == nanos % per,
                per > 0,
        ;
        let l = left as int;
        assert(l * nanos == l * q * per + l * m) by (nonlinear_arith)
            requires
                nanos == per * q + m,
        ;
        assert(l * m >= 0) by (nonlinear_arith)
            requires
                l >= 0,
                m >= 0,
        ;
        vstd::arithmetic::div_mod::lemma_hoist_over_denominator(l * m, l * q, per as nat);
        assert(l * nanos / per as int == l * q + l * m / per as int);
        assert(l * m / per as int >= 0) by (nonlinear_arith)
            requires
                l * m >= 0,
                per > 0,
        ;
        assert(l * m <= 0xFFFF_FFFF_FFFF_FFFF * (per - 1)) by (nonlinear_arith)
            requires
                0 <= l <= 0xFFFF_FFFF_FFFF_FFFF,
                0 <= m <= per - 1,
        ;
    }
    let whole: u128 = left * q;
    let over: u128 = scaled(left, m, per);
    (whole + over) as u64
}

/// `a * b / c`, for a product that may pass what `u128` holds.
fn scaled(a: u128, b: u128, c: u128) -> (r: u128)
    requires
        a <= u64::MAX,
        b < c,
        c <= 0xFFFF_FFFF_FFFF_FFFF * 1_000_000_000,
    ensures
        r == a * b / (c as int),
{
    // Long division, a bit of `a` at a time, so that no step passes `2 * c`.
    let mut i: u32 = 64;
    let mut q: u128 = 0;
    let mut m: u128 = 0;
    let ghost mut high: int = 0;
    proof {
        assert(a / 0x1_0000_0000_0000_0000 == 0);
        assert(high * b == 0) by (nonlinear_arith)
            requires
                high == 0,
        ;
        assert(c * q == 0) by (nonlinear_arith)
            requires
                q == 0,
        ;
        vstd::arithmetic::power2::lemma2_to64();
    }
    while i > 0
        invariant
            i <= 64,
            a <= u64::MAX,
            b < c,
            c <= 0xFFFF_FFFF_FFFF_FFFF * 1_000_000_000,
            high == a as int / vstd::arithmetic::power2::pow2(i as nat) as int,
            0 <= high,
            high * b == c * q + m,
            m < c,
            q <= high,
        decreases i,
    {
        let ghost p = vstd::arithmetic::power2::pow2((i - 1) as nat) as int;
        proof {
            vstd::arithmetic::power2::lemma_pow2_unfold(i as nat);
            vstd::arithmetic::power2::lemma_pow2_pos((i - 1) as nat);
            vstd::arithmetic::div_mod::lemma_div_denominator(a as int, p, 2);
            assert(p * 2 == 2 * p);
            vstd::bits::lemma_u128_shr_is_div(a, (i - 1) as u128);
            assert(a as int / p <= a) by (nonlinear_arith)
                requires
                    p >= 1,
                    a >= 0,
            ;
        }
        let upper: u128 = a >> ((i - 1) as u128);
        let bit: u128 = upper % 2;
        let doubled: u128 = 2 * m + (if bit == 1 {
            b
        } else {
            0
        });
        let ghost next = 2 * high + bit;
        let ghost q0 = q as int;
        proof {
            assert(next == a as int / p);
            assert(next * b == 2 * (high * b) + bit * b) by (nonlinear_arith)
                requires
                    next == 2 * high + bit,
            ;
            assert(bit * b == (if bit == 1 {
                b as int
            } else {
                0int
            })) by (nonlinear_arith)
                requires
                    bit == 0 || bit == 1,
            ;
            assert(2 * (c * q0) == c * (2 * q0)) by (nonlinear_arith);
        }
        let (extra, rest): (u128, u128) = if doubled >= c {
            if doubled - c >= c {
                (2, doubled - c - c)
            } else {
                (1, doubled - c)
            }
        } else {
            (0, doubled)
        };
        proof {
            assert(c * (2 * q0 + extra) == c * (2 * q0) + c * extra) by (nonlinear_arith);
            assert(c * extra == (if extra == 2 {
                2 * c
            } else if extra == 1 {
                c as int
            } else {
                0int
            })) by (nonlinear_arith)
                requires
                    extra == 0 || extra == 1 || extra == 2,
            ;
            assert(next * b < c * (next + 1)) by (nonlinear_arith)
                requires
                    b < c,
                    next >= 0,
            ;
            assert(2 * q0 + extra <= next) by (nonlinear_arith)
                requires
                    c * (2 * q0 + extra) + rest == next * b,
                    next * b < c * (next + 1),
                    rest >= 0,
                    c > 0,
            ;
        }
        q = 2 * q + extra;
        m = rest;
        proof {
            high = next;
        }
        i = i - 1;
    }
    proof {
        vstd::arithmetic::power2::lemma2_to64();
        assert(a as int / 1 == a);
        vstd::arithmetic::div_mod::lemma_fundamental_div_mod_converse(a * b, c as int, q as int, m as int);
    }
    q
}

/// How many columns a line takes: its characters, less any colour escapes, each
/// of which ends with a letter.
pub open spec fn columns(line: Seq<char>) -> nat
    decreases line.len(), 1nat,
{
    if line.len() == 0 {
        0
    } else if line[0] == '\x1b' {
        escaped_columns(line.skip(1))
    } else {
        1 + columns(line.skip(1))
    }
}

/// The columns of what follows the escape `line` starts in the middle of.
pub open spec fn escaped_columns(line: Seq<char>) -> nat
    decreases line.len(), 0nat,
{
    if line.len() == 0 {
        0
    } else if is_letter(line[0]) {
        columns(line.skip(1))
    } else {
        escaped_columns(line.skip(1))
    }
}

/// An ASCII letter.
pub open spec fn is_letter(c: char) -> bool {
    ('a' <= c && c <= 'z') || ('A' <= c && c <= 'Z')
}

/// How many columns `line` takes: its characters, less any colour escapes.
pub fn visible(line: &str) -> (n: usize)
    ensures
        n == columns(line@),
{
    let cs: Vec<char> = chars(line);
    let mut n: usize = 0;
    let mut i: usize = 0;
    let mut escape: bool = false;
    proof {
        assert(line@.skip(0) =~= line@);
    }
    while i < cs.len()
        invariant
            i <= cs.len(),
            cs@ == line@,
            n <= i,
            n + (if escape {
                escaped_columns(line@.skip(i as int))
            } else {
                columns(line@.skip(i as int))
            }) == columns(line@),
        decreases cs.len() - i,
    {
        let c: char = cs[i];
        proof {
            assert(line@.skip(i as int).skip(1) =~= line@.skip(i + 1));
        }
        if escape {
            if ('a' <= c && c <= 'z') || ('A' <= c && c <= 'Z') {
                escape = false;
            }
        } else if c == '\x1b' {
            escape = true;
        } else {
            n = n + 1;
        }
        i = i + 1;
    }
    n
}

/// A progress bar, redrawn in place: what it remembers between lines.
#[derive(Debug, Clone, Copy)]
pub struct Progress {
    pub total: Option<u64>,
    /// When it started, in nanoseconds of a clock that does not go back.
    pub started: u128,
    /// When the last line was drawn.
    pub drawn: Option<u128>,
    /// How long the last line drawn was, so the next can cover it.
    pub width: usize,
    /// Somebody is watching.
    pub live: bool,
}

/// What covers a line of `width` columns with `line`: a return to the start,
/// the line, and spaces over what it leaves of the old one. Nothing but the
/// spaces and a return again, for no line at all.
pub open spec fn drawing(line: Seq<char>, width: nat) -> Seq<char> {
    let shown = columns(line);
    "\r"@ + line + copies(
        ' ',
        if width > shown {
            (width - shown) as nat
        } else {
            0
        },
    ) + (if line.len() == 0 {
        "\r"@
    } else {
        ""@
    })
}

impl Progress {
    pub fn new(total: Option<u64>, now: u128, interactive: bool) -> (p: Progress)
        ensures
            p == (Progress { total, started: now, drawn: None, width: 0, live: interactive }),
    {
        Progress { total, started: now, drawn: None, width: 0, live: interactive }
    }

    /// Is a line due at `now`? At most ten times a second: more is flicker, not
    /// information.
    pub open spec fn due(self, now: u128) -> bool {
        self.live && (self.drawn is None || now - self.drawn->0 >= 100_000_000)
    }

    /// Show that `done` bytes have arrived, `elapsed` after the start: what to
    /// write, if anything.
    pub fn update(&mut self, done: u64, now: u128, elapsed: Elapsed, colour: bool) -> (r: Option<String>)
        requires
            old(self).drawn is Some ==> old(self).drawn->0 <= now,
            countable(done as nat, old(self).total, elapsed, false),
        ensures
            !old(self).due(now) ==> r is None && *final(self) == *old(self),
            old(self).due(now) ==> {
                let line = rendered(done as nat, old(self).total, elapsed, false, colour);
                &&& r is Some
                &&& r->0@ == drawing(line, old(self).width as nat)
                &&& *final(self) == (Progress { drawn: Some(now), width: final(self).width, ..*old(self) })
                &&& final(self).width == columns(line)
            },
    {
        if !self.live {
            return None;
        }
        if let Some(t) = self.drawn {
            if now - t < 100_000_000 {
                return None;
            }
        }
        self.drawn = Some(now);
        let line: String = render(done, self.total, elapsed, false, colour);
        Some(self.draw(line.as_str()))
    }

    /// The finished line, which stays on screen.
    pub fn finish(self, done: u64, elapsed: Elapsed, colour: bool) -> (r: String)
        ensures
            ({
                let total = if self.total is Some {
                    self.total
                } else {
                    Some(done)
                };
                let line = rendered(done as nat, total, elapsed, true, colour);
                r@ == (if self.live {
                    drawing(line, self.width as nat) + "\n"@
                } else {
                    line + "\n"@
                })
            }),
    {
        let total: Option<u64> = match self.total {
            Some(t) => Some(t),
            None => Some(done),
        };
        let line: String = render(done, total, elapsed, true, colour);
        if self.live {
            let mut p: Progress = self;
            let mut r: String = p.draw(line.as_str());
            r.append("\n");
            r
        } else {
            let mut r: String = line;
            r.append("\n");
            r
        }
    }

    /// Take the bar off the screen, for when the download failed and an error
    /// is about to be written where it was: what to write, if anything.
    pub fn abandon(self) -> (r: Option<String>)
        ensures
            self.live && self.width > 0 ==> r is Some && r->0@ == drawing(Seq::empty(), self.width as nat),
            !(self.live && self.width > 0) ==> r is None,
    {
        if self.live && self.width > 0 {
            let mut p: Progress = self;
            proof {
                reveal_strlit("");
                assert(""@ =~= Seq::<char>::empty());
            }
            Some(p.draw(""))
        } else {
            None
        }
    }

    /// Overwrite the current line with `line`. Padding with spaces rather than
    /// an erase escape, which an old Windows console would print as text.
    fn draw(&mut self, line: &str) -> (r: String)
        ensures
            r@ == drawing(line@, old(self).width as nat),
            *final(self) == (Progress { width: final(self).width, ..*old(self) }),
            final(self).width == columns(line@),
    {
        let shown: usize = visible(line);
        let pad: usize = if self.width > shown {
            self.width - shown
        } else {
            0
        };
        let mut r: String = "\r".to_owned();
        r.append(line);
        r.append(repeat(' ', pad).as_str());
        if line.is_empty() {
            r.append("\r");
        } else {
            r.append("");
        }
        self.width = shown;
        r
    }
}

/// `s` holds no escape.
pub open spec fn plain(s: Seq<char>) -> bool {
    forall|i: int| 0 <= i < s.len() ==> #[trigger] s[i] != '\x1b'
}

proof fn lemma_plain_prefix(s: Seq<char>, t: Seq<char>)
    requires
        plain(s),
    ensures
        columns(s + t) == s.len() + columns(t),
    decreases s.len(),
{
    if s.len() == 0 {
        assert(s + t =~= t);
    } else {
        assert((s + t)[0] == s[0]);
        assert((s + t).skip(1) =~= s.skip(1) + t);
        assert(plain(s.skip(1)));
        lemma_plain_prefix(s.skip(1), t);
    }
}

proof fn lemma_plain_digits(n: nat)
    ensures
        plain(digits(n)),
    decreases n,
{
    if n >= 10 {
        lemma_plain_digits(n / 10);
    }
}

proof fn lemma_plain_sized(n: nat)
    ensures
        plain(sized(n)),
{
    reveal_strlit(" B");
    reveal_strlit(".");
    reveal_strlit(" ");
    reveal_strlit("KiB");
    reveal_strlit("MiB");
    reveal_strlit("GiB");
    reveal_strlit("TiB");
    lemma_plain_digits(n);
    if n >= 1024 {
        let tenths = nearest(10 * n, unit_of(n).0);
        lemma_plain_digits(tenths / 10);
        lemma_plain_digits(tenths % 10);
    }
}

proof fn lemma_plain_timed(n: nat)
    ensures
        plain(timed(n)),
{
    reveal_strlit("s");
    reveal_strlit("m ");
    reveal_strlit("0");
    lemma_plain_digits(n);
    lemma_plain_digits(n / 60);
    lemma_plain_digits(n % 60);
}

proof fn lemma_plain_tail(done: nat, total: nat, elapsed: Elapsed, finished: bool)
    ensures
        plain(tail_at(done, at_most(done, total), total, elapsed, finished)),
        plain(speed_of(done, elapsed)),
{
    reveal_strlit("  in ");
    reveal_strlit("  ETA ");
    reveal_strlit("/s");
    lemma_plain_timed(elapsed.secs as nat);
    lemma_plain_timed(left_at(done, at_most(done, total), total, elapsed));
    lemma_plain_sized(rate_of(done, elapsed));
}

proof fn lemma_plain_after(done: nat, total: nat, elapsed: Elapsed, finished: bool)
    ensures
        plain(after_bar(done, total, elapsed, finished)),
{
    reveal_strlit("] ");
    reveal_strlit(" / ");
    reveal_strlit(" (");
    reveal_strlit(" %) ");
    let d = at_most(done, total);
    lemma_plain_sized(d);
    lemma_plain_sized(total);
    lemma_plain_digits(d * 100 / total);
    lemma_plain_tail(done, total, elapsed, finished);
}

proof fn lemma_coloured(word: Seq<char>, code: Seq<char>, rest: Seq<char>)
    requires
        plain(word),
        code.len() == 2,
        !is_letter(code[0]),
        !is_letter(code[1]),
    ensures
        columns(labelled(word, code, true) + rest) == word.len() + columns(rest),
{
    reveal_strlit("\x1b[1;");
    reveal_strlit("m");
    reveal_strlit("\x1b[0m");
    let all = labelled(word, code, true) + rest;
    let off = "\x1b[0m"@ + rest;
    assert(all.skip(7) =~= word + off);
    assert(all.skip(1).skip(1) =~= all.skip(2));
    assert(all.skip(2).skip(1) =~= all.skip(3));
    assert(all.skip(3).skip(1) =~= all.skip(4));
    assert(all.skip(4).skip(1) =~= all.skip(5));
    assert(all.skip(5).skip(1) =~= all.skip(6));
    assert(all.skip(6).skip(1) =~= all.skip(7));
    assert(columns(all) == escaped_columns(all.skip(1)));
    assert(escaped_columns(all.skip(1)) == escaped_columns(all.skip(2)));
    assert(escaped_columns(all.skip(2)) == escaped_columns(all.skip(3)));
    assert(escaped_columns(all.skip(3)) == escaped_columns(all.skip(4)));
    assert(escaped_columns(all.skip(4)) == escaped_columns(all.skip(5)));
    assert(escaped_columns(all.skip(5)) == escaped_columns(all.skip(6)));
    assert(escaped_columns(all.skip(6)) == columns(all.skip(7)));
    lemma_plain_prefix(word, off);
    assert(off.skip(4) =~= rest);
    assert(off.skip(1).skip(1) =~= off.skip(2));
    assert(off.skip(2).skip(1) =~= off.skip(3));
    assert(off.skip(3).skip(1) =~= off.skip(4));
    assert(columns(off) == escaped_columns(off.skip(1)));
    assert(escaped_columns(off.skip(1)) == escaped_columns(off.skip(2)));
    assert(escaped_columns(off.skip(2)) == escaped_columns(off.skip(3)));
    assert(escaped_columns(off.skip(3)) == columns(off.skip(4)));
}

proof fn lemma_line(head: Seq<char>, rest: Seq<char>, after: Seq<char>, code: Seq<char>)
    requires
        plain(head),
        plain(rest),
        plain(after),
        code.len() == 2,
        !is_letter(code[0]),
        !is_letter(code[1]),
    ensures
        columns("["@ + (labelled(head, code, true) + rest) + after) == 1 + head.len() + rest.len() + after.len(),
        columns("["@ + (head + rest) + after) == 1 + head.len() + rest.len() + after.len(),
{
    reveal_strlit("[");
    let none = Seq::<char>::empty();
    let on = labelled(head, code, true);
    assert("["@ + (on + rest) + after =~= "["@ + (on + (rest + (after + none))));
    assert("["@ + (head + rest) + after =~= "["@ + (head + (rest + (after + none))));
    lemma_plain_prefix("["@, on + (rest + (after + none)));
    lemma_plain_prefix("["@, head + (rest + (after + none)));
    lemma_coloured(head, code, rest + (after + none));
    lemma_plain_prefix(head, rest + (after + none));
    lemma_plain_prefix(rest, after + none);
    lemma_plain_prefix(after, none);
}

/// The bar is as wide as it is, however full.
pub proof fn the_bar_has_one_width(filled: nat)
    ensures
        (head_of(filled) + rest_of(filled)).len() == BAR,
{
    reveal_strlit(">");
}

/// A coloured line takes the same columns as a plain one: the escapes do not
/// count, or redrawing would leave debris behind.
pub proof fn colour_takes_no_columns(done: nat, total: Option<u64>, elapsed: Elapsed, finished: bool)
    ensures
        columns(rendered(done, total, elapsed, finished, true)) == rendered(done, total, elapsed, finished, false).len(),
        columns(rendered(done, total, elapsed, finished, false)) == rendered(done, total, elapsed, finished, false).len(),
{
    reveal_strlit("[");
    reveal_strlit(">");
    reveal_strlit("32");
    reveal_strlit("36");
    reveal_strlit("  ");
    reveal_strlit("  in ");
    let none = Seq::<char>::empty();
    if total is Some && total->0 > 0 {
        let t = total->0 as nat;
        let filled = filled_of(at_most(done, t), t);
        let head = head_of(filled);
        let rest = rest_of(filled);
        let after = after_bar(done, t, elapsed, finished);
        let code = if finished {
            "32"@
        } else {
            "36"@
        };
        lemma_plain_after(done, t, elapsed, finished);
        assert(plain(head));
        assert(plain(rest));
        lemma_line(head, rest, after, code);
    } else {
        lemma_plain_sized(done);
        lemma_plain_sized(rate_of(done, elapsed));
        lemma_plain_timed(elapsed.secs as nat);
        lemma_plain_tail(done, 1, elapsed, finished);
        let line = unmeasured(done, elapsed, finished);
        assert(plain(line));
        lemma_plain_prefix(line, none);
        assert(line + none =~= line);
    }
}

/// A line with its colour escapes deleted.
pub open spec fn stripped(line: Seq<char>) -> Seq<char>
    decreases line.len(), 1nat,
{
    if line.len() == 0 {
        Seq::empty()
    } else if line[0] == '\x1b' {
        stripped_escape(line.skip(1))
    } else {
        seq![line[0]] + stripped(line.skip(1))
    }
}

/// What is left of what follows the escape `line` starts in the middle of.
pub open spec fn stripped_escape(line: Seq<char>) -> Seq<char>
    decreases line.len(), 0nat,
{
    if line.len() == 0 {
        Seq::empty()
    } else if is_letter(line[0]) {
        stripped(line.skip(1))
    } else {
        stripped_escape(line.skip(1))
    }
}

proof fn lemma_stripped_prefix(s: Seq<char>, t: Seq<char>)
    requires
        plain(s),
    ensures
        stripped(s + t) == s + stripped(t),
    decreases s.len(),
{
    if s.len() == 0 {
        assert(s + t =~= t);
        assert(s + stripped(t) =~= stripped(t));
    } else {
        assert((s + t)[0] == s[0]);
        assert((s + t).skip(1) =~= s.skip(1) + t);
        assert(plain(s.skip(1)));
        lemma_stripped_prefix(s.skip(1), t);
        assert(seq![s[0]] + (s.skip(1) + stripped(t)) =~= s + stripped(t));
    }
}

proof fn lemma_stripped_colour(word: Seq<char>, code: Seq<char>, rest: Seq<char>)
    requires
        plain(word),
        code.len() == 2,
        !is_letter(code[0]),
        !is_letter(code[1]),
    ensures
        stripped(labelled(word, code, true) + rest) == word + stripped(rest),
{
    reveal_strlit("\x1b[1;");
    reveal_strlit("m");
    reveal_strlit("\x1b[0m");
    let all = labelled(word, code, true) + rest;
    let off = "\x1b[0m"@ + rest;
    assert(all.skip(7) =~= word + off);
    assert(all.skip(1).skip(1) =~= all.skip(2));
    assert(all.skip(2).skip(1) =~= all.skip(3));
    assert(all.skip(3).skip(1) =~= all.skip(4));
    assert(all.skip(4).skip(1) =~= all.skip(5));
    assert(all.skip(5).skip(1) =~= all.skip(6));
    assert(all.skip(6).skip(1) =~= all.skip(7));
    assert(stripped(all) == stripped_escape(all.skip(1)));
    assert(stripped_escape(all.skip(1)) == stripped_escape(all.skip(2)));
    assert(stripped_escape(all.skip(2)) == stripped_escape(all.skip(3)));
    assert(stripped_escape(all.skip(3)) == stripped_escape(all.skip(4)));
    assert(stripped_escape(all.skip(4)) == stripped_escape(all.skip(5)));
    assert(stripped_escape(all.skip(5)) == stripped_escape(all.skip(6)));
    assert(stripped_escape(all.skip(6)) == stripped(all.skip(7)));
    lemma_stripped_prefix(word, off);
    assert(off.skip(4) =~= rest);
    assert(off.skip(1).skip(1) =~= off.skip(2));
    assert(off.skip(2).skip(1) =~= off.skip(3));
    assert(off.skip(3).skip(1) =~= off.skip(4));
    assert(stripped(off) == stripped_escape(off.skip(1)));
    assert(stripped_escape(off.skip(1)) == stripped_escape(off.skip(2)));
    assert(stripped_escape(off.skip(2)) == stripped_escape(off.skip(3)));
    assert(stripped_escape(off.skip(3)) == stripped(off.skip(4)));
}

/// A coloured line with its escapes deleted is the plain one.
pub proof fn colour_changes_nothing_else(done: nat, total: Option<u64>, elapsed: Elapsed, finished: bool)
    ensures
        stripped(rendered(done, total, elapsed, finished, true)) == rendered(done, total, elapsed, finished, false),
{
    reveal_strlit("[");
    reveal_strlit(">");
    reveal_strlit("32");
    reveal_strlit("36");
    let none = Seq::<char>::empty();
    if total is Some && total->0 > 0 {
        let t = total->0 as nat;
        let filled = filled_of(at_most(done, t), t);
        let head = head_of(filled);
        let rest = rest_of(filled);
        let after = after_bar(done, t, elapsed, finished);
        let code = if finished {
            "32"@
        } else {
            "36"@
        };
        lemma_plain_after(done, t, elapsed, finished);
        assert(plain(head));
        assert(plain(rest));
        let on = labelled(head, code, true);
        assert("["@ + (on + rest) + after =~= "["@ + (on + (rest + (after + none))));
        lemma_stripped_prefix("["@, on + (rest + (after + none)));
        lemma_stripped_colour(head, code, rest + (after + none));
        lemma_stripped_prefix(rest, after + none);
        lemma_stripped_prefix(after, none);
        assert("["@ + (head + (rest + (after + none))) =~= "["@ + (head + rest) + after);
    } else {
        reveal_strlit("  ");
        reveal_strlit("  in ");
        lemma_plain_sized(done);
        lemma_plain_sized(rate_of(done, elapsed));
        lemma_plain_timed(elapsed.secs as nat);
        lemma_plain_tail(done, 1, elapsed, finished);
        let line = unmeasured(done, elapsed, finished);
        assert(plain(line));
        lemma_stripped_prefix(line, none);
        assert(line + none =~= line);
    }
}

/// Between the brackets of a line whose length is known stands the bar.
pub proof fn the_bar_stands_between_brackets(done: nat, total: u64, elapsed: Elapsed, finished: bool)
    requires
        total > 0,
    ensures
        ({
            let line = rendered(done, Some(total), elapsed, finished, false);
            let filled = filled_of(at_most(done, total as nat), total as nat);
            &&& line.len() > BAR + 1
            &&& line[0] == '['
            &&& line[BAR + 1] == ']'
            &&& line.subrange(1, BAR + 1) == head_of(filled) + rest_of(filled)
        }),
{
    reveal_strlit("[");
    reveal_strlit("] ");
    let filled = filled_of(at_most(done, total as nat), total as nat);
    the_bar_has_one_width(filled);
    let line = rendered(done, Some(total), elapsed, finished, false);
    let bar = head_of(filled) + rest_of(filled);
    let after = after_bar(done, total as nat, elapsed, finished);
    assert(line == "["@ + bar + after);
    assert(after[0] == ']');
    assert(line.subrange(1, BAR + 1) =~= bar);
}

proof fn lemma_timed_ends(n: nat)
    ensures
        timed(n).len() > 0,
        timed(n).last() == 's',
{
    reveal_strlit("s");
}

/// No line ends in a blank.
pub proof fn a_line_ends_in_no_blank(done: nat, total: Option<u64>, elapsed: Elapsed, finished: bool)
    ensures
        rendered(done, total, elapsed, finished, false).len() > 0,
        rendered(done, total, elapsed, finished, false).last() == 's',
{
    reveal_strlit("/s");
    let line = rendered(done, total, elapsed, finished, false);
    let speed = speed_of(done, elapsed);
    lemma_timed_ends(elapsed.secs as nat);
    assert(speed.last() == 's');
    if total is Some && total->0 > 0 {
        let t = total->0 as nat;
        let d = at_most(done, t);
        let tail = tail_at(done, d, t, elapsed, finished);
        lemma_timed_ends(left_at(done, d, t, elapsed));
        let after = after_bar(done, t, elapsed, finished);
        if tail.len() > 0 {
            assert(tail.last() == 's');
            assert(after.last() == tail.last());
        } else {
            assert(after.last() == speed.last());
        }
        assert(line.last() == after.last());
    } else if finished {
        assert(line.last() == timed(elapsed.secs as nat).last());
    } else {
        assert(line.last() == speed.last());
    }
}

} // verus!
