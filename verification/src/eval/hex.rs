//! Bytes in base sixteen.

use vstd::prelude::*;
use vstd::utf8::{encode_utf8, is_ascii_chars, is_ascii_chars_encode_utf8};

verus! {

/// The digit for `d`, below sixteen.
pub open spec fn hex_digit(d: u8) -> char {
    if d < 10 {
        ('0' as u32 + d as u32) as char
    } else {
        ('a' as u32 + (d - 10) as u32) as char
    }
}

/// The first `n` of some bytes, two digits each.
pub open spec fn hex_text(b: Seq<u8>, n: nat) -> Seq<char>
    decreases n,
{
    if n == 0 || n > b.len() {
        Seq::empty()
    } else {
        hex_text(b, (n - 1) as nat).push(hex_digit(b[n - 1] / 16)).push(hex_digit(b[n - 1] % 16))
    }
}

fn digit(d: u8) -> (r: char)
    requires
        d < 16,
    ensures
        r == hex_digit(d),
{
    if d < 10 {
        (48 + d) as char
    } else {
        (87 + d) as char
    }
}

pub fn from_hex(b: &Vec<u8>) -> (r: String)
    ensures
        r@ == hex_text(b@, b@.len()),
{
    let mut r: String = String::new();
    let mut i: usize = 0;
    while i < b.len()
        invariant
            i <= b@.len(),
            r@ == hex_text(b@, i as nat),
        decreases b@.len() - i,
    {
        r.push(digit(b[i] / 16));
        r.push(digit(b[i] % 16));
        i = i + 1;
    }
    r
}

/// What a byte is worth as a digit of base sixteen, in either case.
pub open spec fn digit_value(c: u8) -> Option<u8> {
    if 48 <= c <= 57 {
        Some((c - 48) as u8)
    } else if 97 <= c <= 102 {
        Some((c - 87) as u8)
    } else if 65 <= c <= 70 {
        Some((c - 55) as u8)
    } else {
        None
    }
}

fn value_of(c: u8) -> (r: Option<u8>)
    ensures
        r == digit_value(c),
        match r {
            Some(d) => d < 16,
            None => true,
        },
{
    if c >= 48 && c <= 57 {
        Some(c - 48)
    } else if c >= 97 && c <= 102 {
        Some(c - 87)
    } else if c >= 65 && c <= 70 {
        Some(c - 55)
    } else {
        None
    }
}

/// The bytes the first `n` pairs of digits are.
pub open spec fn pairs(s: Seq<u8>, n: nat) -> Option<Seq<u8>>
    decreases n,
{
    if n == 0 || 2 * n > s.len() {
        Some(Seq::empty())
    } else {
        match (pairs(s, (n - 1) as nat), digit_value(s[2 * n - 2]), digit_value(s[2 * n - 1])) {
            (Some(b), Some(h), Some(l)) => Some(b.push((16 * h + l) as u8)),
            _ => None,
        }
    }
}

/// The bytes a text of digits is: nothing, where it is not pairs of them.
pub open spec fn whole_hex(s: Seq<u8>) -> Option<Seq<u8>> {
    if s.len() % 2 != 0 {
        None
    } else {
        pairs(s, s.len() / 2)
    }
}

pub fn unhexed(s: &[u8]) -> (r: Option<Vec<u8>>)
    ensures
        match (r, whole_hex(s@)) {
            (Some(b), Some(w)) => b@ == w,
            (None, None) => true,
            _ => false,
        },
{
    if s.len() % 2 != 0 {
        return None;
    }
    let n: usize = s.len();
    let half: usize = n / 2;
    let mut out: Vec<u8> = Vec::new();
    let mut ok: bool = true;
    let mut i: usize = 0;
    while i < half
        invariant
            i <= half,
            2 * half == n,
            n == s@.len(),
            match pairs(s@, i as nat) {
                Some(b) => ok && out@ == b,
                None => !ok,
            },
        decreases half - i,
    {
        match (value_of(s[2 * i]), value_of(s[2 * i + 1])) {
            (Some(h), Some(l)) => {
                if ok {
                    out.push(16 * h + l);
                }
            },
            _ => {
                ok = false;
            },
        }
        i = i + 1;
    }
    if ok {
        Some(out)
    } else {
        None
    }
}

proof fn lemma_digit(d: u8)
    requires
        d < 16,
    ensures
        digit_value(hex_digit(d) as u8) == Some(d),
        hex_digit(d) as u32 <= 127,
{
}

/// The digits of bytes, as bytes.
pub open spec fn hex_bytes(b: Seq<u8>, n: nat) -> Seq<u8>
    decreases n,
{
    if n == 0 || n > b.len() {
        Seq::empty()
    } else {
        hex_bytes(b, (n - 1) as nat).push(hex_digit(b[n - 1] / 16) as u8).push(hex_digit(b[n - 1] % 16) as u8)
    }
}

proof fn lemma_hex_len(b: Seq<u8>, n: nat)
    requires
        n <= b.len(),
    ensures
        hex_bytes(b, n).len() == 2 * n,
    decreases n,
{
    if n > 0 {
        lemma_hex_len(b, (n - 1) as nat);
    }
}

proof fn lemma_pairs_prefix(s: Seq<u8>, t: Seq<u8>, n: nat)
    requires
        2 * n <= s.len(),
        2 * n <= t.len(),
        forall|i: int| 0 <= i < 2 * n ==> s[i] == t[i],
    ensures
        pairs(s, n) == pairs(t, n),
    decreases n,
{
    if n > 0 {
        lemma_pairs_prefix(s, t, (n - 1) as nat);
    }
}

/// Reading back what was written in base sixteen gives the same bytes.
pub proof fn hex_reads_back(b: Seq<u8>)
    ensures
        whole_hex(hex_bytes(b, b.len())) == Some(b),
{
    lemma_hex_len(b, b.len());
    lemma_reads_back(b, b.len());
    assert(b.take(b.len() as int) =~= b);
}

proof fn lemma_reads_back(b: Seq<u8>, n: nat)
    requires
        n <= b.len(),
    ensures
        pairs(hex_bytes(b, n), n) == Some(b.take(n as int)),
    decreases n,
{
    lemma_hex_len(b, n);
    if n > 0 {
        lemma_hex_len(b, (n - 1) as nat);
        lemma_reads_back(b, (n - 1) as nat);
        lemma_pairs_prefix(hex_bytes(b, n), hex_bytes(b, (n - 1) as nat), (n - 1) as nat);
        let x = b[n - 1];
        lemma_digit(x / 16);
        lemma_digit(x % 16);
        assert(b.take(n as int) =~= b.take(n - 1).push(x));
        assert(16 * (x / 16) + x % 16 == x);
    } else {
        assert(b.take(0) =~= Seq::<u8>::empty());
    }
}

proof fn lemma_hex_text(b: Seq<u8>, n: nat)
    requires
        n <= b.len(),
    ensures
        is_ascii_chars(hex_text(b, n)),
        hex_text(b, n).len() == 2 * n,
        hex_bytes(b, n).len() == 2 * n,
        forall|i: int| 0 <= i < 2 * n ==> #[trigger] hex_text(b, n)[i] as u8 == hex_bytes(b, n)[i],
    decreases n,
{
    if n > 0 {
        lemma_hex_text(b, (n - 1) as nat);
        lemma_digit(b[n - 1] / 16);
        lemma_digit(b[n - 1] % 16);
        let (was, now) = (hex_text(b, (n - 1) as nat), hex_text(b, n));
        assert forall|i: int| 0 <= i < now.len() implies '\0' <= #[trigger] now[i] <= '\u{7f}' by {
            if i < was.len() {
                assert(now[i] == was[i]);
            }
        }
        assert forall|i: int| 0 <= i < 2 * n implies #[trigger] now[i] as u8 == hex_bytes(b, n)[i] by {
            if i < was.len() {
                assert(now[i] == was[i]);
            }
        }
    }
}

/// Bytes written in base sixteen are read back from the text that was written.
pub proof fn hex_text_reads_back(b: Seq<u8>)
    ensures
        whole_hex(encode_utf8(hex_text(b, b.len()))) == Some(b),
{
    lemma_hex_text(b, b.len());
    let t = hex_text(b, b.len());
    is_ascii_chars_encode_utf8(t);
    assert(encode_utf8(t) =~= hex_bytes(b, b.len())) by {
        assert forall|i: int| 0 <= i < t.len() implies encode_utf8(t)[i] == hex_bytes(b, b.len())[i] by {
            assert(t[i] as u8 == encode_utf8(t)[i]);
        }
    }
    hex_reads_back(b);
}

proof fn lemma_pairs(s: Seq<u8>, n: nat)
    requires
        2 * n <= s.len(),
    ensures
        pairs(s, n) is None <==> exists|i: int| 0 <= i < 2 * n && digit_value(#[trigger] s[i]) is None,
    decreases n,
{
    if n > 0 {
        lemma_pairs(s, (n - 1) as nat);
        if pairs(s, n) is None {
            if digit_value(s[2 * n - 2]) is None {
                assert(digit_value(s[2 * n - 2]) is None);
            } else if digit_value(s[2 * n - 1]) is None {
                assert(digit_value(s[2 * n - 1]) is None);
            }
        }
    }
}

/// A text is no bytes in base sixteen exactly when it is an odd number of bytes, or one
/// of them is no digit.
pub proof fn what_is_no_hex(s: Seq<u8>)
    ensures
        whole_hex(s) is None <==> s.len() % 2 != 0 || exists|i: int|
            0 <= i < s.len() && digit_value(#[trigger] s[i]) is None,
{
    if s.len() % 2 == 0 {
        lemma_pairs(s, s.len() / 2);
    }
}

} // verus!
