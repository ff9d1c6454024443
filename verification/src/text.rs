//! Text as a sequence of characters: the few operations on it that the rest of
//! the library is stated over.

use vstd::prelude::*;

verus! {

/// `String::push` appends one character.
pub assume_specification[ String::push ](s: &mut String, c: char)
    ensures
        final(s)@ == old(s)@.push(c),
;

/// The character that writes `d` in base ten.
pub open spec fn digit(d: nat) -> char {
    ('0' as nat + d) as char
}

/// `n` in base ten, with no leading zero.
pub open spec fn digits(n: nat) -> Seq<char>
    decreases n,
{
    if n < 10 {
        seq![digit(n)]
    } else {
        digits(n / 10).push(digit(n % 10))
    }
}

/// `n` copies of `c`.
pub open spec fn copies(c: char, n: nat) -> Seq<char> {
    Seq::new(n, |i: int| c)
}

/// `s` with spaces before it until it is `width` long.
pub open spec fn flush_right(s: Seq<char>, width: nat) -> Seq<char> {
    if s.len() >= width {
        s
    } else {
        copies(' ', (width - s.len()) as nat) + s
    }
}

/// `t` stands in `s` at `i`.
pub open spec fn stands_at(s: Seq<char>, t: Seq<char>, i: int) -> bool {
    0 <= i && i + t.len() <= s.len() && s.subrange(i, i + t.len()) == t
}

/// `t` stands somewhere in `s`.
pub open spec fn holds(s: Seq<char>, t: Seq<char>) -> bool {
    exists|i: int| stands_at(s, t, i)
}

/// `i` is the first place at which `t` stands in `s`.
pub open spec fn first_at(s: Seq<char>, t: Seq<char>, i: int) -> bool {
    stands_at(s, t, i) && forall|j: int| 0 <= j < i ==> !#[trigger] stands_at(s, t, j)
}

/// The first place at which `t` stands in `s`.
pub open spec fn first(s: Seq<char>, t: Seq<char>) -> Option<int> {
    if holds(s, t) {
        Some(choose|i: int| first_at(s, t, i))
    } else {
        None
    }
}

/// The characters of `s`.
pub fn chars(s: &str) -> (r: Vec<char>)
    ensures
        r@ == s@,
{
    let mut r: Vec<char> = Vec::new();
    for c in it: s.chars()
        invariant
            r@ == it.seq().take(it.index()),
            it.seq() == s@,
    {
        r.push(c);
    }
    r
}

/// The text of some characters.
pub fn text(cs: &[char]) -> (r: String)
    ensures
        r@ == cs@,
{
    let mut r: String = String::new();
    let mut i: usize = 0;
    while i < cs.len()
        invariant
            i <= cs.len(),
            r@ == cs@.take(i as int),
        decreases cs.len() - i,
    {
        r.push(cs[i]);
        proof {
            assert(cs@.take(i + 1) =~= cs@.take(i as int).push(cs@[i as int]));
        }
        i = i + 1;
    }
    proof {
        assert(cs@.take(i as int) =~= cs@);
    }
    r
}

/// Are these the same text?
pub fn same(a: &str, b: &str) -> (r: bool)
    ensures
        r == (a@ == b@),
{
    a.to_owned() == b.to_owned()
}

/// `n` in base ten.
pub fn decimal(n: u64) -> (r: String)
    ensures
        r@ == digits(n as nat),
    decreases n,
{
    let mut s: String = if n < 10 {
        String::new()
    } else {
        decimal(n / 10)
    };
    let d: u8 = (n % 10) as u8;
    s.push((48u8 + d) as char);
    s
}

/// `n` copies of `c`.
pub fn repeat(c: char, n: usize) -> (r: String)
    ensures
        r@ == copies(c, n as nat),
{
    let mut s: String = String::new();
    let mut i: usize = 0;
    while i < n
        invariant
            i <= n,
            s@ == copies(c, i as nat),
        decreases n - i,
    {
        s.push(c);
        proof {
            assert(copies(c, i as nat).push(c) =~= copies(c, (i + 1) as nat));
        }
        i = i + 1;
    }
    s
}

/// `s` with spaces before it until it is `width` long.
pub fn right(s: &str, width: usize) -> (r: String)
    ensures
        r@ == flush_right(s@, width as nat),
{
    let n: usize = s.unicode_len();
    if n >= width {
        s.to_owned()
    } else {
        let mut r: String = repeat(' ', width - n);
        r.append(s);
        r
    }
}

/// Does `t` stand in `s` at `i`?
pub fn is_at(s: &[char], t: &[char], i: usize) -> (r: bool)
    requires
        i <= s@.len(),
    ensures
        r == stands_at(s@, t@, i as int),
{
    let n: usize = s.len();
    if t.len() > n - i {
        return false;
    }
    let mut j: usize = 0;
    while j < t.len()
        invariant
            j <= t@.len(),
            n == s@.len(),
            i + t@.len() <= n,
            forall|k: int| 0 <= k < j ==> s@[i + k] == t@[k],
        decreases t.len() - j,
    {
        if s[i + j] != t[j] {
            assert(s@.subrange(i as int, i + t@.len())[j as int] != t@[j as int]);
            return false;
        }
        j = j + 1;
    }
    assert(s@.subrange(i as int, i + t@.len()) =~= t@);
    true
}

proof fn lemma_first(s: Seq<char>, t: Seq<char>, i: int)
    requires
        first_at(s, t, i),
    ensures
        holds(s, t),
        first(s, t) == Some(i),
{
    let j = choose|j: int| first_at(s, t, j);
    assert(first_at(s, t, j));
    if j < i {
        assert(!stands_at(s, t, j));
    } else if i < j {
        assert(!stands_at(s, t, i));
    }
}

/// The first place at which `t` stands in `s`.
pub fn find(s: &[char], t: &[char]) -> (r: Option<usize>)
    ensures
        match r {
            Some(i) => first(s@, t@) == Some(i as int) && first_at(s@, t@, i as int),
            None => first(s@, t@) is None && !holds(s@, t@),
        },
{
    let mut i: usize = 0;
    while i < s.len()
        invariant
            i <= s@.len(),
            forall|j: int| 0 <= j < i ==> !#[trigger] stands_at(s@, t@, j),
        decreases s.len() - i,
    {
        if is_at(s, t, i) {
            proof {
                lemma_first(s@, t@, i as int);
            }
            return Some(i);
        }
        i = i + 1;
    }
    if is_at(s, t, i) {
        proof {
            lemma_first(s@, t@, i as int);
        }
        Some(i)
    } else {
        None
    }
}

/// The text of each of some strings.
pub open spec fn texts(v: Seq<String>) -> Seq<Seq<char>> {
    v.map_values(|s: String| s@)
}

/// What `s` is cut into at each `at`: the pieces that one ends, and what is
/// left after the last.
pub open spec fn cut(s: Seq<char>, at: char) -> (Seq<Seq<char>>, Seq<char>)
    decreases s.len(),
{
    if s.len() == 0 {
        (Seq::empty(), Seq::empty())
    } else {
        let (done, rest) = cut(s.drop_last(), at);
        if s.last() == at {
            (done.push(rest), Seq::empty())
        } else {
            (done, rest.push(s.last()))
        }
    }
}

/// `parts` one after the other, with `between` between them.
pub open spec fn joined_by(parts: Seq<Seq<char>>, between: char) -> Seq<char>
    decreases parts.len(),
{
    if parts.len() == 0 {
        Seq::empty()
    } else if parts.len() == 1 {
        parts[0]
    } else {
        joined_by(parts.drop_last(), between).push(between) + parts.last()
    }
}

/// What is white space.
pub open spec fn is_space(c: char) -> bool {
    let n = c as u32;
    ||| 9 <= n <= 13
    ||| n == 32
    ||| n == 0x85
    ||| n == 0xA0
    ||| n == 0x1680
    ||| 0x2000 <= n <= 0x200A
    ||| n == 0x2028
    ||| n == 0x2029
    ||| n == 0x202F
    ||| n == 0x205F
    ||| n == 0x3000
}

/// `s` without the white space it starts with.
pub open spec fn trim_start(s: Seq<char>) -> Seq<char>
    decreases s.len(),
{
    if s.len() > 0 && is_space(s[0]) {
        trim_start(s.skip(1))
    } else {
        s
    }
}

/// `s` without the white space it ends with.
pub open spec fn trim_end(s: Seq<char>) -> Seq<char>
    decreases s.len(),
{
    if s.len() > 0 && is_space(s.last()) {
        trim_end(s.drop_last())
    } else {
        s
    }
}

/// Is `c` white space?
pub fn space(c: char) -> (r: bool)
    ensures
        r == is_space(c),
{
    let n: u32 = c as u32;
    (9 <= n && n <= 13) || n == 32 || n == 0x85 || n == 0xA0 || n == 0x1680 || (0x2000 <= n && n <= 0x200A) || n
        == 0x2028 || n == 0x2029 || n == 0x202F || n == 0x205F || n == 0x3000
}

/// Where `s` starts without the white space before it, from `from` on.
pub fn skip_space(s: &[char], from: usize) -> (r: usize)
    requires
        from <= s@.len(),
    ensures
        from <= r <= s@.len(),
        s@.skip(r as int) == trim_start(s@.skip(from as int)),
{
    let mut i: usize = from;
    let n: usize = s.len();
    while i < n && space(s[i])
        invariant
            from <= i <= n,
            n == s@.len(),
            trim_start(s@.skip(i as int)) == trim_start(s@.skip(from as int)),
        decreases n - i,
    {
        proof {
            assert(s@.skip(i as int).skip(1) =~= s@.skip(i + 1));
        }
        i = i + 1;
    }
    i
}

/// Take the white space off the end of `s`.
pub fn drop_trailing_space(s: &mut Vec<char>)
    ensures
        final(s)@ == trim_end(old(s)@),
{
    while s.len() > 0 && space(s[s.len() - 1])
        invariant
            trim_end(s@) == trim_end(old(s)@),
        decreases s.len(),
    {
        s.pop();
    }
}

/// Cut `s` at each `at`.
pub fn pieces(s: &[char], at: char) -> (r: (Vec<String>, String))
    ensures
        texts(r.0@) == cut(s@, at).0,
        r.1@ == cut(s@, at).1,
{
    let mut done: Vec<String> = Vec::new();
    let mut rest: String = String::new();
    let mut i: usize = 0;
    proof {
        assert(texts(done@) =~= Seq::<Seq<char>>::empty());
    }
    while i < s.len()
        invariant
            i <= s@.len(),
            texts(done@) == cut(s@.take(i as int), at).0,
            rest@ == cut(s@.take(i as int), at).1,
        decreases s.len() - i,
    {
        let ghost before = done@;
        proof {
            assert(s@.take(i + 1).drop_last() =~= s@.take(i as int));
        }
        if s[i] == at {
            let ghost piece = rest;
            done.push(rest);
            rest = String::new();
            proof {
                assert(texts(done@) =~= texts(before).push(piece@));
            }
        } else {
            rest.push(s[i]);
        }
        i = i + 1;
    }
    proof {
        assert(s@.take(i as int) =~= s@);
    }
    (done, rest)
}

/// `parts` one after the other, with `between` between them.
pub fn join_with(parts: &[String], between: char) -> (r: String)
    ensures
        r@ == joined_by(texts(parts@), between),
{
    let mut r: String = String::new();
    let mut i: usize = 0;
    proof {
        assert(texts(parts@.take(0)) =~= Seq::<Seq<char>>::empty());
    }
    while i < parts.len()
        invariant
            i <= parts@.len(),
            r@ == joined_by(texts(parts@.take(i as int)), between),
        decreases parts.len() - i,
    {
        proof {
            let before = texts(parts@.take(i as int));
            let now = texts(parts@.take(i + 1));
            assert(now.drop_last() =~= before);
            assert(now.last() == parts@[i as int]@);
            if i == 0 {
                assert(Seq::<char>::empty() + parts@[0]@ =~= parts@[0]@);
            }
        }
        if i > 0 {
            r.push(between);
        }
        r.append(parts[i].as_str());
        i = i + 1;
    }
    proof {
        assert(parts@.take(i as int) =~= parts@);
    }
    r
}

/// Two texts with an `at` between them are cut there, and each as it was.
pub proof fn lemma_cut_append(a: Seq<char>, b: Seq<char>, at: char)
    ensures
        cut(a.push(at) + b, at).0 == cut(a, at).0.push(cut(a, at).1) + cut(b, at).0,
        cut(a.push(at) + b, at).1 == cut(b, at).1,
    decreases b.len(),
{
    let whole = a.push(at) + b;
    if b.len() == 0 {
        assert(whole =~= a.push(at));
        assert(a.push(at).drop_last() =~= a);
        assert(cut(a, at).0.push(cut(a, at).1) + Seq::<Seq<char>>::empty() =~= cut(a, at).0.push(cut(a, at).1));
    } else {
        assert(whole.drop_last() =~= a.push(at) + b.drop_last());
        assert(whole.last() == b.last());
        lemma_cut_append(a, b.drop_last(), at);
        if b.last() == at {
            let done = cut(b.drop_last(), at).0;
            let rest = cut(b.drop_last(), at).1;
            assert(cut(a, at).0.push(cut(a, at).1) + done.push(rest) =~= (cut(a, at).0.push(cut(a, at).1) + done).push(
                rest,
            ));
        }
    }
}

/// Text that does not hold `at` is cut nowhere.
pub proof fn lemma_cut_whole(s: Seq<char>, at: char)
    requires
        !s.contains(at),
    ensures
        cut(s, at) == (Seq::<Seq<char>>::empty(), s),
    decreases s.len(),
{
    if s.len() > 0 {
        assert(s.contains(s.last()));
        assert forall|c: char| s.drop_last().contains(c) implies s.contains(c) by {
            let i = choose|i: int| 0 <= i < s.drop_last().len() && s.drop_last()[i] == c;
            assert(s[i] == c);
        }
        lemma_cut_whole(s.drop_last(), at);
        assert(s.drop_last().push(s.last()) =~= s);
    } else {
        assert(s =~= Seq::<char>::empty());
    }
}

/// Text that ends where it is cut is its pieces, put together again.
pub proof fn lemma_cut_joins(s: Seq<char>, at: char)
    ensures
        cut(s, at).0.len() == 0 ==> s == cut(s, at).1,
        cut(s, at).0.len() > 0 ==> s == joined_by(cut(s, at).0, at).push(at) + cut(s, at).1,
    decreases s.len(),
{
    if s.len() > 0 {
        let (done, rest) = cut(s.drop_last(), at);
        lemma_cut_joins(s.drop_last(), at);
        assert(s =~= s.drop_last().push(s.last()));
        if s.last() == at {
            let all = done.push(rest);
            assert(all.drop_last() =~= done);
            assert(all.last() == rest);
            assert(s =~= joined_by(all, at).push(at) + Seq::<char>::empty());
        } else {
            if done.len() > 0 {
                assert(s =~= joined_by(done, at).push(at) + rest.push(s.last()));
            }
        }
    } else {
        assert(s =~= Seq::<char>::empty());
    }
}

/// A piece holds only what the whole does.
pub proof fn lemma_cut_part(s: Seq<char>, at: char, t: Seq<char>)
    requires
        !holds(s, t),
    ensures
        forall|i: int| 0 <= i < cut(s, at).0.len() ==> !holds(#[trigger] cut(s, at).0[i], t),
        !holds(cut(s, at).1, t),
        exists|k: int| 0 <= k <= s.len() && cut(s, at).1 == #[trigger] s.skip(k),
    decreases s.len(),
{
    if s.len() > 0 {
        let d = s.drop_last();
        assert forall|i: int| !stands_at(d, t, i) by {
            if stands_at(d, t, i) {
                assert(d.subrange(i, i + t.len()) =~= s.subrange(i, i + t.len()));
                assert(stands_at(s, t, i));
            }
        }
        lemma_cut_part(d, at, t);
        let (done, rest) = cut(d, at);
        if s.last() == at {
            assert(Seq::<char>::empty() =~= s.skip(s.len() as int));
            lemma_no_part(s, s.len() as int, t);
        } else {
            let k = choose|k: int| 0 <= k <= d.len() && rest == #[trigger] d.skip(k);
            assert(rest.push(s.last()) =~= s.skip(k));
            lemma_no_part(s, k, t);
        }
    } else {
        assert(Seq::<char>::empty() =~= s.skip(0));
        lemma_no_part(s, 0, t);
    }
}

proof fn lemma_no_part(s: Seq<char>, k: int, t: Seq<char>)
    requires
        !holds(s, t),
        0 <= k <= s.len(),
    ensures
        !holds(s.skip(k), t),
{
    assert forall|i: int| !stands_at(s.skip(k), t, i) by {
        if stands_at(s.skip(k), t, i) {
            assert(s.skip(k).subrange(i, i + t.len()) =~= s.subrange(k + i, k + i + t.len()));
            assert(stands_at(s, t, k + i));
        }
    }
}

/// What `str`'s `Debug` writes for a text: the text in double quotes, with what
/// cannot stand there escaped.
pub uninterp spec fn quoted(s: Seq<char>) -> Seq<char>;

/// What `char`'s `Debug` writes for a character.
pub uninterp spec fn quoted_char(c: char) -> Seq<char>;

/// `format!` with `{:?}` of a `str`: its `Debug` text, which is a function of the
/// text alone.
#[verifier::external_body]
pub(crate) fn quote(s: &str) -> (r: String)
    ensures
        r@ == quoted(s@),
{
    format!("{:?}", s)
}

/// `format!` with `{:?}` of a `char`: its `Debug` text, which is a function of the
/// character alone.
#[verifier::external_body]
pub(crate) fn quote_char(c: char) -> (r: String)
    ensures
        r@ == quoted_char(c),
{
    format!("{:?}", c)
}

/// A number with its sign.
pub open spec fn signed(n: int) -> Seq<char> {
    if n < 0 {
        seq!['-'] + digits((-n) as nat)
    } else {
        digits(n as nat)
    }
}

pub fn signed_decimal(n: i64) -> (r: String)
    ensures
        r@ == signed(n as int),
{
    if n < 0 {
        let m: u64 = (-(n as i128)) as u64;
        let mut r: String = String::new();
        r.push('-');
        r.append(decimal(m).as_str());
        proof {
            assert(r@ =~= seq!['-'] + digits((-(n as int)) as nat));
        }
        r
    } else {
        decimal(n as u64)
    }
}

} // verus!
