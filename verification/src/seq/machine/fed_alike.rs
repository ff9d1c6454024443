//! Values that are equal are hashed by the same parts, up to the kind of a number.

use super::equal::{alike, field_alike, numbers_alike, plain_at};
use super::hash::{
    before, each_fed, fed, fields_fed, joined, laid_out, linked, place, placed, then_fed, Fed, PartV,
};
use super::norm::Plain;
use crate::terms::symbol::{text_at, Sym};
use vstd::prelude::*;

verus! {

/// The number a part is, if it is one.
pub open spec fn part_number(p: PartV) -> Option<Plain> {
    match p {
        PartV::Int(n) => Some(Plain::Int(n)),
        PartV::BigInt(n) => Some(Plain::BigInt(n)),
        PartV::Float(b) => Some(Plain::Float(b)),
        PartV::Word(w, b) => Some(Plain::Word(w, b)),
        PartV::Float32(b) => Some(Plain::Float32(b)),
        _ => None,
    }
}

/// Two parts are the same, but for the kind of a number.
pub open spec fn part_alike(p: PartV, q: PartV) -> bool {
    p == q || match (part_number(p), part_number(q)) {
        (Some(x), Some(y)) => numbers_alike(x, y),
        _ => false,
    }
}

/// Two lists of parts are, one by one.
pub open spec fn parts_alike(a: Seq<PartV>, b: Seq<PartV>) -> bool {
    a.len() == b.len() && forall|i: int| 0 <= i < a.len() ==> part_alike(#[trigger] a[i], b[i])
}

/// Where the one has a hash the other does, by parts that are the same but for the kind
/// of a number.
pub open spec fn agree(f: Fed, g: Fed) -> bool {
    f is Ok ==> g is Ok && parts_alike(f->Ok_0, g->Ok_0)
}

/// No record in a value has two fields of one name.
pub open spec fn tidy(v: Plain, names: Seq<Seq<char>>) -> bool
    decreases v,
{
    match v {
        Plain::Vector(xs) => forall|i: int| 0 <= i < xs.len() ==> tidy(#[trigger] xs[i], names),
        Plain::List(xs) => forall|i: int| 0 <= i < xs.len() ==> tidy(#[trigger] xs[i], names),
        Plain::Data(_, xs) => forall|i: int| 0 <= i < xs.len() ==> tidy(#[trigger] xs[i], names),
        Plain::Array(xs) => forall|i: int| 0 <= i < xs.len() ==> tidy(#[trigger] xs[i], names),
        Plain::Record(fs) => distinct(fs, names) && forall|i: int|
            0 <= i < fs.len() ==> field_tidy(#[trigger] fs[i], names),
        Plain::Compact(x) => tidy(*x, names),
        _ => true,
    }
}

pub open spec fn field_tidy(f: (Sym, Plain), names: Seq<Seq<char>>) -> bool
    decreases f,
{
    tidy(f.1, names)
}

pub open spec fn distinct(fs: Seq<(Sym, Plain)>, names: Seq<Seq<char>>) -> bool {
    forall|i: int, j: int|
        0 <= i < j < fs.len() ==> text_at(names, (#[trigger] fs[i]).0) != text_at(names, (#[trigger] fs[j]).0)
}

proof fn lemma_then(a: Fed, b: Fed, c: Fed, d: Fed)
    requires
        agree(a, b),
        agree(c, d),
    ensures
        agree(then_fed(a, c), then_fed(b, d)),
{
}

proof fn lemma_joined(rs: Seq<Fed>, ss: Seq<Fed>, n: nat)
    requires
        n <= rs.len(),
        rs.len() == ss.len(),
        forall|i: int| 0 <= i < rs.len() ==> agree(#[trigger] rs[i], ss[i]),
    ensures
        agree(joined(rs, n), joined(ss, n)),
    decreases n,
{
    if n > 0 {
        lemma_joined(rs, ss, (n - 1) as nat);
        lemma_then(joined(rs, (n - 1) as nat), joined(ss, (n - 1) as nat), rs[n - 1], ss[n - 1]);
    }
}

proof fn lemma_linked(rs: Seq<Fed>, ss: Seq<Fed>, cons: Seq<char>, n: nat)
    requires
        n <= rs.len(),
        rs.len() == ss.len(),
        forall|i: int| 0 <= i < rs.len() ==> agree(#[trigger] rs[i], ss[i]),
    ensures
        agree(linked(rs, cons, n), linked(ss, cons, n)),
    decreases n,
{
    if n > 0 {
        lemma_linked(rs, ss, cons, (n - 1) as nat);
        let one: Fed = Ok(seq![PartV::Data(cons, 2)]);
        let (a, b) = (linked(rs, cons, (n - 1) as nat), linked(ss, cons, (n - 1) as nat));
        lemma_then(a, b, one, one);
        lemma_then(then_fed(a, one), then_fed(b, one), rs[n - 1], ss[n - 1]);
    }
}

// --- the order of labels ---

proof fn lemma_same_code(c: char, d: char)
    requires
        c as u32 == d as u32,
    ensures
        c == d,
{
}

proof fn lemma_total(a: Seq<char>, b: Seq<char>, i: nat)
    requires
        i <= a.len(),
        i <= b.len(),
        forall|j: int| 0 <= j < i ==> a[j] == b[j],
    ensures
        before(a, b, i) || before(b, a, i) || a == b,
    decreases b.len() - i,
{
    if i < a.len() && i < b.len() {
        if a[i as int] as u32 == b[i as int] as u32 {
            lemma_same_code(a[i as int], b[i as int]);
            lemma_total(a, b, i + 1);
        }
    } else if i == a.len() && i == b.len() {
        assert(a =~= b);
    }
}

proof fn lemma_asym(a: Seq<char>, b: Seq<char>, i: nat)
    ensures
        !(before(a, b, i) && before(b, a, i)),
    decreases b.len() - i,
{
    if i < a.len() && i < b.len() {
        lemma_asym(a, b, i + 1);
    }
}

proof fn lemma_trans(a: Seq<char>, b: Seq<char>, c: Seq<char>, i: nat)
    requires
        before(a, b, i),
        before(b, c, i),
    ensures
        before(a, c, i),
    decreases c.len() - i,
{
    if i < a.len() && i < b.len() && i < c.len() && a[i as int] as u32 == b[i as int] as u32 && b[i as int] as u32
        == c[i as int] as u32 {
        lemma_trans(a, b, c, i + 1);
    }
}

type Labelled = (Seq<char>, Fed);

spec fn ascending(s: Seq<Labelled>) -> bool {
    forall|i: int, j: int| 0 <= i < j < s.len() ==> before((#[trigger] s[i]).0, (#[trigger] s[j]).0, 0)
}

proof fn lemma_place(s: Seq<Labelled>, f: Labelled)
    requires
        ascending(s),
        forall|i: int| 0 <= i < s.len() ==> (#[trigger] s[i]).0 != f.0,
    ensures
        ascending(place(s, f)),
        place(s, f).len() == s.len() + 1,
        forall|x: Labelled| #[trigger] place(s, f).contains(x) <==> s.contains(x) || x == f,
    decreases s.len(),
{
    let r = place(s, f);
    if s.len() == 0 || !before(f.0, s.last().0, 0) {
        assert forall|i: int, j: int| 0 <= i < j < r.len() implies before(
            (#[trigger] r[i]).0,
            (#[trigger] r[j]).0,
            0,
        ) by {
            if j == s.len() {
                lemma_total(f.0, s.last().0, 0);
                if i < s.len() - 1 {
                    lemma_trans(s[i].0, s.last().0, f.0, 0);
                }
            }
        }
        assert forall|x: Labelled| #[trigger] r.contains(x) <==> s.contains(x) || x == f by {
            if s.contains(x) {
                let i = s.index_of(x);
                assert(r[i] == x);
            }
            assert(r[s.len() as int] == f);
        }
    } else {
        let short = s.drop_last();
        lemma_place(short, f);
        let m = place(short, f);
        assert(r == m.push(s.last()));
        assert forall|i: int, j: int| 0 <= i < j < r.len() implies before(
            (#[trigger] r[i]).0,
            (#[trigger] r[j]).0,
            0,
        ) by {
            if j == m.len() {
                assert(m.contains(m[i]));
                if m[i] != f {
                    let k = short.index_of(m[i]);
                    assert(s[k] == m[i]);
                }
            }
        }
        assert forall|x: Labelled| #[trigger] r.contains(x) <==> s.contains(x) || x == f by {
            if r.contains(x) {
                let i = r.index_of(x);
                if i < m.len() {
                    assert(m.contains(m[i]));
                    if x != f {
                        let k = short.index_of(x);
                        assert(s[k] == x);
                    }
                } else {
                    assert(s[s.len() - 1] == x);
                }
            }
            if s.contains(x) {
                let i = s.index_of(x);
                if i < short.len() {
                    assert(short[i] == x);
                    assert(m.contains(x));
                    assert(r[m.index_of(x)] == x);
                } else {
                    assert(r[m.len() as int] == x);
                }
            }
            assert(m.contains(f));
            assert(r[m.index_of(f)] == f);
        }
    }
}

proof fn lemma_placed(s: Seq<Labelled>, n: nat)
    requires
        n <= s.len(),
        forall|i: int, j: int| 0 <= i < j < s.len() ==> (#[trigger] s[i]).0 != (#[trigger] s[j]).0,
    ensures
        ascending(placed(s, n)),
        placed(s, n).len() == n,
        forall|x: Labelled| #[trigger] placed(s, n).contains(x) <==> s.take(n as int).contains(x),
    decreases n,
{
    if n > 0 {
        lemma_placed(s, (n - 1) as nat);
        let p = placed(s, (n - 1) as nat);
        let f = s[n - 1];
        assert forall|i: int| 0 <= i < p.len() implies (#[trigger] p[i]).0 != f.0 by {
            assert(p.contains(p[i]));
            let k = s.take(n - 1).index_of(p[i]);
            assert(s[k] == p[i]);
        }
        lemma_place(p, f);
        assert forall|x: Labelled| #[trigger] placed(s, n).contains(x) <==> s.take(n as int).contains(x) by {
            assert(s.take(n as int) =~= s.take(n - 1).push(f));
            if s.take(n - 1).contains(x) {
                assert(s.take(n as int)[s.take(n - 1).index_of(x)] == x);
            }
            assert(s.take(n as int)[n - 1] == f);
            if s.take(n as int).contains(x) {
                let k = s.take(n as int).index_of(x);
                if k < n - 1 {
                    assert(s.take(n - 1)[k] == x);
                }
            }
        }
    }
}

spec fn matched(x: Labelled, y: Labelled) -> bool {
    x.0 == y.0 && agree(x.1, y.1)
}

spec fn has_match(x: Labelled, q: Seq<Labelled>) -> bool {
    exists|j: int| 0 <= j < q.len() && matched(x, #[trigger] q[j])
}

spec fn match_at(x: Labelled, q: Seq<Labelled>) -> int {
    choose|j: int| 0 <= j < q.len() && matched(x, #[trigger] q[j])
}

proof fn lemma_in_step(p: Seq<Labelled>, q: Seq<Labelled>, i: int, j: int)
    requires
        ascending(p),
        ascending(q),
        forall|i: int| 0 <= i < p.len() ==> has_match(#[trigger] p[i], q),
        0 <= i < j < p.len(),
    ensures
        match_at(p[i], q) < match_at(p[j], q),
{
    let (a, b) = (match_at(p[i], q), match_at(p[j], q));
    assert(has_match(p[i], q) && has_match(p[j], q));
    assert(before(p[i].0, p[j].0, 0));
    lemma_asym(p[i].0, p[j].0, 0);
    if b < a {
        assert(before(q[b].0, q[a].0, 0));
    }
}

proof fn lemma_up(p: Seq<Labelled>, q: Seq<Labelled>, i: int)
    requires
        ascending(p),
        ascending(q),
        forall|i: int| 0 <= i < p.len() ==> has_match(#[trigger] p[i], q),
        0 <= i < p.len(),
    ensures
        match_at(p[i], q) >= i,
    decreases i,
{
    assert(has_match(p[i], q));
    if i > 0 {
        lemma_up(p, q, i - 1);
        lemma_in_step(p, q, i - 1, i);
    }
}

proof fn lemma_down(p: Seq<Labelled>, q: Seq<Labelled>, i: int)
    requires
        ascending(p),
        ascending(q),
        p.len() == q.len(),
        forall|i: int| 0 <= i < p.len() ==> has_match(#[trigger] p[i], q),
        0 <= i < p.len(),
    ensures
        match_at(p[i], q) <= i,
    decreases p.len() - i,
{
    assert(has_match(p[i], q));
    if i < p.len() - 1 {
        lemma_down(p, q, i + 1);
        lemma_in_step(p, q, i, i + 1);
    }
}

proof fn lemma_laid_out(p: Seq<Labelled>, q: Seq<Labelled>, n: nat)
    requires
        p.len() == q.len(),
        n <= p.len(),
        forall|i: int| 0 <= i < p.len() ==> matched(#[trigger] p[i], q[i]),
    ensures
        agree(laid_out(p, n), laid_out(q, n)),
    decreases n,
{
    if n > 0 {
        lemma_laid_out(p, q, (n - 1) as nat);
        assert(matched(p[n - 1], q[n - 1]));
        let one: Fed = Ok(seq![PartV::Str(p[n - 1].0)]);
        let (a, b) = (laid_out(p, (n - 1) as nat), laid_out(q, (n - 1) as nat));
        lemma_then(a, b, one, one);
        lemma_then(then_fed(a, one), then_fed(b, one), p[n - 1].1, q[n - 1].1);
    }
}

proof fn lemma_record(x: Seq<Labelled>, y: Seq<Labelled>)
    requires
        x.len() == y.len(),
        forall|i: int, j: int| 0 <= i < j < x.len() ==> (#[trigger] x[i]).0 != (#[trigger] x[j]).0,
        forall|i: int, j: int| 0 <= i < j < y.len() ==> (#[trigger] y[i]).0 != (#[trigger] y[j]).0,
        forall|i: int| 0 <= i < x.len() ==> has_match(#[trigger] x[i], y),
    ensures
        agree(
            laid_out(placed(x, x.len()), placed(x, x.len()).len()),
            laid_out(placed(y, y.len()), placed(y, y.len()).len()),
        ),
{
    let (p, q) = (placed(x, x.len()), placed(y, y.len()));
    lemma_placed(x, x.len());
    lemma_placed(y, y.len());
    assert(x.take(x.len() as int) =~= x);
    assert(y.take(y.len() as int) =~= y);
    assert forall|i: int| 0 <= i < p.len() implies has_match(#[trigger] p[i], q) by {
        assert(p.contains(p[i]));
        let k = x.index_of(p[i]);
        assert(has_match(x[k], y));
        let m = y[match_at(x[k], y)];
        assert(y.contains(m));
        assert(q.contains(m));
        assert(matched(p[i], q[q.index_of(m)]));
    }
    assert forall|i: int| 0 <= i < p.len() implies matched(#[trigger] p[i], q[i]) by {
        lemma_up(p, q, i);
        lemma_down(p, q, i);
        assert(has_match(p[i], q));
    }
    lemma_laid_out(p, q, p.len());
}

// --- values ---

proof fn lemma_each(x: Seq<Plain>, y: Seq<Plain>, names: Seq<Seq<char>>)
    requires
        x.len() == y.len(),
        forall|i: int| 0 <= i < x.len() ==> alike(#[trigger] x[i], y[i]),
        forall|i: int| 0 <= i < x.len() ==> tidy(#[trigger] x[i], names),
        forall|i: int| 0 <= i < y.len() ==> tidy(#[trigger] y[i], names),
    ensures
        each_fed(x, names).len() == x.len(),
        each_fed(y, names).len() == y.len(),
        forall|i: int| 0 <= i < x.len() ==> agree(#[trigger] each_fed(x, names)[i], each_fed(y, names)[i]),
    decreases x,
{
    assert forall|i: int| 0 <= i < x.len() implies agree(
        #[trigger] each_fed(x, names)[i],
        each_fed(y, names)[i],
    ) by {
        assert(decreases_to!(x => x[i]));
        assert(alike(x[i], y[i]));
        assert(tidy(y[i], names));
        equal_values_are_fed_alike(x[i], y[i], names);
    }
}

/// Two values that are equal are hashed by the same parts, but for the kind of a number:
/// vectors by their elements, whatever their shape, and records by their labels, whatever
/// their order.
pub proof fn equal_values_are_fed_alike(a: Plain, b: Plain, names: Seq<Seq<char>>)
    requires
        alike(a, b),
        tidy(a, names),
        tidy(b, names),
    ensures
        agree(fed(a, names), fed(b, names)),
    decreases a,
{
    match (a, b) {
        (Plain::Vector(x), Plain::Vector(y)) => {
            assert(decreases_to!(a => x));
            lemma_each(x, y, names);
            lemma_joined(each_fed(x, names), each_fed(y, names), x.len());
            let one: Fed = Ok(seq![PartV::Vector(x.len())]);
            lemma_then(one, one, joined(each_fed(x, names), x.len()), joined(each_fed(y, names), y.len()));
        },
        (Plain::List(x), Plain::List(y)) => {
            assert(decreases_to!(a => x));
            lemma_each(x, y, names);
            let cons = text_at(names, crate::terms::symbol::LIST_CONS);
            lemma_linked(each_fed(x, names), each_fed(y, names), cons, x.len());
            let end: Fed = Ok(seq![PartV::Data(text_at(names, crate::terms::symbol::LIST_NIL), 0)]);
            lemma_then(
                linked(each_fed(x, names), cons, x.len()),
                linked(each_fed(y, names), cons, y.len()),
                end,
                end,
            );
        },
        (Plain::Data(c, x), Plain::Data(d, y)) => {
            assert(decreases_to!(a => x));
            lemma_each(x, y, names);
            lemma_joined(each_fed(x, names), each_fed(y, names), x.len());
            let one: Fed = Ok(seq![PartV::Data(text_at(names, c), x.len())]);
            lemma_then(one, one, joined(each_fed(x, names), x.len()), joined(each_fed(y, names), y.len()));
        },
        (Plain::Array(x), Plain::Array(y)) => {
            assert(decreases_to!(a => x));
            lemma_each(x, y, names);
            lemma_joined(each_fed(x, names), each_fed(y, names), x.len());
            let one: Fed = Ok(seq![PartV::Array(x.len())]);
            lemma_then(one, one, joined(each_fed(x, names), x.len()), joined(each_fed(y, names), y.len()));
        },
        (Plain::Record(x), Plain::Record(y)) => {
            let (fx, fy) = (fields_fed(x, names), fields_fed(y, names));
            assert forall|i: int| 0 <= i < fx.len() implies has_match(#[trigger] fx[i], fy) by {
                assert(decreases_to!(a => x[i]));
                assert(field_alike(x[i], y));
                assert(field_tidy(x[i], names));
                let k = plain_at(y, x[i].0, 0);
                lemma_found(y, x[i].0, 0);
                assert(field_tidy(y[k as int], names));
                equal_values_are_fed_alike(x[i].1, y[k as int].1, names);
                assert(matched(fx[i], fy[k as int]));
            }
            assert forall|i: int, j: int| 0 <= i < j < fx.len() implies (#[trigger] fx[i]).0 != (#[trigger] fx[j]).0 by {
                assert(text_at(names, x[i].0) != text_at(names, x[j].0));
            }
            assert forall|i: int, j: int| 0 <= i < j < fy.len() implies (#[trigger] fy[i]).0 != (#[trigger] fy[j]).0 by {
                assert(text_at(names, y[i].0) != text_at(names, y[j].0));
            }
            lemma_record(fx, fy);
            let one: Fed = Ok(seq![PartV::Record(x.len())]);
            lemma_then(
                one,
                one,
                laid_out(placed(fx, fx.len()), placed(fx, fx.len()).len()),
                laid_out(placed(fy, fy.len()), placed(fy, fy.len()).len()),
            );
        },
        (Plain::Compact(x), Plain::Compact(y)) => {
            equal_values_are_fed_alike(*x, *y, names);
            let one: Fed = Ok(seq![PartV::Compact]);
            lemma_then(one, one, fed(*x, names), fed(*y, names));
        },
        _ => {},
    }
}

proof fn lemma_found(fs: Seq<(Sym, Plain)>, l: Sym, i: nat)
    requires
        plain_at(fs, l, i) < fs.len(),
    ensures
        fs[plain_at(fs, l, i) as int].0 == l,
    decreases fs.len() - i,
{
    if i < fs.len() && fs[i as int].0 != l {
        lemma_found(fs, l, i + 1);
    }
}

} // verus!
