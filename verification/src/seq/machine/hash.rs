//! What a value is hashed by: its head, then its parts left to right. The hash of them is
//! made outside.

use super::elems::{
    elements_are_inside, is_vector_ctor, items, items_are_inside, list_items, vector_ctor, vector_elems,
};
use super::equal::{fields_in, list_in, parts_are_inside};
use super::norm::{
    a_list_is_its_items, a_vector_is_its_elements, lemma_norm_record, lemma_norms, norm, norm_fields, norms, Plain,
};
use super::value::{fields, val, vals, value_facts, Value, ValueV};
use crate::terms::big::int_of;
use crate::terms::prim::Width;
use crate::terms::symbol::{self, text_at, Sym, Symbols};
use crate::terms::ty::share;
use std::rc::Rc;
use vstd::prelude::*;

verus! {

broadcast use value_facts;

/// Something a hash is made of.
#[derive(Debug)]
pub enum Part {
    Int(i64),
    /// The bytes of its two's complement.
    BigInt(Rc<Vec<u8>>),
    Float(u64),
    Word(Width, u64),
    Float32(u32),
    Bool(bool),
    Char(char),
    /// A string, or the label of the field that follows.
    Str(String),
    Unit,
    /// A vector of so many elements, and so on down.
    Vector(usize),
    Data(String, usize),
    Array(usize),
    Record(usize),
    Compact,
}

/// [`Part`], as what it is.
pub enum PartV {
    Int(i64),
    BigInt(int),
    Float(u64),
    Word(Width, u64),
    Float32(u32),
    Bool(bool),
    Char(char),
    Str(Seq<char>),
    Unit,
    Vector(nat),
    Data(Seq<char>, nat),
    Array(nat),
    Record(nat),
    Compact,
}

pub open spec fn part(p: Part) -> PartV {
    match p {
        Part::Int(n) => PartV::Int(n),
        Part::BigInt(b) => PartV::BigInt(int_of(b@)),
        Part::Float(b) => PartV::Float(b),
        Part::Word(w, b) => PartV::Word(w, b),
        Part::Float32(b) => PartV::Float32(b),
        Part::Bool(b) => PartV::Bool(b),
        Part::Char(c) => PartV::Char(c),
        Part::Str(s) => PartV::Str(s@),
        Part::Unit => PartV::Unit,
        Part::Vector(n) => PartV::Vector(n as nat),
        Part::Data(s, n) => PartV::Data(s@, n as nat),
        Part::Array(n) => PartV::Array(n as nat),
        Part::Record(n) => PartV::Record(n as nat),
        Part::Compact => PartV::Compact,
    }
}

pub open spec fn parts(ps: Seq<Part>) -> Seq<PartV> {
    ps.map_values(|p: Part| part(p))
}

/// Why a value has no hash.
#[derive(Debug, Clone, Copy, PartialEq, Eq, Structural)]
pub enum Unhashable {
    Ref,
    MutArray,
    Function,
    /// A vector's constructor around something else.
    Vector(Sym),
}

pub type Fed = Result<Seq<PartV>, Unhashable>;

/// One behind another, unless either has no hash.
pub open spec fn then_fed(a: Fed, b: Fed) -> Fed {
    match a {
        Err(e) => Err(e),
        Ok(x) => match b {
            Err(e) => Err(e),
            Ok(y) => Ok(x + y),
        },
    }
}

/// The first `n` of some, in order.
pub open spec fn joined(rs: Seq<Fed>, n: nat) -> Fed
    decreases n,
{
    if n == 0 || n > rs.len() {
        Ok(Seq::empty())
    } else {
        then_fed(joined(rs, (n - 1) as nat), rs[n - 1])
    }
}

/// The first `n` links of a list, each before its item.
pub open spec fn linked(rs: Seq<Fed>, cons: Seq<char>, n: nat) -> Fed
    decreases n,
{
    if n == 0 || n > rs.len() {
        Ok(Seq::empty())
    } else {
        then_fed(then_fed(linked(rs, cons, (n - 1) as nat), Ok(seq![PartV::Data(cons, 2)])), rs[n - 1])
    }
}

/// Does one text come before another, from character `i` on?
pub open spec fn before(a: Seq<char>, b: Seq<char>, i: nat) -> bool
    decreases b.len() - i,
{
    if i >= b.len() {
        false
    } else if i >= a.len() {
        true
    } else if a[i as int] as u32 != b[i as int] as u32 {
        (a[i as int] as u32) < b[i as int] as u32
    } else {
        before(a, b, i + 1)
    }
}

/// A field among others, in the order of their labels.
pub open spec fn place(s: Seq<(Seq<char>, Fed)>, f: (Seq<char>, Fed)) -> Seq<(Seq<char>, Fed)>
    decreases s.len(),
{
    if s.len() == 0 || !before(f.0, s.last().0, 0) {
        s.push(f)
    } else {
        place(s.drop_last(), f).push(s.last())
    }
}

/// The first `n` fields, in the order of their labels.
pub open spec fn placed(s: Seq<(Seq<char>, Fed)>, n: nat) -> Seq<(Seq<char>, Fed)>
    decreases n,
{
    if n == 0 || n > s.len() {
        Seq::empty()
    } else {
        place(placed(s, (n - 1) as nat), s[n - 1])
    }
}

/// The first `n` fields, each label before its value.
pub open spec fn laid_out(s: Seq<(Seq<char>, Fed)>, n: nat) -> Fed
    decreases n,
{
    if n == 0 || n > s.len() {
        Ok(Seq::empty())
    } else {
        then_fed(then_fed(laid_out(s, (n - 1) as nat), Ok(seq![PartV::Str(s[n - 1].0)])), s[n - 1].1)
    }
}

pub open spec fn each_fed(xs: Seq<Plain>, names: Seq<Seq<char>>) -> Seq<Fed>
    decreases xs,
{
    Seq::new(
        xs.len(),
        |i: int|
            if 0 <= i < xs.len() {
                fed(xs[i], names)
            } else {
                arbitrary()
            },
    )
}

pub open spec fn fields_fed(fs: Seq<(Sym, Plain)>, names: Seq<Seq<char>>) -> Seq<(Seq<char>, Fed)>
    decreases fs,
{
    Seq::new(
        fs.len(),
        |i: int|
            if 0 <= i < fs.len() {
                (text_at(names, fs[i].0), fed(fs[i].1, names))
            } else {
                arbitrary()
            },
    )
}

/// What a value is hashed by.
pub open spec fn fed(v: Plain, names: Seq<Seq<char>>) -> Fed
    decreases v,
{
    match v {
        Plain::Int(n) => Ok(seq![PartV::Int(n)]),
        Plain::BigInt(n) => Ok(seq![PartV::BigInt(n)]),
        Plain::Float(b) => Ok(seq![PartV::Float(b)]),
        Plain::Word(w, b) => Ok(seq![PartV::Word(w, b)]),
        Plain::Float32(b) => Ok(seq![PartV::Float32(b)]),
        Plain::Bool(b) => Ok(seq![PartV::Bool(b)]),
        Plain::Str(s) => Ok(seq![PartV::Str(s)]),
        Plain::Char(c) => Ok(seq![PartV::Char(c)]),
        Plain::Unit => Ok(seq![PartV::Unit]),
        Plain::Vector(xs) => then_fed(Ok(seq![PartV::Vector(xs.len())]), joined(each_fed(xs, names), xs.len())),
        Plain::List(xs) => then_fed(
            linked(each_fed(xs, names), text_at(names, symbol::LIST_CONS), xs.len()),
            Ok(seq![PartV::Data(text_at(names, symbol::LIST_NIL), 0)]),
        ),
        Plain::Data(c, xs) => if vector_ctor(c) {
            Err(Unhashable::Vector(c))
        } else {
            then_fed(Ok(seq![PartV::Data(text_at(names, c), xs.len())]), joined(each_fed(xs, names), xs.len()))
        },
        Plain::Array(xs) => then_fed(Ok(seq![PartV::Array(xs.len())]), joined(each_fed(xs, names), xs.len())),
        Plain::Record(fs) => then_fed(
            Ok(seq![PartV::Record(fs.len())]),
            laid_out(placed(fields_fed(fs, names), fs.len()), placed(fields_fed(fs, names), fs.len()).len()),
        ),
        Plain::Ref(_) => Err(Unhashable::Ref),
        Plain::MutArray(_) => Err(Unhashable::MutArray),
        Plain::Obj => Err(Unhashable::Function),
        Plain::Halt => Err(Unhashable::Function),
        Plain::Compact(x) => then_fed(Ok(seq![PartV::Compact]), fed(*x, names)),
    }
}

/// What came out is what was wanted.
pub open spec fn is_fed(r: Result<Vec<Part>, Unhashable>, want: Fed) -> bool {
    match (r, want) {
        (Ok(ps), Ok(w)) => parts(ps@) == w,
        (Err(e), Err(w)) => e == w,
        _ => false,
    }
}

fn one(p: Part) -> (r: Result<Vec<Part>, Unhashable>)
    ensures
        is_fed(r, Ok(seq![part(p)])),
{
    let mut v: Vec<Part> = Vec::new();
    v.push(p);
    proof {
        assert(parts(v@) =~= seq![part(p)]);
    }
    Ok(v)
}

/// One behind another.
fn and_then_fed(
    a: Result<Vec<Part>, Unhashable>,
    b: Result<Vec<Part>, Unhashable>,
    Ghost(x): Ghost<Fed>,
    Ghost(y): Ghost<Fed>,
) -> (r: Result<Vec<Part>, Unhashable>)
    requires
        is_fed(a, x),
        is_fed(b, y),
    ensures
        is_fed(r, then_fed(x, y)),
{
    match a {
        Err(e) => Err(e),
        Ok(a) => match b {
            Err(e) => Err(e),
            Ok(b) => {
                let (mut a, mut b) = (a, b);
                let ghost (p, q) = (a@, b@);
                a.append(&mut b);
                proof {
                    assert(parts(a@) =~= parts(p) + parts(q));
                }
                Ok(a)
            },
        },
    }
}

fn nothing() -> (r: Result<Vec<Part>, Unhashable>)
    ensures
        is_fed(r, Ok(Seq::empty())),
{
    let v: Vec<Part> = Vec::new();
    proof {
        assert(parts(v@) =~= Seq::<PartV>::empty());
    }
    Ok(v)
}

/// What the first `n` of some values are hashed by. `a` is what they are parts of.
fn feed_first(Ghost(a): Ghost<ValueV>, xs: &Vec<Value<'_>>, n: usize, names: &Symbols) -> (r: Result<
    Vec<Part>,
    Unhashable,
>)
    requires
        forall|i: int| 0 <= i < xs@.len() ==> decreases_to!(a => #[trigger] vals(xs@)[i]),
        n <= xs@.len(),
    ensures
        is_fed(r, joined(each_fed(norms(vals(xs@)), names@), n as nat)),
    decreases a, 0nat,
{
    let ghost all = each_fed(norms(vals(xs@)), names@);
    let mut r: Result<Vec<Part>, Unhashable> = nothing();
    let mut i: usize = 0;
    while i < n
        invariant
            i <= n <= xs@.len(),
            all == each_fed(norms(vals(xs@)), names@),
            forall|i: int| 0 <= i < xs@.len() ==> decreases_to!(a => #[trigger] vals(xs@)[i]),
            is_fed(r, joined(all, i as nat)),
        decreases n - i,
    {
        assert(decreases_to!(a => vals(xs@)[i as int]));
        assert(vals(xs@)[i as int] == val(xs@[i as int]));
        assert(norms(vals(xs@))[i as int] == norm(val(xs@[i as int])));
        let next: Result<Vec<Part>, Unhashable> = feed(&xs[i], names);
        r = and_then_fed(r, next, Ghost(joined(all, i as nat)), Ghost(all[i as int]));
        i = i + 1;
    }
    r
}

/// Some values, in order. `a` is what they are parts of.
fn feed_all(Ghost(a): Ghost<ValueV>, xs: &Vec<Value<'_>>, names: &Symbols) -> (r: Result<Vec<Part>, Unhashable>)
    requires
        forall|i: int| 0 <= i < xs@.len() ==> decreases_to!(a => #[trigger] vals(xs@)[i]),
    ensures
        is_fed(r, joined(each_fed(norms(vals(xs@)), names@), xs@.len())),
    decreases a, 1nat,
{
    feed_first(Ghost(a), xs, xs.len(), names)
}

/// A list's links and items.
fn feed_links(Ghost(a): Ghost<ValueV>, xs: &Vec<Value<'_>>, names: &Symbols) -> (r: Result<Vec<Part>, Unhashable>)
    requires
        forall|i: int| 0 <= i < xs@.len() ==> decreases_to!(a => #[trigger] vals(xs@)[i]),
    ensures
        is_fed(r, linked(each_fed(norms(vals(xs@)), names@), text_at(names@, symbol::LIST_CONS), xs@.len())),
    decreases a, 0nat,
{
    let ghost all = each_fed(norms(vals(xs@)), names@);
    let ghost cons = text_at(names@, symbol::LIST_CONS);
    let mut r: Result<Vec<Part>, Unhashable> = nothing();
    let mut i: usize = 0;
    while i < xs.len()
        invariant
            i <= xs@.len(),
            all == each_fed(norms(vals(xs@)), names@),
            cons == text_at(names@, symbol::LIST_CONS),
            forall|i: int| 0 <= i < xs@.len() ==> decreases_to!(a => #[trigger] vals(xs@)[i]),
            is_fed(r, linked(all, cons, i as nat)),
        decreases xs@.len() - i,
    {
        assert(decreases_to!(a => vals(xs@)[i as int]));
        assert(vals(xs@)[i as int] == val(xs@[i as int]));
        assert(norms(vals(xs@))[i as int] == norm(val(xs@[i as int])));
        let ghost was = linked(all, cons, i as nat);
        let ghost link: Fed = Ok(seq![PartV::Data(cons, 2)]);
        let head: Result<Vec<Part>, Unhashable> = one(Part::Data(names.text(symbol::LIST_CONS), 2));
        r = and_then_fed(r, head, Ghost(was), Ghost(link));
        let next: Result<Vec<Part>, Unhashable> = feed(&xs[i], names);
        r = and_then_fed(r, next, Ghost(then_fed(was, link)), Ghost(all[i as int]));
        i = i + 1;
    }
    r
}

fn comes_before(a: &str, b: &str) -> (r: bool)
    ensures
        r == before(a@, b@, 0),
{
    let (x, y) = (crate::text::chars(a), crate::text::chars(b));
    let mut i: usize = 0;
    while i < y.len() && i < x.len() && x[i] as u32 == y[i] as u32
        invariant
            i <= x@.len(),
            i <= y@.len(),
            x@ == a@,
            y@ == b@,
            before(a@, b@, 0) == before(a@, b@, i as nat),
        decreases y@.len() - i,
    {
        i = i + 1;
    }
    if i >= y.len() {
        false
    } else if i >= x.len() {
        true
    } else {
        (x[i] as u32) < y[i] as u32
    }
}

/// A field's label, and what its value is hashed by.
struct Field {
    label: String,
    made: Result<Vec<Part>, Unhashable>,
}

spec fn is_field(f: Field, w: (Seq<char>, Fed)) -> bool {
    f.label@ == w.0 && is_fed(f.made, w.1)
}

spec fn are_fields(fs: Seq<Field>, ws: Seq<(Seq<char>, Fed)>) -> bool {
    fs.len() == ws.len() && forall|i: int| 0 <= i < fs.len() ==> is_field(#[trigger] fs[i], ws[i])
}

fn put_field(fs: Vec<Field>, f: Field, Ghost(ws): Ghost<Seq<(Seq<char>, Fed)>>, Ghost(w): Ghost<(Seq<char>, Fed)>) -> (r:
    Vec<Field>)
    requires
        are_fields(fs@, ws),
        is_field(f, w),
    ensures
        are_fields(r@, place(ws, w)),
    decreases fs@.len(),
{
    let mut fs: Vec<Field> = fs;
    let n: usize = fs.len();
    if n == 0 || !comes_before(f.label.as_str(), fs[n - 1].label.as_str()) {
        proof {
            if n > 0 {
                assert(is_field(fs@[n - 1], ws[n - 1]));
            }
        }
        fs.push(f);
        fs
    } else {
        proof {
            assert(is_field(fs@[n - 1], ws[n - 1]));
        }
        let last: Field = fs.pop().unwrap();
        let mut r: Vec<Field> = put_field(fs, f, Ghost(ws.drop_last()), Ghost(w));
        r.push(last);
        r
    }
}

/// A record's fields, in the order of their labels.
fn feed_fields(Ghost(a): Ghost<ValueV>, fs: &Vec<(Sym, Value<'_>)>, names: &Symbols) -> (r: Result<
    Vec<Part>,
    Unhashable,
>)
    requires
        forall|i: int| 0 <= i < fs@.len() ==> decreases_to!(a => (#[trigger] fields(fs@)[i]).1),
    ensures
        ({
            let ws = fields_fed(norm_fields(fields(fs@)), names@);
            is_fed(r, laid_out(placed(ws, fs@.len()), placed(ws, fs@.len()).len()))
        }),
    decreases a, 0nat,
{
    let ghost ws = fields_fed(norm_fields(fields(fs@)), names@);
    let mut sorted: Vec<Field> = Vec::new();
    let mut i: usize = 0;
    while i < fs.len()
        invariant
            i <= fs@.len(),
            ws == fields_fed(norm_fields(fields(fs@)), names@),
            forall|i: int| 0 <= i < fs@.len() ==> decreases_to!(a => (#[trigger] fields(fs@)[i]).1),
            are_fields(sorted@, placed(ws, i as nat)),
        decreases fs@.len() - i,
    {
        assert(decreases_to!(a => fields(fs@)[i as int].1));
        assert(fields(fs@)[i as int] == (fs@[i as int].0, val(fs@[i as int].1)));
        assert(norm_fields(fields(fs@))[i as int] == (fs@[i as int].0, norm(val(fs@[i as int].1))));
        let made: Result<Vec<Part>, Unhashable> = feed(&fs[i].1, names);
        let f: Field = Field { label: names.text(fs[i].0), made };
        sorted = put_field(sorted, f, Ghost(placed(ws, i as nat)), Ghost(ws[i as int]));
        i = i + 1;
    }
    let ghost order = placed(ws, fs@.len());
    let mut back: Vec<Field> = Vec::new();
    let n: usize = sorted.len();
    while sorted.len() > 0
        invariant
            n == order.len(),
            sorted@.len() + back@.len() == n,
            forall|k: int| 0 <= k < sorted@.len() ==> is_field(#[trigger] sorted@[k], order[k]),
            forall|k: int| 0 <= k < back@.len() ==> is_field(#[trigger] back@[k], order[n - 1 - k]),
        decreases sorted@.len(),
    {
        let ghost was = sorted@;
        let f: Field = sorted.pop().unwrap();
        proof {
            assert(is_field(was[was.len() - 1], order[was.len() - 1]));
        }
        back.push(f);
    }
    let mut r: Result<Vec<Part>, Unhashable> = nothing();
    let mut k: usize = 0;
    while k < n
        invariant
            k <= n,
            n == order.len(),
            back@.len() == n - k,
            forall|j: int| 0 <= j < back@.len() ==> is_field(#[trigger] back@[j], order[n - 1 - j]),
            is_fed(r, laid_out(order, k as nat)),
        decreases n - k,
    {
        let ghost was = back@;
        let f: Field = back.pop().unwrap();
        proof {
            assert(is_field(was[was.len() - 1], order[k as int]));
        }
        let ghost so_far = laid_out(order, k as nat);
        let ghost label: Fed = Ok(seq![PartV::Str(order[k as int].0)]);
        r = and_then_fed(r, one(Part::Str(f.label)), Ghost(so_far), Ghost(label));
        r = and_then_fed(r, f.made, Ghost(then_fed(so_far, label)), Ghost(order[k as int].1));
        k = k + 1;
    }
    r
}

/// Data with fields whose constructor is neither a vector's nor a list's: what is left
/// behind all but the last is the last.
fn goes_on(v: &Value<'_>) -> (r: bool)
    ensures
        r == links(val(*v)),
{
    match v {
        Value::Data(c, _, xs) => !is_vector_ctor(*c) && xs.len() > 0 && list_items(v).is_none(),
        _ => false,
    }
}

spec fn links(v: ValueV) -> bool {
    match v {
        ValueV::Data(c, _, xs) => !vector_ctor(c) && xs.len() > 0 && items(v) is None,
        _ => false,
    }
}

proof fn lemma_then_then(a: Fed, b: Fed, c: Fed)
    ensures
        then_fed(a, then_fed(b, c)) == then_fed(then_fed(a, b), c),
        then_fed(Ok(Seq::empty()), a) == a,
{
    if let (Ok(x), Ok(y), Ok(z)) = (a, b, c) {
        assert(x + (y + z) =~= (x + y) + z);
    }
    if let Ok(x) = a {
        assert(Seq::<PartV>::empty() + x =~= x);
    }
}

/// What a value is hashed by, or why it has no hash. A chain is followed along its last
/// fields, however long it is.
pub fn feed(v: &Value<'_>, names: &Symbols) -> (r: Result<Vec<Part>, Unhashable>)
    ensures
        is_fed(r, fed(norm(val(*v)), names@)),
    decreases val(*v), 4nat,
{
    let mut p: &Value<'_> = v;
    let mut r: Result<Vec<Part>, Unhashable> = nothing();
    let ghost mut done: Fed = Ok(Seq::empty());
    proof {
        lemma_then_then(fed(norm(val(*v)), names@), done, done);
    }
    while goes_on(p)
        invariant
            is_fed(r, done),
            then_fed(done, fed(norm(val(*p)), names@)) == fed(norm(val(*v)), names@),
            val(*p) == val(*v) || decreases_to!(val(*v) => val(*p)),
        decreases val(*p),
    {
        proof {
            parts_are_inside(val(*p));
            a_list_is_its_items(val(*p));
        }
        match p {
            Value::Data(c, _, xs) => {
                let c: Sym = *c;
                let last: usize = xs.len() - 1;
                let ghost all = each_fed(norms(vals(xs@)), names@);
                let ghost top: Fed = Ok(seq![PartV::Data(text_at(names@, c), xs@.len())]);
                let ghost rest = joined(all, last as nat);
                proof {
                    lemma_norms(vals(xs@));
                    assert(list_in(val(*p)) == vals(xs@));
                    assert(forall|i: int| 0 <= i < xs@.len() ==> decreases_to!(val(*p) => #[trigger] vals(xs@)[i]));
                    assert(vals(xs@)[last as int] == val(xs@[last as int]));
                    assert(norms(vals(xs@))[last as int] == norm(val(xs@[last as int])));
                    assert(decreases_to!(val(*p) => vals(xs@)[last as int]));
                    let end = fed(norm(val(xs@[last as int])), names@);
                    assert(all[last as int] == end);
                    assert(joined(all, xs@.len()) == then_fed(rest, end));
                    assert(fed(norm(val(*p)), names@) == then_fed(top, then_fed(rest, end)));
                    lemma_then_then(top, rest, end);
                    lemma_then_then(done, then_fed(top, rest), end);
                }
                let head: Result<Vec<Part>, Unhashable> = one(Part::Data(names.text(c), xs.len()));
                let front: Result<Vec<Part>, Unhashable> = feed_first(Ghost(val(*p)), xs, last, names);
                let both: Result<Vec<Part>, Unhashable> = and_then_fed(head, front, Ghost(top), Ghost(rest));
                r = and_then_fed(r, both, Ghost(done), Ghost(then_fed(top, rest)));
                proof {
                    done = then_fed(done, then_fed(top, rest));
                }
                p = &xs[last];
            },
            _ => {},
        }
    }
    let end: Result<Vec<Part>, Unhashable> = feed_one(p, names);
    and_then_fed(r, end, Ghost(done), Ghost(fed(norm(val(*p)), names@)))
}

fn feed_one(v: &Value<'_>, names: &Symbols) -> (r: Result<Vec<Part>, Unhashable>)
    ensures
        is_fed(r, fed(norm(val(*v)), names@)),
    decreases val(*v), 3nat,
{
    proof {
        elements_are_inside(val(*v));
        items_are_inside(val(*v));
        parts_are_inside(val(*v));
        a_vector_is_its_elements(val(*v));
        a_list_is_its_items(val(*v));
    }
    match v {
        Value::Int(n) => one(Part::Int(*n)),
        Value::BigInt(b) => one(Part::BigInt(share(b))),
        Value::Float(b) => one(Part::Float(*b)),
        Value::Word(w, b) => one(Part::Word(*w, *b)),
        Value::Float32(b) => one(Part::Float32(*b)),
        Value::Bool(b) => one(Part::Bool(*b)),
        Value::Char(c) => one(Part::Char(*c)),
        Value::Str(s) => one(Part::Str(s.as_str().to_owned())),
        Value::Unit => one(Part::Unit),
        Value::Array(xs) => {
            proof {
                lemma_norms(vals(xs@));
                assert(list_in(val(*v)) == vals(xs@));
            }
            let ghost rest = joined(each_fed(norms(vals(xs@)), names@), xs@.len());
            let head: Result<Vec<Part>, Unhashable> = one(Part::Array(xs.len()));
            let tail: Result<Vec<Part>, Unhashable> = feed_all(Ghost(val(*v)), xs, names);
            and_then_fed(head, tail, Ghost(Ok(seq![PartV::Array(xs@.len())])), Ghost(rest))
        },
        Value::Record(fs) => {
            proof {
                lemma_norm_record(fields(fs@));
                assert(fields_in(val(*v)) == fields(fs@));
            }
            let ghost ws = fields_fed(norm_fields(fields(fs@)), names@);
            let ghost rest = laid_out(placed(ws, fs@.len()), placed(ws, fs@.len()).len());
            let head: Result<Vec<Part>, Unhashable> = one(Part::Record(fs.len()));
            let tail: Result<Vec<Part>, Unhashable> = feed_fields(Ghost(val(*v)), fs, names);
            and_then_fed(head, tail, Ghost(Ok(seq![PartV::Record(fs@.len())])), Ghost(rest))
        },
        Value::Data(_, _, _) => feed_data(v, names),
        Value::Ref(_) => Err(Unhashable::Ref),
        Value::MutArray(_) => Err(Unhashable::MutArray),
        Value::Obj(_, _) => Err(Unhashable::Function),
        Value::Halt => Err(Unhashable::Function),
        Value::Compact(x, _) => {
            assert(decreases_to!(val(*v) => val(**x)));
            let ghost rest = fed(*(norm(val(*v))->Compact_0), names@);
            let head: Result<Vec<Part>, Unhashable> = one(Part::Compact);
            let tail: Result<Vec<Part>, Unhashable> = feed(&**x, names);
            and_then_fed(head, tail, Ghost(Ok(seq![PartV::Compact])), Ghost(rest))
        },
    }
}

#[verifier::rlimit(60)]
fn feed_data(v: &Value<'_>, names: &Symbols) -> (r: Result<Vec<Part>, Unhashable>)
    requires
        val(*v) is Data,
    ensures
        is_fed(r, fed(norm(val(*v)), names@)),
    decreases val(*v), 2nat,
{
    proof {
        elements_are_inside(val(*v));
        items_are_inside(val(*v));
        parts_are_inside(val(*v));
        a_vector_is_its_elements(val(*v));
        a_list_is_its_items(val(*v));
    }
    match v {
        Value::Data(c, _, xs) => {
            let c: Sym = *c;
            if is_vector_ctor(c) {
                match vector_elems(v) {
                    Some(ys) => {
                        proof {
                            lemma_norms(vals(ys@));
                        }
                        let ghost rest = joined(each_fed(norms(vals(ys@)), names@), ys@.len());
                        let head: Result<Vec<Part>, Unhashable> = one(Part::Vector(ys.len()));
                        let tail: Result<Vec<Part>, Unhashable> = feed_all(Ghost(val(*v)), &ys, names);
                        and_then_fed(head, tail, Ghost(Ok(seq![PartV::Vector(ys@.len())])), Ghost(rest))
                    },
                    None => Err(Unhashable::Vector(c)),
                }
            } else {
                match list_items(v) {
                    Some(ys) => {
                        proof {
                            lemma_norms(vals(ys@));
                        }
                        let ghost cons = text_at(names@, symbol::LIST_CONS);
                        let ghost links = linked(each_fed(norms(vals(ys@)), names@), cons, ys@.len());
                        let ghost end: Fed = Ok(seq![PartV::Data(text_at(names@, symbol::LIST_NIL), 0)]);
                        let head: Result<Vec<Part>, Unhashable> = feed_links(Ghost(val(*v)), &ys, names);
                        let tail: Result<Vec<Part>, Unhashable> = one(Part::Data(names.text(symbol::LIST_NIL), 0));
                        and_then_fed(head, tail, Ghost(links), Ghost(end))
                    },
                    None => {
                        proof {
                            lemma_norms(vals(xs@));
                            assert(list_in(val(*v)) == vals(xs@));
                        }
                        let ghost rest = joined(each_fed(norms(vals(xs@)), names@), xs@.len());
                        let ghost top: Fed = Ok(seq![PartV::Data(text_at(names@, c), xs@.len())]);
                        let head: Result<Vec<Part>, Unhashable> = one(Part::Data(names.text(c), xs.len()));
                        let tail: Result<Vec<Part>, Unhashable> = feed_all(Ghost(val(*v)), xs, names);
                        and_then_fed(head, tail, Ghost(top), Ghost(rest))
                    },
                }
            }
        },
        _ => Err(Unhashable::Function),
    }
}

} // verus!
