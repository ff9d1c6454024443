//! What is shown of a value.

use super::elems::{list_ctor, vector_ctor};
use super::equal::word_value;
use super::norm::{norm, norms, Plain};
use super::value::{vals, Value, ValueV};
use crate::eval::shown::{said, PieceV};
use crate::terms::symbol::{self, bare_of, text_at, Sym};
use crate::text::{quoted, quoted_char, signed};
use vstd::prelude::*;

verus! {

/// What has identity: the mutable cells and arrays.
pub struct Heap<'p> {
    pub cells: Vec<Value<'p>>,
    pub arrays: Vec<Vec<Value<'p>>>,
}

/// [`Heap`], as what it is.
pub struct HeapV {
    pub cells: Seq<ValueV>,
    pub arrays: Seq<Seq<ValueV>>,
}

/// Some mutable arrays, as what they are.
pub open spec fn all_vals(xs: Seq<Vec<Value>>) -> Seq<Seq<ValueV>> {
    xs.map_values(|x: Vec<Value>| vals(x@))
}

impl<'p> View for Heap<'p> {
    type V = HeapV;

    open spec fn view(&self) -> HeapV {
        HeapV { cells: vals(self.cells@), arrays: all_vals(self.arrays@) }
    }
}

impl HeapV {
    /// How many places there are. A chain of them that is longer goes round.
    pub open spec fn places(self) -> nat {
        self.cells.len() + self.arrays.len()
    }
}

/// What is shown of the first `n` of some things, with `between` between them.
pub open spec fn parted(parts: Seq<Seq<PieceV>>, between: Seq<char>, n: nat) -> Seq<PieceV>
    decreases n,
{
    if n == 0 || n > parts.len() {
        Seq::empty()
    } else if n == 1 {
        parts[0]
    } else {
        parted(parts, between, (n - 1) as nat) + said(between) + parts[n - 1]
    }
}

pub open spec fn truth(b: bool) -> Seq<char> {
    if b {
        "True"@
    } else {
        "False"@
    }
}

/// A constructor as a reader wants to see it: `Maybe.Just` is shown as `Just`.
pub open spec fn bare(names: Seq<Seq<char>>, c: Sym) -> Seq<char> {
    bare_of(text_at(names, c))
}

/// What each of some values shows.
pub open spec fn each(xs: Seq<Plain>, names: Seq<Seq<char>>, h: HeapV, n: nat) -> Seq<Seq<PieceV>>
    decreases n, xs,
{
    Seq::new(
        xs.len(),
        |i: int|
            if 0 <= i < xs.len() {
                displayed(xs[i], names, h, n)
            } else {
                Seq::empty()
            },
    )
}

/// What each of some fields shows.
pub open spec fn each_field(fs: Seq<(Sym, Plain)>, names: Seq<Seq<char>>, h: HeapV, n: nat) -> Seq<Seq<PieceV>>
    decreases n, fs,
{
    Seq::new(
        fs.len(),
        |i: int|
            if 0 <= i < fs.len() {
                said(text_at(names, fs[i].0)) + said(" = "@) + displayed(fs[i].1, names, h, n)
            } else {
                Seq::empty()
            },
    )
}

/// A value, as it is shown, through no more than `n` places.
pub open spec fn displayed(v: Plain, names: Seq<Seq<char>>, h: HeapV, n: nat) -> Seq<PieceV>
    decreases n, v,
{
    match v {
        Plain::Int(x) => said(signed(x as int)),
        Plain::BigInt(x) => said(signed(x)),
        Plain::Float(b) => seq![PieceV::Float(b)],
        Plain::Word(w, b) => said(signed(word_value(w, b))),
        Plain::Float32(b) => seq![PieceV::Float32(b)],
        Plain::Bool(b) => said(truth(b)),
        Plain::Str(s) => said(quoted(s)),
        Plain::Char(c) => said(quoted_char(c)),
        Plain::Unit => said("()"@),
        Plain::Array(xs) => said("#["@) + parted(each(xs, names, h, n), ", "@, xs.len()) + said("]"@),
        Plain::Record(fs) => said("{ "@) + parted(each_field(fs, names, h, n), ", "@, fs.len()) + said(" }"@),
        Plain::List(xs) => said("["@) + parted(each(xs, names, h, n), "; "@, xs.len()) + said("]"@),
        Plain::Vector(xs) => said("["@) + parted(each(xs, names, h, n), ", "@, xs.len()) + said("]"@),
        Plain::Data(c, xs) => if c == symbol::TUPLE {
            said("("@) + parted(each(xs, names, h, n), ", "@, xs.len()) + said(")"@)
        } else if list_ctor(c) || vector_ctor(c) {
            said(bare(names, c)) + said("(..)"@)
        } else if xs.len() == 0 {
            said(bare(names, c))
        } else {
            said(bare(names, c)) + said("("@) + parted(each(xs, names, h, n), ", "@, xs.len()) + said(")"@)
        },
        Plain::Ref(k) => if n == 0 || k >= h.cells.len() {
            said("ref .."@)
        } else {
            said("ref "@) + displayed(norm(h.cells[k as int]), names, h, (n - 1) as nat)
        },
        Plain::MutArray(k) => if n == 0 || k >= h.arrays.len() {
            said("mut #[..]"@)
        } else {
            said("mut #["@) + parted(
                each(norms(h.arrays[k as int]), names, h, (n - 1) as nat),
                ", "@,
                h.arrays[k as int].len(),
            ) + said("]"@)
        },
        Plain::Obj => said("<closure>"@),
        Plain::Halt => said("<halt>"@),
        Plain::Compact(x) => said("compact "@) + displayed(*x, names, h, n),
    }
}

/// A value, as it is shown.
pub open spec fn shown(v: ValueV, names: Seq<Seq<char>>, h: HeapV) -> Seq<PieceV> {
    displayed(norm(v), names, h, h.places())
}

} // verus!
