//! What is shown of a value.

use super::elems::vector_ctor;
use super::norm::{norm, Plain};
use super::term::Prim;
use super::value::ValueV;
use crate::terms::symbol::{text_at, Sym};
use crate::text::{quoted, signed};
use vstd::prelude::*;

verus! {

/// A piece of what is shown: text, or a float, whose digits are not made here.
#[derive(Debug)]
pub enum Piece {
    Text(String),
    /// A float, as its bits.
    Float(u64),
    /// A float of 32 bits, as them.
    Float32(u32),
}

/// A piece of what is shown, as what it is.
pub enum PieceV {
    Text(Seq<char>),
    Float(u64),
    Float32(u32),
}

impl View for Piece {
    type V = PieceV;

    open spec fn view(&self) -> PieceV {
        match self {
            Piece::Text(s) => PieceV::Text(s@),
            Piece::Float(b) => PieceV::Float(*b),
            Piece::Float32(b) => PieceV::Float32(*b),
        }
    }
}

pub open spec fn pieces(ps: Seq<Piece>) -> Seq<PieceV> {
    ps.map_values(|p: Piece| p@)
}

/// Text, as what is shown.
pub open spec fn said(s: Seq<char>) -> Seq<PieceV> {
    seq![PieceV::Text(s)]
}

/// The text of the first `n` of some pieces.
pub open spec fn text_of(ps: Seq<PieceV>, n: nat) -> Seq<char>
    decreases n,
{
    if n == 0 || n > ps.len() {
        Seq::empty()
    } else {
        match ps[n - 1] {
            PieceV::Text(s) => text_of(ps, (n - 1) as nat) + s,
            _ => text_of(ps, (n - 1) as nat),
        }
    }
}

/// What is shown of the first `n` of some things, with a comma between them.
pub open spec fn listed(parts: Seq<Seq<PieceV>>, n: nat) -> Seq<PieceV>
    decreases n,
{
    if n == 0 || n > parts.len() {
        Seq::empty()
    } else if n == 1 {
        parts[0]
    } else {
        listed(parts, (n - 1) as nat) + said(", "@) + parts[n - 1]
    }
}

pub open spec fn truth(b: bool) -> Seq<char> {
    if b {
        "true"@
    } else {
        "false"@
    }
}

/// What each of some values shows.
pub open spec fn each(xs: Seq<Plain>, names: Seq<Seq<char>>) -> Seq<Seq<PieceV>>
    decreases xs,
{
    Seq::new(
        xs.len(),
        |i: int|
            if 0 <= i < xs.len() {
                displayed(xs[i], names)
            } else {
                Seq::empty()
            },
    )
}

/// What each of some fields shows.
pub open spec fn each_field(fs: Seq<(Sym, Plain)>, names: Seq<Seq<char>>) -> Seq<Seq<PieceV>>
    decreases fs,
{
    Seq::new(
        fs.len(),
        |i: int|
            if 0 <= i < fs.len() {
                said(text_at(names, fs[i].0)) + said(" = "@) + displayed(fs[i].1, names)
            } else {
                Seq::empty()
            },
    )
}

/// A value, as it is shown.
pub open spec fn displayed(v: Plain, names: Seq<Seq<char>>) -> Seq<PieceV>
    decreases v,
{
    match v {
        Plain::Int(n) => said(signed(n as int)),
        Plain::BigInt(n) => said(signed(n)),
        Plain::Float(b) => seq![PieceV::Float(b)],
        Plain::Bool(b) => said(truth(b)),
        Plain::Str(s) => said(quoted(s)),
        Plain::Unit => said("()"@),
        Plain::Tuple(xs) => said("("@) + listed(each(xs, names), xs.len()) + said(")"@),
        Plain::Array(xs) => said("#["@) + listed(each(xs, names), xs.len()) + said("]"@),
        Plain::List(xs) => said("["@) + listed(each(xs, names), xs.len()) + said("]"@),
        Plain::Vector(xs) => said("["@) + listed(each(xs, names), xs.len()) + said("]"@),
        Plain::Record(fs) => said("{ "@) + listed(each_field(fs, names), fs.len()) + said(" }"@),
        Plain::Ctor(c, xs) => if vector_ctor(c) {
            said(text_at(names, c)) + said("(..)"@)
        } else if xs.len() == 0 {
            said(text_at(names, c))
        } else {
            said(text_at(names, c)) + said("("@) + listed(each(xs, names), xs.len()) + said(")"@)
        },
        Plain::Closure => said("<closure>"@),
        Plain::Builtin(op) => said("<builtin "@) + said(prim_name(op)) + said(">"@),
        Plain::Cont => said("<continuation>"@),
    }
}

/// A value, as it is shown. Vectors are shown as the elements they hold.
pub open spec fn shown(v: ValueV, names: Seq<Seq<char>>) -> Seq<PieceV> {
    displayed(norm(v), names)
}

/// The name of a primitive.
pub open spec fn prim_name(op: Prim) -> Seq<char> {
    match op {
        Prim::Add => "Add"@,
        Prim::Sub => "Sub"@,
        Prim::Mul => "Mul"@,
        Prim::Div => "Div"@,
        Prim::Mod => "Mod"@,
        Prim::Pow => "Pow"@,
        Prim::Lt => "Lt"@,
        Prim::Gt => "Gt"@,
        Prim::Le => "Le"@,
        Prim::Ge => "Ge"@,
        Prim::AddB => "AddB"@,
        Prim::SubB => "SubB"@,
        Prim::MulB => "MulB"@,
        Prim::DivB => "DivB"@,
        Prim::ModB => "ModB"@,
        Prim::PowB => "PowB"@,
        Prim::LtB => "LtB"@,
        Prim::GtB => "GtB"@,
        Prim::LeB => "LeB"@,
        Prim::GeB => "GeB"@,
        Prim::AddF => "AddF"@,
        Prim::SubF => "SubF"@,
        Prim::MulF => "MulF"@,
        Prim::DivF => "DivF"@,
        Prim::LtF => "LtF"@,
        Prim::GtF => "GtF"@,
        Prim::LeF => "LeF"@,
        Prim::GeF => "GeF"@,
        Prim::ToFloat => "ToFloat"@,
        Prim::Floor => "Floor"@,
        Prim::ToBig => "ToBig"@,
        Prim::ToInt => "ToInt"@,
        Prim::Eq => "Eq"@,
        Prim::Ne => "Ne"@,
        Prim::Neg => "Neg"@,
        Prim::Print => "Print"@,
        Prim::Println => "Println"@,
        Prim::ArrayLen => "ArrayLen"@,
        Prim::ArrayGet => "ArrayGet"@,
        Prim::ArrayGetOr => "ArrayGetOr"@,
        Prim::ArraySet => "ArraySet"@,
        Prim::ArrayPush => "ArrayPush"@,
        Prim::ArrayPop => "ArrayPop"@,
        Prim::ArraySlice => "ArraySlice"@,
        Prim::ArrayConcat => "ArrayConcat"@,
        Prim::Shl => "Shl"@,
        Prim::Shr => "Shr"@,
        Prim::Ushr => "Ushr"@,
        Prim::BitAnd => "BitAnd"@,
        Prim::BitOr => "BitOr"@,
        Prim::BitXor => "BitXor"@,
        Prim::BitNot => "BitNot"@,
        Prim::PopCount => "PopCount"@,
        Prim::StringToBytes => "StringToBytes"@,
        Prim::BytesToString => "BytesToString"@,
        Prim::BytesToHex => "BytesToHex"@,
        Prim::BytesFromHex => "BytesFromHex"@,
    }
}

} // verus!
