//! Symbols: the names of constructors, labels, effects and operations, each kept
//! once and named by its place in a table.

use crate::text::{cut, same};
use vstd::prelude::*;

verus! {

/// A symbol: its place in the [`Symbols`] table.
pub type Sym = u32;

pub const TUPLE: Sym = 0;

pub const MAYBE_NONE: Sym = 1;

pub const MAYBE_JUST: Sym = 2;

pub const RESULT_OK: Sym = 3;

pub const RESULT_ERR: Sym = 4;

pub const LIST_NIL: Sym = 5;

pub const LIST_CONS: Sym = 6;

pub const VECTOR_EMPTY: Sym = 7;

pub const VECTOR_SINGLE: Sym = 8;

pub const VECTOR_FULL: Sym = 9;

pub const VNODE_LEAF: Sym = 10;

pub const VNODE_BRANCH: Sym = 11;

/// The constructor of an evidence entry: `#ev(key, clause, target, rest)`.
pub const EV: Sym = 12;

/// The same for a tail-resumptive clause -- `op x k -> k e` -- whose object
/// takes the argument and the performing code's own continuation, and so needs
/// no resumption at all.
pub const EV_TAIL: Sym = 13;

/// The evidence with no handlers in it: an object, so that evidence is always a
/// reference, whatever it holds.
pub const EV_NONE: Sym = 14;

pub const BOOL_FALSE: Sym = 15;

pub const BOOL_TRUE: Sym = 16;

pub const INT: Sym = 17;

pub const BIGINT: Sym = 18;

pub const FLOAT: Sym = 19;

pub const FLOAT32: Sym = 20;

pub const STRING: Sym = 21;

pub const SYMBOL: Sym = 22;

pub const CHAR: Sym = 23;

pub const BOOL: Sym = 24;

pub const UNIT: Sym = 25;

pub const ARRAY: Sym = 26;

pub const TASK: Sym = 27;

pub const INT8: Sym = 28;

pub const INT16: Sym = 29;

pub const INT32: Sym = 30;

pub const UINT8: Sym = 31;

pub const UINT16: Sym = 32;

pub const UINT32: Sym = 33;

pub const UINT64: Sym = 34;

pub const JOIN_BLOCK: Sym = 35;

pub const LETREC_BLOCK: Sym = 36;

pub const ARM_BLOCK: Sym = 37;

/// A representation and not a type: the one a specialized copy's references
/// have.
pub const REF_TYPE: Sym = 38;

/// How many symbols every table starts with.
pub const RESERVED: usize = 39;

/// The symbols every table starts with, in order.
pub open spec fn reserved() -> Seq<Seq<char>> {
    seq![
        "#tuple"@, "Maybe.None"@, "Maybe.Just"@, "Result.Ok"@, "Result.Err"@, "List.Nil"@, "List.Cons"@,
        "Vector.Empty"@, "Vector.Single"@, "Vector.Full"@, "VNode.Leaf"@, "VNode.Branch"@, "#ev"@, "#evt"@, "#evnone"@,
        "Bool.False"@, "Bool.True"@, "Int"@, "BigInt"@, "Float"@, "Float32"@, "String"@, "#Symbol"@, "Char"@, "Bool"@,
        "Unit"@, "Array"@, "Task"@, "Int8"@, "Int16"@, "Int32"@, "UInt8"@, "UInt16"@, "UInt32"@, "UInt64"@, "<join>"@,
        "<letrec>"@, "<arm>"@, "#Ref"@,
    ]
}

/// Every symbol there is.
pub struct Symbols {
    pub texts: Vec<String>,
}

/// Where `t` first stands in `all`, from `from` on, and the end if it does not.
pub open spec fn place(all: Seq<Seq<char>>, t: Seq<char>, from: nat) -> nat
    decreases all.len() - from,
{
    if from >= all.len() || all[from as int] == t {
        from
    } else {
        place(all, t, from + 1)
    }
}

/// The table with `t` in it.
pub open spec fn with_symbol(all: Seq<Seq<char>>, t: Seq<char>) -> Seq<Seq<char>> {
    if place(all, t, 0) < all.len() {
        all
    } else {
        all.push(t)
    }
}

/// The symbol `t` is, if it is in the table.
pub open spec fn symbol_of(all: Seq<Seq<char>>, t: Seq<char>) -> Option<Sym> {
    if place(all, t, 0) < all.len() {
        Some(place(all, t, 0) as u32)
    } else {
        None
    }
}

/// What stands before the last `.` of a name, and what after.
pub open spec fn owner_of(t: Seq<char>) -> Option<Seq<char>> {
    let (done, rest) = cut(t, '.');
    if done.len() == 0 {
        None
    } else {
        Some(t.take(t.len() - rest.len() - 1))
    }
}

/// A name without what it belongs to: `Just` of `Maybe.Just`.
pub open spec fn bare_of(t: Seq<char>) -> Seq<char> {
    cut(t, '.').1
}

impl View for Symbols {
    type V = Seq<Seq<char>>;

    open spec fn view(&self) -> Seq<Seq<char>> {
        crate::text::texts(self.texts@)
    }
}

pub(crate) fn put(v: &mut Vec<String>, t: &str)
    ensures
        crate::text::texts(final(v)@) == crate::text::texts(old(v)@).push(t@),
{
    let ghost was = v@;
    v.push(t.to_owned());
    proof {
        assert(crate::text::texts(v@) =~= crate::text::texts(was).push(t@));
    }
}

impl Symbols {
    /// The table every program starts with.
    pub fn new() -> (s: Symbols)
        ensures
            s@ == reserved(),
    {
        let mut v: Vec<String> = Vec::new();
        proof {
            assert(crate::text::texts(v@) =~= Seq::<Seq<char>>::empty());
        }
        put(&mut v, "#tuple");
        put(&mut v, "Maybe.None");
        put(&mut v, "Maybe.Just");
        put(&mut v, "Result.Ok");
        put(&mut v, "Result.Err");
        put(&mut v, "List.Nil");
        put(&mut v, "List.Cons");
        put(&mut v, "Vector.Empty");
        put(&mut v, "Vector.Single");
        put(&mut v, "Vector.Full");
        put(&mut v, "VNode.Leaf");
        put(&mut v, "VNode.Branch");
        put(&mut v, "#ev");
        put(&mut v, "#evt");
        put(&mut v, "#evnone");
        put(&mut v, "Bool.False");
        put(&mut v, "Bool.True");
        put(&mut v, "Int");
        put(&mut v, "BigInt");
        put(&mut v, "Float");
        put(&mut v, "Float32");
        put(&mut v, "String");
        put(&mut v, "#Symbol");
        put(&mut v, "Char");
        put(&mut v, "Bool");
        put(&mut v, "Unit");
        put(&mut v, "Array");
        put(&mut v, "Task");
        put(&mut v, "Int8");
        put(&mut v, "Int16");
        put(&mut v, "Int32");
        put(&mut v, "UInt8");
        put(&mut v, "UInt16");
        put(&mut v, "UInt32");
        put(&mut v, "UInt64");
        put(&mut v, "<join>");
        put(&mut v, "<letrec>");
        put(&mut v, "<arm>");
        put(&mut v, "#Ref");
        let s: Symbols = Symbols { texts: v };
        proof {
            assert(s@ =~= reserved());
        }
        s
    }

    /// The symbol `t` is, added to the table if it is new. A symbol is its place
    /// there, as far as `u32` counts.
    pub fn intern(&mut self, t: &str) -> (r: Sym)
        ensures
            final(self)@ == with_symbol(old(self)@, t@),
            r == place(old(self)@, t@, 0) as u32,
    {
        let mut i: usize = 0;
        let n: usize = self.texts.len();
        while i < n
            invariant
                i <= n,
                n == self@.len(),
                *self == *old(self),
                place(self@, t@, 0) == place(self@, t@, i as nat),
            decreases n - i,
        {
            if same(self.texts[i].as_str(), t) {
                return i as u32;
            }
            i = i + 1;
        }
        put(&mut self.texts, t);
        i as u32
    }

    /// The symbol `t` is, if it is in the table.
    pub fn find(&self, t: &str) -> (r: Option<Sym>)
        ensures
            r == symbol_of(self@, t@),
    {
        let mut i: usize = 0;
        let n: usize = self.texts.len();
        while i < n
            invariant
                i <= n,
                n == self@.len(),
                place(self@, t@, 0) == place(self@, t@, i as nat),
            decreases n - i,
        {
            if same(self.texts[i].as_str(), t) {
                return Some(i as u32);
            }
            i = i + 1;
        }
        None
    }

    /// The text of a symbol: nothing, for one that is not in the table.
    pub fn text(&self, s: Sym) -> (r: String)
        ensures
            r@ == (if s < self@.len() {
                self@[s as int]
            } else {
                Seq::empty()
            }),
    {
        if (s as usize) < self.texts.len() {
            self.texts[s as usize].clone()
        } else {
            String::new()
        }
    }
}

/// The text of symbol `s` of `all`.
pub open spec fn text_at(all: Seq<Seq<char>>, s: Sym) -> Seq<char> {
    if s < all.len() {
        all[s as int]
    } else {
        Seq::empty()
    }
}

/// What a name belongs to, and the name without it.
pub fn split(t: &str) -> (r: (Option<String>, String))
    ensures
        match r.0 {
            Some(o) => owner_of(t@) == Some(o@),
            None => owner_of(t@) is None,
        },
        r.1@ == bare_of(t@),
{
    let cs: Vec<char> = crate::text::chars(t);
    let (done, rest) = crate::text::pieces(cs.as_slice(), '.');
    if done.len() == 0 {
        return (None, rest);
    }
    proof {
        crate::text::lemma_cut_joins(t@, '.');
        assert(crate::text::texts(done@).len() == done@.len());
    }
    let at: usize = cs.len() - rest.as_str().unicode_len() - 1;
    let owner: String = t.substring_char(0, at).to_owned();
    (Some(owner), rest)
}

} // verus!
