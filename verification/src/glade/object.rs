//! How an object is laid out in words.
//!
//! Every slot of the heap, of the old generation and of a region is one
//! [`Word`], and a field holds a value's bits and nothing else. What the bits
//! are -- an address, an `Int`, a `Float` -- is written once, in the object's
//! header, as a 4-bit descriptor per field. A collector reads the descriptors
//! to find the addresses; everything else reads them to know what it is looking
//! at.
//!
//! ```text
//!   a+0   len (32) | reserved (19) | uniform (1) | uniform desc (4) | kind (8)
//!   a+1   descriptors of fields 0..8 (32)        | meta (32)
//!   a+2   descriptors of fields 8..24, 16 per word -- only while needed
//!   ...
//!   a+h   field 0
//!   ...
//! ```
//!
//! An array, a mutable array and a `BigInt` hold values of one type, so their
//! header says **uniform** and gives one descriptor for every element: never
//! more than two words, however long they are. Anything else has a descriptor
//! per field: two words up to eight fields, and a word per sixteen after that.
//!
//! A nursery object that has been copied has its first word replaced by
//! [`FORWARD`] and the address it went to.

use crate::terms::desc::{Desc, REF, UNIT};
use vstd::prelude::*;

verus! {

/// One slot.
pub type Word = u64;

/// Where an object is.
pub type Addr = u32;

/// The kind byte of a first word left behind by a copy.
pub const FORWARD: u8 = 0xFF;

/// Descriptors the second word holds.
pub const INLINE_DESCS: usize = 8;

/// Descriptors each word after that holds.
pub const DESCS_PER_WORD: usize = 16;

/// What an object is.
#[derive(Debug, Clone, Copy, PartialEq, Eq, Structural, Hash)]
pub enum Kind {
    Data,
    Closure,
    Record,
    Array,
    MutArray,
    BigInt,
    Ref,
    Resume,
    Stack,
    Compact,
}

impl Kind {
    pub open spec fn byte(self) -> u8 {
        match self {
            Kind::Data => 0,
            Kind::Closure => 1,
            Kind::Record => 2,
            Kind::Array => 3,
            Kind::MutArray => 4,
            Kind::BigInt => 5,
            Kind::Ref => 6,
            Kind::Resume => 7,
            Kind::Stack => 8,
            Kind::Compact => 9,
        }
    }

    /// The kind a byte stands for.
    pub open spec fn of_byte(b: u8) -> Kind {
        if b == 0 {
            Kind::Data
        } else if b == 1 {
            Kind::Closure
        } else if b == 2 {
            Kind::Record
        } else if b == 3 {
            Kind::Array
        } else if b == 4 {
            Kind::MutArray
        } else if b == 5 {
            Kind::BigInt
        } else if b == 6 {
            Kind::Ref
        } else if b == 7 {
            Kind::Resume
        } else if b == 8 {
            Kind::Stack
        } else {
            Kind::Compact
        }
    }

    /// The byte a header keeps this kind as.
    pub fn to_byte(self) -> (b: u8)
        ensures
            b == self.byte(),
            b < 10,
    {
        match self {
            Kind::Data => 0,
            Kind::Closure => 1,
            Kind::Record => 2,
            Kind::Array => 3,
            Kind::MutArray => 4,
            Kind::BigInt => 5,
            Kind::Ref => 6,
            Kind::Resume => 7,
            Kind::Stack => 8,
            Kind::Compact => 9,
        }
    }

    /// The kind a header's byte says.
    pub fn from_byte(b: u8) -> (k: Kind)
        requires
            b < 10,
        ensures
            k.byte() == b,
            k == Kind::of_byte(b),
    {
        if b == 0 {
            Kind::Data
        } else if b == 1 {
            Kind::Closure
        } else if b == 2 {
            Kind::Record
        } else if b == 3 {
            Kind::Array
        } else if b == 4 {
            Kind::MutArray
        } else if b == 5 {
            Kind::BigInt
        } else if b == 6 {
            Kind::Ref
        } else if b == 7 {
            Kind::Resume
        } else if b == 8 {
            Kind::Stack
        } else {
            Kind::Compact
        }
    }

    /// The kinds whose fields all hold values of one representation.
    pub open spec fn uniform(self) -> bool {
        self is Array || self is MutArray || self is BigInt
    }

    pub fn is_uniform(self) -> (r: bool)
        ensures
            r == self.uniform(),
    {
        matches!(self, Kind::Array | Kind::MutArray | Kind::BigInt)
    }
}

/// The words a header takes.
pub open spec fn slots(uniform: bool, len: nat) -> nat {
    if uniform || len <= 8 {
        2
    } else {
        2 + (len - 8 + 15) as nat / 16
    }
}

/// The words a header takes.
pub fn header_slots(uniform: bool, len: usize) -> (r: usize)
    ensures
        r == slots(uniform, len as nat),
{
    if uniform || len <= INLINE_DESCS {
        2
    } else {
        let past: usize = len - INLINE_DESCS;
        2 + past / DESCS_PER_WORD + (if past % DESCS_PER_WORD == 0 {
            0usize
        } else {
            1usize
        })
    }
}

/// The four bits of `w` that start at bit `s`.
pub open spec fn nibble(w: Word, s: Word) -> Word {
    (w >> s) & 0xF
}

/// The word of the header that holds field `i`'s descriptor.
pub open spec fn desc_word(i: nat) -> nat {
    if i < 8 {
        1
    } else {
        2 + (i - 8) as nat / 16
    }
}

/// The bit of that word the descriptor starts at.
pub open spec fn desc_shift(i: nat) -> Word {
    if i < 8 {
        (32 + 4 * i) as Word
    } else {
        (4 * ((i - 8) % 16)) as Word
    }
}

/// Field `i`'s descriptor, in the header `words` of an object that is not
/// uniform.
pub open spec fn field_desc(words: Seq<Word>, i: nat) -> Word {
    nibble(words[desc_word(i) as int], desc_shift(i))
}

/// The descriptor every field of a uniform object with fields `descs` has: that
/// of its first, and the unit's where there is none.
pub open spec fn shared_desc(descs: Seq<Desc>) -> Desc {
    if descs.len() == 0 {
        UNIT
    } else {
        descs[0]
    }
}

proof fn lemma_nibble_or(w: Word, d: Word, s: Word, t: Word)
    by (bit_vector)
    requires
        d < 16,
        s < 64,
        t < 64,
        s % 4 == 0,
        t % 4 == 0,
        (w >> s) & 0xF == 0,
    ensures
        ((w | (d << s)) >> t) & 0xF == (if s == t {
            d
        } else {
            (w >> t) & 0xF
        }),
        s >= 32 ==> ((w | (d << s)) as u32) == (w as u32),
{
}

proof fn lemma_nibble_set(w: Word, d: Word, s: Word, t: Word)
    by (bit_vector)
    requires
        d < 16,
        s < 64,
        t < 64,
        s % 4 == 0,
        t % 4 == 0,
    ensures
        (((w & !(0xFu64 << s)) | (d << s)) >> t) & 0xF == (if s == t {
            d
        } else {
            (w >> t) & 0xF
        }),
        s >= 32 ==> (((w & !(0xFu64 << s)) | (d << s)) as u32) == (w as u32),
{
}

/// The first word of an object moved to `to`.
pub fn forward(to: Addr) -> (w: Word)
    ensures
        w as u8 == FORWARD,
        (w >> 32) as Addr == to,
        (w >> 8) & 0xFF_FFFF == 0,
{
    let t: Word = to as Word;
    proof {
        assert(t < 0x1_0000_0000 ==> (((0xFFu64 | (t << 32)) as u8) == 0xFF) && (((0xFFu64 | (t << 32))
            >> 32) == t) && ((((0xFFu64 | (t << 32)) >> 8) & 0xFF_FFFF) == 0)) by (bit_vector);
    }
    0xFF | t << 32
}

/// Where the object whose first word is `w` went, if it has been moved.
pub fn forwarded(w: Word) -> (r: Option<Addr>)
    ensures
        r == (if w as u8 == FORWARD {
            Some((w >> 32) as Addr)
        } else {
            None::<Addr>
        }),
{
    if w as u8 == FORWARD {
        Some((w >> 32) as Addr)
    } else {
        None
    }
}

/// An object's header, read.
#[derive(Debug, Clone, Copy)]
pub struct Head {
    pub kind: Kind,
    pub len: u32,
    pub meta: u32,
    /// The descriptor of every field, for a uniform object.
    pub uniform: Option<Desc>,
    /// The second word, whose high half is the first fields' descriptors.
    pub second: Word,
}

impl Head {
    /// `self` is what the first two words of a header say.
    pub open spec fn says(self, w0: Word, w1: Word) -> bool {
        &&& self.kind.byte() == w0 as u8
        &&& self.len == (w0 >> 32) as u32
        &&& self.meta == w1 as u32
        &&& self.uniform == (if (w0 >> 12) & 1 == 1 {
            Some(nibble(w0, 8) as Desc)
        } else {
            None::<Desc>
        })
        &&& self.second == w1
    }

    /// What the first two words of a header say.
    pub open spec fn of(w0: Word, w1: Word) -> Head {
        Head {
            kind: Kind::of_byte(w0 as u8),
            len: (w0 >> 32) as u32,
            meta: w1 as u32,
            uniform: if (w0 >> 12) & 1 == 1 {
                Some(nibble(w0, 8) as Desc)
            } else {
                None::<Desc>
            },
            second: w1,
        }
    }

    /// The words before the first field.
    pub open spec fn slots(self) -> nat {
        slots(self.uniform is Some, self.len as nat)
    }

    /// Field `i`'s descriptor, where `words` is the object's header.
    pub open spec fn desc_of(self, i: nat, words: Seq<Word>) -> Desc {
        match self.uniform {
            Some(d) => d,
            None => if i < 8 {
                nibble(self.second, desc_shift(i)) as Desc
            } else {
                field_desc(words, i) as Desc
            },
        }
    }

    /// The header whose first two words are `w0` and `w1`.
    pub fn read(w0: Word, w1: Word) -> (h: Head)
        requires
            (w0 as u8) < 10,
        ensures
            h.says(w0, w1),
            h == Head::of(w0, w1),
    {
        Head {
            kind: Kind::from_byte(w0 as u8),
            len: (w0 >> 32) as u32,
            meta: w1 as u32,
            uniform: if (w0 >> 12) & 1 == 1 {
                Some(((w0 >> 8) & 0xF) as Desc)
            } else {
                None
            },
            second: w1,
        }
    }

    /// Words before the first field.
    pub fn header(&self) -> (r: usize)
        ensures
            r == self.slots(),
    {
        header_slots(self.uniform.is_some(), self.len as usize)
    }

    /// Words the whole object takes.
    pub fn size(&self) -> (r: u64)
        ensures
            r == self.slots() + self.len,
    {
        self.header() as u64 + self.len as u64
    }

    /// Field `i`'s descriptor, where `words` starts with the object's header.
    pub fn desc(&self, i: usize, words: &[Word]) -> (d: Desc)
        requires
            self.uniform is None && i >= 8 ==> desc_word(i as nat) < words@.len(),
        ensures
            d == self.desc_of(i as nat, words@),
    {
        if let Some(d) = self.uniform {
            return d;
        }
        if i < INLINE_DESCS {
            return ((self.second >> (32 + 4 * i as u64)) & 0xF) as Desc;
        }
        let j: usize = i - INLINE_DESCS;
        ((words[2 + j / DESCS_PER_WORD] >> (4 * (j % DESCS_PER_WORD) as u64)) & 0xF) as Desc
    }

    /// The index of every field in `from..to` that holds an address, in order.
    pub fn pointers(&self, from: usize, to: usize, words: &[Word]) -> (r: Vec<usize>)
        requires
            from <= to,
            self.uniform is None && to > 8 ==> desc_word((to - 1) as nat) < words@.len(),
        ensures
            r@ == Seq::new((to - from) as nat, |k: int| (from + k) as usize).filter(
                |i: usize| self.desc_of(i as nat, words@) == REF,
            ),
    {
        let mut r: Vec<usize> = Vec::new();
        let mut i: usize = from;
        let ghost all = |n: int| Seq::new(n as nat, |k: int| (from + k) as usize);
        let ghost keep = |i: usize| self.desc_of(i as nat, words@) == REF;
        proof {
            assert(all(0).filter(keep) =~= Seq::<usize>::empty()) by {
                reveal(Seq::filter);
            }
        }
        while i < to
            invariant
                from <= i <= to,
                self.uniform is None && to > 8 ==> desc_word((to - 1) as nat) < words@.len(),
                all == (|n: int| Seq::new(n as nat, |k: int| (from + k) as usize)),
                keep == (|i: usize| self.desc_of(i as nat, words@) == REF),
                r@ == all(i - from).filter(keep),
            decreases to - i,
        {
            proof {
                let n = i - from;
                assert(all(n + 1).drop_last() =~= all(n));
                assert(all(n + 1).last() == i);
                reveal(Seq::filter);
                assert(all(n + 1).filter(keep) == (if keep(i) {
                    all(n).filter(keep).push(i)
                } else {
                    all(n).filter(keep)
                }));
            }
            if self.desc(i, words) == REF {
                r.push(i);
            }
            i = i + 1;
        }
        r
    }

    /// Some field holds an address, where `words` starts with the object's header.
    pub open spec fn points(self, words: Seq<Word>) -> bool {
        exists|i: nat| i < self.len && #[trigger] self.desc_of(i, words) == REF
    }

    /// Does any field hold an address? Exactly so for a uniform object and for one
    /// whose descriptors are all in the second word. A wider one keeps descriptors in
    /// words that are not read here, and is said to.
    pub fn may_point(&self) -> (r: bool)
        ensures
            r == (self.uniform is None && self.len > 8 || self.points(Seq::empty())),
            forall|words: Seq<Word>| #[trigger] self.points(words) ==> r,
            self.uniform is Some || self.len <= 8 ==> forall|words: Seq<Word>| r == #[trigger] self.points(words),
    {
        proof {
            let none = Seq::<Word>::empty();
            if self.uniform is Some || self.len <= 8 {
                assert forall|words: Seq<Word>| self.points(none) == #[trigger] self.points(words) by {
                    assert forall|i: nat| i < self.len implies #[trigger] self.desc_of(i, words) == self.desc_of(
                        i,
                        none,
                    ) by {}
                    if self.points(none) {
                        let i = choose|i: nat| i < self.len && #[trigger] self.desc_of(i, none) == REF;
                        assert(self.desc_of(i, words) == REF);
                    }
                    if self.points(words) {
                        let i = choose|i: nat| i < self.len && #[trigger] self.desc_of(i, words) == REF;
                        assert(self.desc_of(i, none) == REF);
                    }
                }
            }
        }
        if let Some(d) = self.uniform {
            proof {
                if d == REF && self.len > 0 {
                    assert(self.desc_of(0, Seq::empty()) == REF);
                }
            }
            return d == REF && self.len > 0;
        }
        if self.len > 8 {
            return true;
        }
        let mut i: usize = 0;
        while i < self.len as usize
            invariant
                i <= self.len <= 8,
                self.uniform is None,
                forall|words: Seq<Word>| self.points(Seq::empty()) == #[trigger] self.points(words),
                forall|j: nat| j < i ==> #[trigger] self.desc_of(j, Seq::empty()) != REF,
            decreases self.len - i,
        {
            if ((self.second >> (32 + 4 * i as u64)) & 0xF) as Desc == REF {
                assert(self.desc_of(i as nat, Seq::empty()) == REF);
                return true;
            }
            i = i + 1;
        }
        false
    }
}

/// The header of an object of `kind` and `meta` whose fields are described by
/// `descs`: the words to write before them.
pub fn write_header(kind: Kind, meta: u32, descs: &[Desc]) -> (words: Vec<Word>)
    requires
        descs@.len() <= u32::MAX,
        forall|i: int| 0 <= i < descs@.len() ==> #[trigger] descs@[i] < 16,
        kind.uniform() ==> forall|i: int| 0 <= i < descs@.len() ==> #[trigger] descs@[i] == descs@[0],
    ensures
        words@.len() == slots(kind.uniform(), descs@.len()),
        words@[0] as u8 == kind.byte(),
        (words@[0] >> 32) == descs@.len(),
        (words@[0] >> 12) & 1 == (if kind.uniform() {
            1u64
        } else {
            0u64
        }),
        nibble(words@[0], 8) == (if kind.uniform() {
            shared_desc(descs@)
        } else {
            0
        }),
        (words@[0] >> 13) & 0x7FFFF == 0,
        words@[1] as u32 == meta,
        kind.uniform() ==> words@[1] == meta,
        !kind.uniform() ==> forall|i: nat|
            desc_word(i) < words@.len() ==> #[trigger] field_desc(words@, i) == (if i < descs@.len() {
                descs@[i as int] as Word
            } else {
                0
            }),
{
    let len: usize = descs.len();
    let k: Word = kind.to_byte() as Word;
    let n: Word = len as Word;
    let m: Word = meta as Word;
    let mut words: Vec<Word> = Vec::new();
    if kind.is_uniform() {
        let one: Word = if len == 0 {
            UNIT as Word
        } else {
            descs[0] as Word
        };
        let w0: Word = k | n << 32 | 0x1000 | one << 8;
        proof {
            assert((k < 10 && n <= 0xFFFF_FFFF && one < 16) ==> ((k | n << 32 | 0x1000 | one << 8) as u8) == (
            k as u8) && ((k | n << 32 | 0x1000 | one << 8) >> 32) == n && (((k | n << 32 | 0x1000 | one
                << 8) >> 12) & 1) == 1 && (((k | n << 32 | 0x1000 | one << 8) >> 8) & 0xF) == one && (((k
                | n << 32 | 0x1000 | one << 8) >> 13) & 0x7FFFF) == 0) by (bit_vector);
        }
        words.push(w0);
        words.push(m);
        return words;
    }
    let w0: Word = k | n << 32;
    proof {
        assert((k < 10 && n <= 0xFFFF_FFFF) ==> ((k | n << 32) as u8) == (k as u8) && ((k | n << 32) >> 32)
            == n && (((k | n << 32) >> 12) & 1) == 0 && (((k | n << 32) >> 8) & 0xF) == 0 && (((k | n
            << 32) >> 13) & 0x7FFFF) == 0) by (bit_vector);
    }
    words.push(w0);
    words.push(m);
    proof {
        assert(forall|s: Word| 32 <= s < 64 && m <= 0xFFFF_FFFF ==> #[trigger] ((m >> s) & 0xF) == 0)
            by (bit_vector);
        assert(forall|s: Word| s < 64 ==> #[trigger] ((0u64 >> s) & 0xF) == 0) by (bit_vector);
    }
    let slots_wanted: usize = header_slots(false, len);
    while words.len() < slots_wanted
        invariant
            2 <= words.len() <= slots_wanted,
            words@[0] == w0,
            words@[1] == m,
            forall|j: int| 2 <= j < words@.len() ==> #[trigger] words@[j] == 0,
        decreases slots_wanted - words.len(),
    {
        words.push(0);
    }
    proof {
        assert forall|j: nat| desc_word(j) < words@.len() implies #[trigger] field_desc(words@, j) == 0 by {}
    }
    let mut i: usize = 0;
    while i < len
        invariant
            i <= len,
            len == descs@.len(),
            len <= u32::MAX,
            words@.len() == slots(false, len as nat),
            words@[0] == w0,
            words@[1] as u32 == meta,
            forall|j: int| 0 <= j < descs@.len() ==> #[trigger] descs@[j] < 16,
            forall|j: nat|
                desc_word(j) < words@.len() ==> #[trigger] field_desc(words@, j) == (if j < i {
                    descs@[j as int] as Word
                } else {
                    0
                }),
        decreases len - i,
    {
        let d: Word = descs[i] as Word;
        let (at, shift): (usize, Word) = if i < INLINE_DESCS {
            (1, 32 + 4 * i as u64)
        } else {
            let j: usize = i - INLINE_DESCS;
            (2 + j / DESCS_PER_WORD, 4 * (j % DESCS_PER_WORD) as u64)
        };
        let ghost before = words@;
        assert(at == desc_word(i as nat) && shift == desc_shift(i as nat));
        assert(field_desc(before, i as nat) == 0);
        let w: Word = words[at];
        words.set(at, w | d << shift);
        proof {
            assert forall|j: nat| desc_word(j) < words@.len() implies #[trigger] field_desc(words@, j) == (
            if j < i + 1 {
                descs@[j as int] as Word
            } else {
                0
            }) by {
                assert(field_desc(before, j) == (if j < i {
                    descs@[j as int] as Word
                } else {
                    0
                }));
                lemma_nibble_or(w, d, shift, desc_shift(j));
                if desc_word(j) == at && desc_shift(j) == shift {
                    assert(j == i);
                }
            }
            lemma_nibble_or(w, d, shift, shift);
        }
        i = i + 1;
    }
    words
}

/// Field `i`'s descriptor changed to `d`, in the header `words` of an object
/// that is not uniform: which word changes, and what to.
pub fn with_desc(i: usize, d: Desc, words: &[Word]) -> (r: (usize, Word))
    requires
        d < 16,
        desc_word(i as nat) < words@.len(),
    ensures
        r.0 == desc_word(i as nat),
        r.0 < words@.len(),
        field_desc(words@.update(r.0 as int, r.1), i as nat) == d,
        forall|j: nat|
            j != i && desc_word(j) < words@.len() ==> #[trigger] field_desc(
                words@.update(r.0 as int, r.1),
                j,
            ) == field_desc(words@, j),
        r.0 == 1 ==> r.1 as u32 == words@[1] as u32,
{
    let (k, shift): (usize, Word) = if i < INLINE_DESCS {
        (1, 32 + 4 * i as u64)
    } else {
        let j: usize = i - INLINE_DESCS;
        (2 + j / DESCS_PER_WORD, 4 * (j % DESCS_PER_WORD) as u64)
    };
    let w: Word = words[k];
    let bits: Word = d as Word;
    let changed: Word = (w & !(0xFu64 << shift)) | bits << shift;
    proof {
        assert(k == desc_word(i as nat) && shift == desc_shift(i as nat));
        lemma_nibble_set(w, bits, shift, shift);
        assert forall|j: nat| j != i && desc_word(j) < words@.len() implies #[trigger] field_desc(
            words@.update(k as int, changed),
            j,
        ) == field_desc(words@, j) by {
            lemma_nibble_set(w, bits, shift, desc_shift(j));
        }
    }
    (k, changed)
}

/// Reading a moved object's first word gives back where it went.
pub proof fn a_moved_object_says_where(to: Addr, w: Word)
    requires
        w as u8 == FORWARD,
        (w >> 32) as Addr == to,
    ensures
        (if w as u8 == FORWARD {
            Some((w >> 32) as Addr)
        } else {
            None::<Addr>
        }) == Some(to),
{
}

/// A written header is never taken for that of a moved object.
pub proof fn a_header_is_not_moved(kind: Kind, w: Word)
    requires
        w as u8 == kind.byte(),
    ensures
        w as u8 != FORWARD,
{
}

/// Reading what [`write_header`] wrote gives back the kind, the number of
/// fields, the meta word and every field's descriptor.
pub proof fn a_header_reads_back(kind: Kind, meta: u32, descs: Seq<Desc>, words: Seq<Word>, h: Head)
    requires
        descs.len() <= u32::MAX,
        forall|i: int| 0 <= i < descs.len() ==> #[trigger] descs[i] < 16,
        kind.uniform() ==> forall|i: int| 0 <= i < descs.len() ==> #[trigger] descs[i] == descs[0],
        words.len() == slots(kind.uniform(), descs.len()),
        words[0] as u8 == kind.byte(),
        (words[0] >> 32) == descs.len(),
        (words[0] >> 12) & 1 == (if kind.uniform() {
            1u64
        } else {
            0u64
        }),
        nibble(words[0], 8) == (if kind.uniform() {
            shared_desc(descs)
        } else {
            0
        }),
        words[1] as u32 == meta,
        !kind.uniform() ==> forall|i: nat|
            desc_word(i) < words.len() ==> #[trigger] field_desc(words, i) == (if i < descs.len() {
                descs[i as int] as Word
            } else {
                0
            }),
        h.says(words[0], words[1]),
    ensures
        h.kind == kind,
        h.len == descs.len(),
        h.meta == meta,
        h.slots() == words.len(),
        forall|i: nat| i < descs.len() ==> #[trigger] h.desc_of(i, words) == descs[i as int],
{
    assert forall|i: nat| i < descs.len() implies #[trigger] h.desc_of(i, words) == descs[i as int] by {
        if !kind.uniform() {
            assert(desc_word(i) < words.len());
            assert(field_desc(words, i) == descs[i as int]);
        }
    }
}

} // verus!
