//! Source positions.
//!
//! [`Span`] is a byte range `start..end` into a source string (`u32` offsets --
//! a source file is never that big). [`Located<T>`] pairs a value with its
//! span; it is the syntax tree's spine wrapper.

use crate::text::{decimal, digits};
use std::ops::Range;
use vstd::prelude::*;
use vstd::string::StringSliceAdditionalSpecFns;
use vstd::utf8::{encode_utf8_valid_utf8, is_char_boundary, length_of_first_scalar, pop_first_scalar, valid_utf8};
use vstd::std_specs::convert::FromSpec;

verus! {

#[derive(Debug, Clone, Copy, PartialEq, Eq, Structural, Hash, PartialOrd, Ord)]
pub struct Span {
    pub start: u32,
    pub end: u32,
}

impl Default for Span {
    fn default() -> (s: Span)
        ensures
            s == (Span { start: 0, end: 0 }),
    {
        Span { start: 0, end: 0 }
    }
}

impl Span {
    /// `self` and `other`, and everything between them.
    pub open spec fn covering(self, other: Span) -> Span {
        Span {
            start: if other.start < self.start {
                other.start
            } else {
                self.start
            },
            end: if other.end > self.end {
                other.end
            } else {
                self.end
            },
        }
    }

    /// Byte `i` of the source is in this span.
    pub open spec fn contains(self, i: int) -> bool {
        self.start <= i < self.end
    }

    pub fn new(start: u32, end: u32) -> (s: Self)
        ensures
            s == (Span { start, end }),
    {
        Self { start, end }
    }

    /// The least span that covers both.
    pub fn extend(&self, other: Span) -> (s: Self)
        ensures
            s == self.covering(other),
    {
        Self {
            start: if other.start < self.start {
                other.start
            } else {
                self.start
            },
            end: if other.end > self.end {
                other.end
            } else {
                self.end
            },
        }
    }

    /// How a span is written: `3..7`.
    pub open spec fn written(self) -> Seq<char> {
        digits(self.start as nat) + ".."@ + digits(self.end as nat)
    }

    /// The span as text.
    pub fn to_string(&self) -> (r: String)
        ensures
            r@ == self.written(),
    {
        let mut r: String = decimal(self.start as u64);
        r.append("..");
        r.append(decimal(self.end as u64).as_str());
        r
    }

    /// The bytes of `source` in this span.
    pub fn bytes_of<'a>(&self, source: &'a [u8]) -> (r: &'a [u8])
        requires
            self.start <= self.end <= source@.len(),
        ensures
            r@ == source@.subrange(self.start as int, self.end as int),
    {
        vstd::slice::slice_subrange(source, self.start as usize, self.end as usize)
    }

    /// The text of `source` in this span, which starts and ends between characters.
    pub fn text_of<'a>(&self, source: &'a str) -> (r: &'a str)
        requires
            self.start <= self.end <= source.spec_bytes().len(),
            is_char_boundary(source.spec_bytes(), self.start as int),
            is_char_boundary(source.spec_bytes(), self.end as int),
        ensures
            r.spec_bytes() == source.spec_bytes().subrange(self.start as int, self.end as int),
    {
        let ghost all = source.spec_bytes();
        proof {
            encode_utf8_valid_utf8(source@);
            lemma_boundary_behind(all, self.start as int, self.end as int);
        }
        let rest: &'a str = source.split_at(self.start as usize).1;
        let r: &'a str = rest.split_at((self.end - self.start) as usize).0;
        proof {
            assert(r.spec_bytes() =~= all.subrange(self.start as int, self.end as int));
        }
        r
    }
}

/// What is a boundary of a text is one of what stands behind an earlier boundary.
proof fn lemma_boundary_behind(bytes: Seq<u8>, s: int, e: int)
    requires
        valid_utf8(bytes),
        0 <= s <= e <= bytes.len(),
        is_char_boundary(bytes, s),
        is_char_boundary(bytes, e),
    ensures
        is_char_boundary(bytes.subrange(s, bytes.len() as int), e - s),
    decreases bytes.len(),
{
    if s == 0 {
        assert(bytes.subrange(0, bytes.len() as int) =~= bytes);
    } else {
        let l = length_of_first_scalar(bytes);
        let tail = pop_first_scalar(bytes);
        assert(valid_utf8(tail));
        assert(is_char_boundary(tail, s - l));
        assert(is_char_boundary(tail, e - l));
        lemma_boundary_behind(tail, s - l, e - l);
        assert(tail.subrange(s - l, tail.len() as int) =~= bytes.subrange(s, bytes.len() as int));
    }
}

impl From<Span> for Range<usize> {
    fn from(span: Span) -> (r: Range<usize>) {
        span.start as usize..span.end as usize
    }
}

impl vstd::std_specs::convert::FromSpecImpl<Span> for Range<usize> {
    open spec fn obeys_from_spec() -> bool {
        true
    }

    open spec fn from_spec(span: Span) -> Range<usize> {
        Range { start: span.start as usize, end: span.end as usize }
    }
}

impl From<Range<usize>> for Span {
    fn from(range: Range<usize>) -> (s: Span) {
        Span { start: range.start as u32, end: range.end as u32 }
    }
}

impl vstd::std_specs::convert::FromSpecImpl<Range<usize>> for Span {
    open spec fn obeys_from_spec() -> bool {
        true
    }

    open spec fn from_spec(range: Range<usize>) -> Span {
        Span { start: range.start as u32, end: range.end as u32 }
    }
}

/// A span is what its range of offsets is made back into.
pub proof fn a_span_round_trips(s: Span)
    ensures
        <Span as FromSpec<Range<usize>>>::from_spec(<Range<usize> as FromSpec<Span>>::from_spec(s)) == s,
{
}

/// It does not matter which of two spans is extended by the other.
pub proof fn extend_is_commutative(a: Span, b: Span)
    ensures
        a.covering(b) == b.covering(a),
{
}

/// Nor in what order three are.
pub proof fn extend_is_associative(a: Span, b: Span, c: Span)
    ensures
        a.covering(b).covering(c) == a.covering(b.covering(c)),
{
}

/// Extending covers both spans.
pub proof fn extend_covers_both(a: Span, b: Span, i: int)
    requires
        a.contains(i) || b.contains(i),
    ensures
        a.covering(b).contains(i),
{
}

/// A value and where it was written.
#[derive(Debug, Clone, PartialEq, Eq)]
pub struct Located<T> {
    pub value: Box<T>,
    pub span: Span,
}

impl<T> Located<T> {
    pub fn new(value: T, span: Span) -> (r: Self)
        ensures
            *r.value == value,
            r.span == span,
    {
        Self { value: Box::new(value), span }
    }

    pub fn value(&self) -> (r: &T)
        ensures
            *r == *self.value,
    {
        &self.value
    }
}

} // verus!
