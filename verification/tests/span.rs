use meadow::span::{Located, Span};
use std::ops::Range;

#[test]
fn extend_covers_both_spans() {
    let a = Span::new(2, 5);
    let b = Span::new(8, 12);
    assert_eq!(a.extend(b), Span::new(2, 12));
    assert_eq!(b.extend(a), Span::new(2, 12));
}

#[test]
fn round_trips_through_range() {
    let s = Span::new(3, 7);
    let r: Range<usize> = s.into();
    assert_eq!(r, 3..7);
    assert_eq!(Span::from(3usize..7usize), s);
}

#[test]
fn indexes_a_string_slice() {
    let text = "hello world";
    assert_eq!(Span::new(6, 11).bytes_of(text.as_bytes()), "world".as_bytes());
}

#[test]
fn display_and_debug_match() {
    let s = Span::new(1, 4);
    assert_eq!(s.to_string(), "1..4");
    assert_eq!(format!("{}", s.to_string()), "1..4");
}

#[test]
fn a_located_value_keeps_its_place() {
    let l = Located::new('x', Span::new(4, 5));
    assert_eq!(*l.value(), 'x');
    assert_eq!(l.span, Span::new(4, 5));
    assert_eq!(Span::default(), Span::new(0, 0));
}

#[test]
fn a_span_of_a_text_is_its_bytes() {
    let s = "a\u{e9}b";
    assert_eq!(Span { start: 1, end: 3 }.text_of(s), "\u{e9}");
    assert_eq!(Span { start: 0, end: 4 }.text_of(s), s);
    assert_eq!(Span { start: 4, end: 4 }.text_of(s), "");
}
