use meadow::glade::object::{forward, forwarded, header_slots, with_desc, write_header, Head, Kind};
use meadow::terms::desc;

#[test]
fn a_small_object_has_two_words_of_header() {
    let words = write_header(Kind::Data, 7, &[desc::INT, desc::REF, desc::STR]);
    assert_eq!(words.len(), 2);
    let h = Head::read(words[0], words[1]);
    assert_eq!((h.kind, h.len, h.meta, h.size()), (Kind::Data, 3, 7, 5));
    let got: Vec<_> = (0..3).map(|i| h.desc(i, &words)).collect();
    assert_eq!(got, [desc::INT, desc::REF, desc::STR]);
    assert_eq!(h.pointers(0, 3, &words), [1]);
}

#[test]
fn a_wide_object_takes_a_word_of_descriptors_per_sixteen_fields() {
    let descs: Vec<_> = (0..30)
        .map(|i| if i % 3 == 0 { desc::REF } else { desc::FLOAT })
        .collect();
    let mut words = write_header(Kind::Closure, 2, &descs);
    assert_eq!(words.len(), 2 + 2);
    let h = Head::read(words[0], words[1]);
    let got: Vec<_> = (0..30).map(|i| h.desc(i, &words)).collect();
    assert_eq!(got, descs);
    let (k, w) = with_desc(29, desc::CHAR, &words);
    words[k] = w;
    let h = Head::read(words[0], words[1]);
    assert_eq!(h.desc(29, &words), desc::CHAR);
    assert_eq!(h.desc(28, &words), desc::FLOAT);
}

#[test]
fn an_array_is_described_once() {
    let words = write_header(Kind::Array, 0, &[desc::REF; 100]);
    let h = Head::read(words[0], words[1]);
    assert_eq!((h.header(), h.size()), (2, 102));
    assert_eq!(h.pointers(0, 100, &words).len(), 100);
}

#[test]
fn a_moved_object_says_where_it_went() {
    assert_eq!(forwarded(forward(99)), Some(99));
    let words = write_header(Kind::Data, 0, &[]);
    assert_eq!(forwarded(words[0]), None);
}

#[test]
fn header_sizes() {
    assert_eq!(header_slots(true, 1000), 2);
    assert_eq!(header_slots(false, 8), 2);
    assert_eq!(header_slots(false, 9), 3);
    assert_eq!(header_slots(false, 33), 4);
}

#[test]
fn an_object_of_plain_values_points_nowhere() {
    let head = |descs: &[u8]| {
        let words = write_header(Kind::Data, 0, descs);
        Head::read(words[0], words[1])
    };
    assert!(!head(&[]).may_point());
    assert!(!head(&[desc::INT]).may_point());
    assert!(!head(&[desc::INT; 8]).may_point());
    assert!(head(&[desc::INT, desc::REF]).may_point());
    // The descriptors of a wider one are not all in the words that were read.
    assert!(head(&[desc::INT; 9]).may_point());
    let words = write_header(Kind::Array, 0, &[desc::REF; 3]);
    assert!(Head::read(words[0], words[1]).may_point());
    let words = write_header(Kind::Array, 0, &[desc::INT; 30]);
    assert!(!Head::read(words[0], words[1]).may_point());
}
