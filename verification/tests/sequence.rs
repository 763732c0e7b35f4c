use syntxt::note::Note;
use syntxt::rational::Rational;
use syntxt::sequence::{SeqItem, Sequence};

fn note(midi: u8, n: i64, d: i64) -> SeqItem {
    SeqItem::Note { note: Note::from_midi(midi), duration: Rational::new(n, d) }
}

fn rest(n: i64, d: i64) -> SeqItem {
    SeqItem::Rest { duration: Rational::new(n, d) }
}

#[test]
fn new_sequence_is_empty() {
    let s = Sequence::new();
    assert_eq!(s.duration(), Rational::zero());
    assert!(s.items().is_empty());
}

#[test]
fn notes_and_rests_add_up() {
    let mut s = Sequence::new();
    s.add(note(60, 1, 4));
    s.add(rest(1, 2));
    s.add(note(62, 1, 8));
    assert_eq!(s.duration(), Rational::new(7, 8));
    assert_eq!(s.items().len(), 3);
    assert_eq!(s.items()[1], rest(1, 2));
}

#[test]
fn stack_takes_longest_sequence() {
    let mut a = Sequence::new();
    a.add(note(60, 1, 2));
    let mut b = Sequence::new();
    b.add(note(64, 1, 4));
    b.add(note(67, 1, 2));
    let mut c = Sequence::new();
    c.add(rest(1, 3));
    let mut s = Sequence::new();
    s.add(note(48, 1, 4));
    s.add(SeqItem::Stack { sequences: vec![a, b, c] });
    assert_eq!(s.duration(), Rational::integer(1));
    assert_eq!(s.items().len(), 2);
}

#[test]
fn empty_stack_takes_no_time() {
    let mut s = Sequence::new();
    s.add(rest(3, 4));
    s.add(SeqItem::Stack { sequences: Vec::new() });
    assert_eq!(s.duration(), Rational::new(3, 4));
    assert_eq!(s.items().len(), 2);
}

#[test]
fn extend_appends_items_and_duration() {
    let mut a = Sequence::new();
    a.add(note(60, 1, 4));
    let mut b = Sequence::new();
    b.add(rest(1, 2));
    b.add(note(72, 1, 4));
    a.extend(b);
    assert_eq!(a.duration(), Rational::integer(1));
    assert_eq!(a.items().len(), 3);
    assert_eq!(a.items()[0], note(60, 1, 4));
    assert_eq!(a.items()[2], note(72, 1, 4));
}
