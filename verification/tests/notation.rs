use syntxt::ast::SeqSym;
use syntxt::notation::{parse_duration, parse_note, seq_sym_from_str};
use syntxt::rational::Rational;

fn chars(s: &str) -> Vec<char> {
    s.chars().collect()
}

fn duration(s: &str) -> Option<(Rational, usize)> {
    parse_duration(&chars(s), 0)
}

#[test]
fn documented_durations() {
    // `+_` is 1/2 + 1/4 = 3/4, and `-_-.` is 1/8 + 1/8 + 1/16 = 5/16.
    assert_eq!(duration("+_"), Some((Rational::new(3, 4), 2)));
    assert_eq!(duration("-_-."), Some((Rational::new(5, 16), 4)));
}

#[test]
fn plain_and_dotted_durations() {
    assert_eq!(duration(""), Some((Rational::new(1, 4), 0)));
    assert_eq!(duration("++"), Some((Rational::new(1, 1), 2)));
    assert_eq!(duration("+.."), Some((Rational::new(7, 8), 3)));
    assert_eq!(duration("-x"), Some((Rational::new(1, 8), 1)));
}

#[test]
fn overflowing_durations() {
    let long: String = std::iter::repeat('+').take(70).collect();
    assert_eq!(duration(&long), None);
}

#[test]
fn notes() {
    assert_eq!(parse_note(&chars("a4"), 0).map(|(n, k)| (n.to_midi(), k)), Some((69, 2)));
    assert_eq!(parse_note(&chars("c#4"), 0).map(|(n, k)| (n.to_midi(), k)), Some((61, 3)));
    assert_eq!(parse_note(&chars("bb3"), 0).map(|(n, k)| (n.to_midi(), k)), Some((58, 3)));
    assert_eq!(parse_note(&chars("e♭2"), 0).map(|(n, k)| (n.to_midi(), k)), Some((39, 3)));
    // the octave is required
    assert!(parse_note(&chars("a"), 0).is_none());
    assert!(parse_note(&chars("h4"), 0).is_none());
    // out of the MIDI range
    assert!(parse_note(&chars("b#9"), 0).is_none());
}

#[test]
fn symbols() {
    match seq_sym_from_str("a4+_..") {
        Some(SeqSym::Note { note, duration }) => {
            assert_eq!(note.to_midi(), 69);
            assert_eq!(duration, Rational::new(15, 16));
        }
        _ => panic!("expected a note"),
    }
    match seq_sym_from_str("R++") {
        Some(SeqSym::Rest { duration }) => assert_eq!(duration, Rational::new(1, 1)),
        _ => panic!("expected a rest"),
    }
    assert!(seq_sym_from_str("x4").is_none());
}
