use syntxt::melody::{parse_melody, NoteSym, ParseError, Parser};
use syntxt::note::{Accidental, Note, NoteName};
use syntxt::rational::Rational;

#[test]
fn parser() {
    let mel = parse_melody(
        r"
            c-d-e-f- g g
            a-a-a-a- g+
            a-a-a-a- g+
            f-f-f-f- e e
            d-d-d-d- c+",
    )
    .unwrap();
    assert_eq!(mel.len(), 27);
}

#[test]
fn parse_duration() {
    let mut p = Parser::new("--+-++...");
    assert_eq!(p.parse_duration().unwrap(), Rational::new(15, 32));
}

#[test]
fn note_parser() {
    let mut p = Parser::new("a b a++ a- a-. a#--");
    let a = Note::try_named(NoteName::A, Accidental::Base, 4).unwrap();
    let b = Note::try_named(NoteName::B, Accidental::Base, 4).unwrap();
    let a_sharp = Note::try_named(NoteName::A, Accidental::Sharp, 4).unwrap();
    assert_eq!(p.parse_note_sym().unwrap(), NoteSym { note: a, duration: Rational::new(1, 4) });
    assert_eq!(p.parse_note_sym().unwrap(), NoteSym { note: b, duration: Rational::new(1, 4) });
    assert_eq!(p.parse_note_sym().unwrap(), NoteSym { note: a, duration: Rational::new(1, 1) });
    assert_eq!(p.parse_note_sym().unwrap(), NoteSym { note: a, duration: Rational::new(1, 8) });
    assert_eq!(p.parse_note_sym().unwrap(), NoteSym { note: a, duration: Rational::new(3, 16) });
    assert_eq!(p.parse_note_sym().unwrap(), NoteSym { note: a_sharp, duration: Rational::new(1, 16) });
}

#[test]
fn sequences_and_stacks() {
    // a stack of two notes, then a note after the longer one
    let mel = parse_melody("{ c e+ } g r g").unwrap();
    let starts: Vec<Rational> = mel.iter().map(|n| n.start).collect();
    assert_eq!(starts, vec![Rational::zero(), Rational::zero(), Rational::new(1, 2), Rational::new(1, 1)]);
    assert_eq!(mel[1].duration, Rational::new(1, 2));
    assert_eq!(mel[0].velocity.as_rational(), Rational::new(1, 2));
    // a sequence inside a stack starts with the stack
    let mel = parse_melody("{ c+ { d e } }").unwrap();
    let starts: Vec<Rational> = mel.iter().map(|n| n.start).collect();
    assert_eq!(starts, vec![Rational::zero(), Rational::zero(), Rational::new(1, 4)]);
}

#[test]
fn errors() {
    assert!(matches!(parse_melody("c }"), Err(ParseError::Other("Unmatched group end symbol"))));
    assert!(matches!(parse_melody("c x"), Err(ParseError::Other("Unknown symbol"))));
    assert!(matches!(parse_melody("{ c"), Err(ParseError::EOF)));
    assert!(matches!(parse_melody("b#9"), Err(ParseError::UnrepresentableNote)));
    assert_eq!(parse_melody("").unwrap().len(), 0);
}

#[test]
fn stack_parts_start_together() {
    let mut p = Parser::new("a+ {b c}}");
    let mut notes = Vec::new();
    let end = p.parse_stack(Rational::zero(), &mut notes).unwrap();
    assert_eq!(end, Rational::new(1, 2));
    assert_eq!(notes.len(), 3);
    assert_eq!(notes[0].start, Rational::zero());
    assert_eq!(notes[1].start, Rational::zero());
    assert_eq!(notes[2].start, Rational::new(1, 4));
}
