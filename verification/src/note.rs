//! Notes of the twelve-tone scale, identified by their MIDI number.
use vstd::prelude::*;
use crate::rational::Rational;

verus! {

/// The name of a note within an octave.
#[derive(Debug, Clone, Copy, PartialEq, Eq, Structural)]
pub enum NoteName {
    C,
    D,
    E,
    F,
    G,
    A,
    B,
}

/// A modification of a note by a semitone.
#[derive(Debug, Clone, Copy, PartialEq, Eq, Structural)]
pub enum Accidental {
    Flat,
    Base,
    Sharp,
}

/// A note, stored as its MIDI number (`0..=127`), where A4 is 69.
#[derive(Debug, Clone, Copy, PartialEq, Eq, Structural)]
pub struct Note(u8);

/// Semitones of a note name above C.
pub open spec fn name_semitones(name: NoteName) -> int {
    match name {
        NoteName::C => 0,
        NoteName::D => 2,
        NoteName::E => 4,
        NoteName::F => 5,
        NoteName::G => 7,
        NoteName::A => 9,
        NoteName::B => 11,
    }
}

/// Semitones that an accidental adds.
pub open spec fn accidental_semitones(acc: Accidental) -> int {
    match acc {
        Accidental::Flat => -1,
        Accidental::Base => 0,
        Accidental::Sharp => 1,
    }
}

/// The MIDI number of a named note: twelve semitones per octave, C-1 is 0.
pub open spec fn midi_number(name: NoteName, acc: Accidental, octave: int) -> int {
    12 * (octave + 1) + name_semitones(name) + accidental_semitones(acc)
}

impl Note {
    /// The MIDI number of the note.
    pub closed spec fn midi(self) -> int {
        self.0 as int
    }

    /// MIDI numbers lie in `0..=127`.
    #[verifier::type_invariant]
    spec fn inv(self) -> bool {
        self.0 <= 127
    }

    /// The note with the given name in the given octave, or `None` when it
    /// lies outside the MIDI range.
    pub fn try_named(name: NoteName, accidental: Accidental, octave: i32) -> (r: Option<Note>)
        ensures
            r is Some <==> 0 <= midi_number(name, accidental, octave as int) <= 127,
            r matches Some(n) ==> n.midi() == midi_number(name, accidental, octave as int),
    {
        if octave < -2 || octave > 10 {
            return None;
        }
        let base: i32 = match name {
            NoteName::C => 0,
            NoteName::D => 2,
            NoteName::E => 4,
            NoteName::F => 5,
            NoteName::G => 7,
            NoteName::A => 9,
            NoteName::B => 11,
        };
        let offset: i32 = match accidental {
            Accidental::Flat => -1,
            Accidental::Base => 0,
            Accidental::Sharp => 1,
        };
        let midi = 12 * (octave + 1) + base + offset;
        if midi < 0 || midi > 127 {
            None
        } else {
            Some(Note(midi as u8))
        }
    }

    /// The note with the given MIDI number.
    pub fn from_midi(midi: u8) -> (r: Note)
        requires
            midi <= 127,
        ensures
            r.midi() == midi,
    {
        Note(midi)
    }

    /// The MIDI number of the note.
    pub fn to_midi(self) -> (r: u8)
        ensures
            r == self.midi(),
            r <= 127,
    {
        proof {
            use_type_invariant(&self);
        }
        self.0
    }

    /// Position of the note on the scale, in semitones.
    pub fn index(self) -> (r: i32)
        ensures
            r == self.midi(),
    {
        self.0 as i32
    }
}

/// How strongly a note is played, as a fraction of the full strength.
#[derive(Debug, Clone, Copy, PartialEq, Eq, Structural)]
pub struct Velocity(Rational);

impl Velocity {
    /// The strength of the velocity.
    pub closed spec fn value(self) -> Rational {
        self.0
    }

    /// A velocity of the given strength.
    pub fn new(value: Rational) -> (v: Velocity)
        ensures
            v.value() == value,
    {
        Velocity(value)
    }

    /// The strength of the velocity.
    pub fn as_rational(self) -> (r: Rational)
        ensures
            r == self.value(),
    {
        self.0
    }
}

} // verus!
