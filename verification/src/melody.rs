//! A simple textual format for writing melodies while testing things.
//!
//! A melody is a sequence of notes (`c`, `a#5-`, `eb+.`), rests (`r`, `r-`)
//! and groups in braces. A group inside a sequence is a stack, whose parts
//! all start at the same time; a group inside a stack is a sequence again.
use vstd::prelude::*;
use crate::lexer::{is_dec_digit, run, CharClass};
use crate::note::{midi_number, Accidental, Note, NoteName, Velocity};
use crate::notation::{
    accidental_at, add_checked, dotted_length, holds, lemma_dotted_length_none, lemma_lowest, lemma_sign_run,
    lowest, max_notation_len, note_name_of, pow2, pow2_checked, sign_run, sum_checked,
};
use crate::arith::{abs_int, gcd_nat, lemma_reduce, reduced};
use vstd::arithmetic::power::lemma_pow_positive;
use crate::rational::{fits_i64, Rational};
use crate::text::{byte_offsets, chars_of};

verus! {

/// A note played in a song: which key, for how long, from when, and how strongly.
#[derive(Debug, Clone, Copy, PartialEq, Eq, Structural)]
pub struct PlayedNote {
    pub note: Note,
    pub duration: Rational,
    pub start: Rational,
    pub velocity: Velocity,
}

/// A note symbol of a melody.
#[derive(Debug, Clone, Copy, PartialEq, Eq, Structural)]
pub struct NoteSym {
    /// Which key was pressed
    pub note: Note,
    /// How long the note is held
    pub duration: Rational,
}

/// A symbol of a melody.
pub enum Sym {
    Note(NoteSym),
    Rest(Rational),
    GroupStart,
    GroupEnd,
}

/// Why a melody could not be read.
#[derive(Debug)]
pub enum ParseError {
    EOF,
    NoNote(char),
    /// A note could not be represented using MIDI encoding.
    UnrepresentableNote,
    Other(&'static str),
}

/// Why reading stops: an error, or arithmetic on the times that leaves the
/// range of the rationals.
pub enum Failure {
    Error(ParseError),
    Overflow,
}

/// The kinds of symbols.
#[derive(PartialEq, Eq, Structural)]
pub enum SymKind {
    Note,
    Rest,
    GroupStart,
    GroupEnd,
}

/// A symbol as read: its kind, the MIDI number of a note, and the duration
/// of a note or rest as a fraction in lowest terms.
pub struct SymView {
    pub kind: SymKind,
    pub midi: int,
    pub duration: (int, int),
}

/// A played note as read: MIDI number, duration and start.
pub type NoteView = (int, (int, int), (int, int));

/// A character `char::is_whitespace` accepts: one with the Unicode
/// `White_Space` property.
pub open spec fn is_whitespace(c: char) -> bool {
    ||| '\t' <= c <= '\r'
    ||| c == ' '
    ||| c == '\u{85}'
    ||| c == '\u{a0}'
    ||| c == '\u{1680}'
    ||| '\u{2000}' <= c <= '\u{200a}'
    ||| c == '\u{2028}'
    ||| c == '\u{2029}'
    ||| c == '\u{202f}'
    ||| c == '\u{205f}'
    ||| c == '\u{3000}'
}

/// Whether a character is whitespace.
pub fn is_whitespace_char(c: char) -> (r: bool)
    ensures
        r == is_whitespace(c),
{
    ('\t' <= c && c <= '\r') || c == ' ' || c == '\u{85}' || c == '\u{a0}' || c == '\u{1680}' || ('\u{2000}' <= c
        && c <= '\u{200a}') || c == '\u{2028}' || c == '\u{2029}' || c == '\u{202f}' || c == '\u{205f}' || c
        == '\u{3000}'
}

/// The index after the whitespace at `i`.
pub open spec fn skip_ws(s: Seq<char>, i: int) -> int
    decreases s.len() - i,
{
    if 0 <= i < s.len() && is_whitespace(s[i]) {
        skip_ws(s, i + 1)
    } else {
        i
    }
}

/// The duration written at `i`, and the index after it, or `None` when its
/// arithmetic overflows: lengths start as quarters, each `+` doubles, each
/// `-` halves, and each dot adds half of what the previous part added.
pub open spec fn melody_duration(s: Seq<char>, i: int) -> Option<((int, int), int)> {
    let (delta, a) = sign_run(s, i);
    let d = run(s, i + a, CharClass::Dots);
    match dotted_length(delta - 2, d) {
        None => None,
        Some(q) => Some((q, i + a + d)),
    }
}

/// The note written at `i`: a name, an optional accidental and an optional
/// one-digit octave, the fourth by default. The result holds its MIDI number
/// and the index after it.
pub open spec fn melody_note(s: Seq<char>, i: int) -> Result<(int, int), ParseError> {
    if !(0 <= i < s.len()) {
        Err(ParseError::EOF)
    } else {
        match note_name_of(s[i]) {
            None => Err(ParseError::NoNote(s[i])),
            Some(name) => {
                let (acc, j) = accidental_at(s, i + 1);
                let (octave, k) = if 0 <= j < s.len() && is_dec_digit(s[j]) {
                    (s[j] as int - '0' as int, j + 1)
                } else {
                    (4, j)
                };
                let m = midi_number(name, acc, octave);
                if 0 <= m <= 127 {
                    Ok((m, k))
                } else {
                    Err(ParseError::UnrepresentableNote)
                }
            },
        }
    }
}

/// The symbol at `i` (which starts no whitespace), and the index after it
/// and the whitespace that follows.
pub open spec fn melody_sym(s: Seq<char>, i: int) -> Result<(SymView, int), Failure> {
    if !(0 <= i < s.len()) {
        Err(Failure::Error(ParseError::EOF))
    } else {
        let c = s[i];
        if c == 'r' || c == 'R' {
            match melody_duration(s, i + 1) {
                None => Err(Failure::Overflow),
                Some((d, j)) => Ok((SymView { kind: SymKind::Rest, midi: 0, duration: d }, skip_ws(s, j))),
            }
        } else if ('a' <= c <= 'g') || ('A' <= c <= 'G') {
            match melody_note(s, i) {
                Err(e) => Err(Failure::Error(e)),
                Ok((m, j)) => match melody_duration(s, j) {
                    None => Err(Failure::Overflow),
                    Some((d, k)) => Ok((SymView { kind: SymKind::Note, midi: m, duration: d }, skip_ws(s, k))),
                },
            }
        } else if c == '{' {
            Ok((SymView { kind: SymKind::GroupStart, midi: 0, duration: (0, 1) }, skip_ws(s, i + 1)))
        } else if c == '}' {
            Ok((SymView { kind: SymKind::GroupEnd, midi: 0, duration: (0, 1) }, skip_ws(s, i + 1)))
        } else {
            Err(Failure::Error(ParseError::Other("Unknown symbol")))
        }
    }
}

/// The later of two times, `b` when they are equal, or `None` when
/// comparing them overflows.
pub open spec fn later_of(a: (int, int), b: (int, int)) -> Option<(int, int)> {
    if fits_i64(a.0 * b.1) && fits_i64(b.0 * a.1) {
        Some(if b.0 * a.1 < a.0 * b.1 { a } else { b })
    } else {
        None
    }
}

/// Read a sequence from `i` on, starting at time `t`, after the notes
/// `notes`: symbols follow each other in time; at the top level it ends at
/// the end of the text, inside a group at the closing brace. The result holds
/// the time after it, all notes so far and the index after it.
pub open spec fn melody_sequential(s: Seq<char>, i: int, top: bool, t: (int, int), notes: Seq<NoteView>) -> Result<
    ((int, int), Seq<NoteView>, int),
    Failure,
>
    decreases s.len() - i, 0int,
{
    if top && i >= s.len() {
        Ok((t, notes, i))
    } else {
        match melody_sym(s, i) {
            Err(f) => Err(f),
            Ok((sym, j)) => if !(i < j <= s.len()) {
                Err(Failure::Overflow)
            } else {
                match sym.kind {
                    SymKind::Rest => match sum_checked(t, sym.duration) {
                        None => Err(Failure::Overflow),
                        Some(t2) => melody_sequential(s, j, top, t2, notes),
                    },
                    SymKind::Note => match sum_checked(t, sym.duration) {
                        None => Err(Failure::Overflow),
                        Some(t2) => melody_sequential(s, j, top, t2, notes.push((sym.midi, sym.duration, t))),
                    },
                    SymKind::GroupStart => match melody_stack(s, j, t, t, notes) {
                        Err(f) => Err(f),
                        Ok((t2, ns, k)) => if !(j <= k <= s.len()) {
                            Err(Failure::Overflow)
                        } else {
                            melody_sequential(s, k, top, t2, ns)
                        },
                    },
                    SymKind::GroupEnd => if top {
                        Err(Failure::Error(ParseError::Other("Unmatched group end symbol")))
                    } else {
                        Ok((t, notes, j))
                    },
                }
            },
        }
    }
}

/// Read a stack from `i` on, whose parts all start at `start`; `t` is the
/// latest end so far. It ends at the closing brace, and the result holds the
/// latest end, all notes so far and the index after it.
pub open spec fn melody_stack(s: Seq<char>, i: int, start: (int, int), t: (int, int), notes: Seq<NoteView>) -> Result<
    ((int, int), Seq<NoteView>, int),
    Failure,
>
    decreases s.len() - i, 0int,
{
    match melody_sym(s, i) {
        Err(f) => Err(f),
        Ok((sym, j)) => if !(i < j <= s.len()) {
            Err(Failure::Overflow)
        } else {
            match sym.kind {
                SymKind::Rest => match sum_checked(start, sym.duration) {
                    None => Err(Failure::Overflow),
                    Some(e) => match later_of(t, e) {
                        None => Err(Failure::Overflow),
                        Some(t2) => melody_stack(s, j, start, t2, notes),
                    },
                },
                SymKind::Note => match sum_checked(start, sym.duration) {
                    None => Err(Failure::Overflow),
                    Some(e) => match later_of(t, e) {
                        None => Err(Failure::Overflow),
                        Some(t2) => melody_stack(s, j, start, t2, notes.push((sym.midi, sym.duration, start))),
                    },
                },
                SymKind::GroupStart => match melody_sequential(s, j, false, start, notes) {
                    Err(f) => Err(f),
                    Ok((e, ns, k)) => if !(j <= k <= s.len()) {
                        Err(Failure::Overflow)
                    } else {
                        match later_of(t, e) {
                            None => Err(Failure::Overflow),
                            Some(t2) => melody_stack(s, k, start, t2, ns),
                        }
                    },
                },
                SymKind::GroupEnd => Ok((t, notes, j)),
            }
        },
    }
}

/// The melody written in `s`, read from the first symbol on, or the error
/// that stops reading it.
pub open spec fn melody(s: Seq<char>) -> Result<Seq<NoteView>, Failure> {
    match melody_sequential(s, skip_ws(s, 0), true, (0, 1), seq![]) {
        Ok((_, notes, _)) => Ok(notes),
        Err(f) => Err(f),
    }
}


/// Whitespace skipping stays inside the text and moves forward.
pub proof fn lemma_skip_ws(s: Seq<char>, i: int)
    requires
        0 <= i <= s.len(),
    ensures
        i <= skip_ws(s, i) <= s.len(),
    decreases s.len() - i,
{
    if i < s.len() && is_whitespace(s[i]) {
        lemma_skip_ws(s, i + 1);
    }
}

/// A run of characters of a class stays inside the text.
proof fn lemma_run(s: Seq<char>, i: int, cc: CharClass)
    requires
        0 <= i <= s.len(),
    ensures
        i + run(s, i, cc) <= s.len(),
    decreases s.len() - i,
{
    if i < s.len() && crate::lexer::in_class(cc, s[i]) {
        lemma_run(s, i + 1, cc);
    }
}

/// Reading a symbol consumes at least one character, and no more than there are.
pub proof fn lemma_melody_sym(s: Seq<char>, i: int)
    requires
        0 <= i <= s.len(),
    ensures
        melody_sym(s, i) matches Ok((_, j)) ==> i < j <= s.len(),
{
    if i < s.len() {
        let c = s[i];
        lemma_skip_ws(s, i + 1);
        if c == 'r' || c == 'R' {
            lemma_duration_bounds(s, i + 1);
            if let Some((d, j)) = melody_duration(s, i + 1) {
                lemma_skip_ws(s, j);
            }
        } else {
            if let Ok((m, j)) = melody_note(s, i) {
                lemma_duration_bounds(s, j);
                if let Some((d, k)) = melody_duration(s, j) {
                    lemma_skip_ws(s, k);
                }
            }
        }
    }
}

/// A duration ends inside the text, not before it starts.
proof fn lemma_duration_bounds(s: Seq<char>, i: int)
    requires
        0 <= i <= s.len(),
    ensures
        melody_duration(s, i) matches Some((_, j)) ==> i <= j <= s.len(),
{
    lemma_sign_run(s, i);
    let a = sign_run(s, i).1;
    lemma_run(s, i + a, CharClass::Dots);
}

/// The view of a played note: MIDI number, duration and start.
pub open spec fn note_view(p: PlayedNote) -> NoteView {
    (p.note.midi(), (p.duration.n(), p.duration.d()), (p.start.n(), p.start.d()))
}

/// The views of played notes.
pub open spec fn note_views(ps: Seq<PlayedNote>) -> Seq<NoteView> {
    ps.map_values(|p: PlayedNote| note_view(p))
}

/// Every played note is in lowest terms and played at half strength.
pub open spec fn notes_ok(ps: Seq<PlayedNote>) -> bool {
    forall|k: int| 0 <= k < ps.len() ==> (#[trigger] ps[k]).duration.wf() && ps[k].start.wf() && holds(
        ps[k].velocity.value(),
        (1, 2),
    )
}

/// A symbol is the one read.
pub open spec fn sym_matches(x: Sym, v: SymView) -> bool {
    match x {
        Sym::Note(ns) => v.kind == SymKind::Note && ns.note.midi() == v.midi && holds(ns.duration, v.duration),
        Sym::Rest(d) => v.kind == SymKind::Rest && holds(d, v.duration),
        Sym::GroupStart => v.kind == SymKind::GroupStart,
        Sym::GroupEnd => v.kind == SymKind::GroupEnd,
    }
}

/// A position in the characters of a text.
pub struct Scan<'a> {
    source: &'a str,
    chars: Vec<char>,
    offsets: Vec<usize>,
    index: usize,
    position: usize,
}

impl<'a> Scan<'a> {
    /// The characters of the text.
    pub closed spec fn text(&self) -> Seq<char> {
        self.chars@
    }

    /// The index of the current character.
    pub closed spec fn at(&self) -> int {
        self.index as int
    }

    /// The byte offset of the character that `next` returned last, or 0.
    pub closed spec fn position(&self) -> nat {
        self.position as nat
    }

    /// The tables agree with the text.
    pub closed spec fn wf(&self) -> bool {
        &&& self.chars@ == self.source@
        &&& self.offsets.len() == self.chars.len() + 1
        &&& forall|k: int| 0 <= k <= self.chars.len() ==> #[trigger] self.offsets@[k] == crate::text::byte_offset(
            self.chars@,
            k,
        )
        &&& self.index <= self.chars.len()
    }

    /// The current character with its byte offset, if any.
    pub open spec fn current_spec(&self) -> Option<(usize, char)> {
        if self.at() < self.text().len() {
            Some((crate::text::byte_offset(self.text(), self.at()) as usize, self.text()[self.at()]))
        } else {
            None
        }
    }

    /// A scan at the start of a text.
    pub fn new(input: &'a str) -> (s: Scan<'a>)
        ensures
            s.wf(),
            s.text() == input@,
            s.at() == 0,
            s.position() == 0,
    {
        let chars = chars_of(input);
        let bytes = input.as_bytes();
        let n = bytes.len();
        proof {
            assert(bytes@ == vstd::utf8::encode_utf8(input@));
            assert(n == bytes@.len());
        }
        let offsets = byte_offsets(&chars);
        Self { source: input, chars, offsets, index: 0, position: 0 }
    }

    /// Whether the text is used up.
    pub fn is_eof(&mut self) -> (r: bool)
        requires
            old(self).wf(),
        ensures
            *final(self) == *old(self),
            r == (old(self).at() >= old(self).text().len()),
    {
        self.index >= self.chars.len()
    }

    /// The current character with its byte offset, if any.
    pub fn current(&mut self) -> (r: Option<(usize, char)>)
        requires
            old(self).wf(),
        ensures
            *final(self) == *old(self),
            r == old(self).current_spec(),
    {
        if self.index < self.chars.len() {
            Some((self.offsets[self.index], self.chars[self.index]))
        } else {
            None
        }
    }

    /// The current character with its byte offset, if any, moving past it.
    pub fn next(&mut self) -> (r: Option<(usize, char)>)
        requires
            old(self).wf(),
        ensures
            final(self).wf(),
            final(self).text() == old(self).text(),
            r == old(self).current_spec(),
            final(self).at() == (if r is Some { old(self).at() + 1 } else { old(self).at() }),
            final(self).position() == (match r {
                Some((o, _)) => o as nat,
                None => old(self).position(),
            }),
    {
        if self.index < self.chars.len() {
            let current = (self.offsets[self.index], self.chars[self.index]);
            self.position = current.0;
            self.index = self.index + 1;
            Some(current)
        } else {
            None
        }
    }

    /// Move past the current character, if any.
    pub fn advance(&mut self)
        requires
            old(self).wf(),
        ensures
            final(self).wf(),
            final(self).text() == old(self).text(),
            final(self).at() == (if old(self).at() < old(self).text().len() {
                old(self).at() + 1
            } else {
                old(self).at()
            }),
            final(self).position() == old(self).position(),
    {
        if self.index < self.chars.len() {
            self.index = self.index + 1;
        }
    }

    /// Move past whitespace.
    pub fn skip_whitespace(&mut self)
        requires
            old(self).wf(),
        ensures
            final(self).wf(),
            final(self).text() == old(self).text(),
            final(self).at() == skip_ws(old(self).text(), old(self).at()),
            final(self).position() == old(self).position(),
    {
        while self.index < self.chars.len() && is_whitespace_char(self.chars[self.index])
            invariant
                self.wf(),
                self.text() == old(self).text(),
                self.position() == old(self).position(),
                skip_ws(old(self).text(), old(self).at()) == skip_ws(self.text(), self.at()),
            decreases self.text().len() - self.at(),
        {
            self.index = self.index + 1;
        }
    }
}

/// Reads a melody.
pub struct Parser<'a> {
    stream: Scan<'a>,
}

impl<'a> Parser<'a> {
    /// The characters of the text.
    pub closed spec fn text(&self) -> Seq<char> {
        self.stream.text()
    }

    /// The index of the current character.
    pub closed spec fn at(&self) -> int {
        self.stream.at()
    }

    /// The scan is consistent and the text short enough.
    pub closed spec fn wf(&self) -> bool {
        self.stream.wf() && self.text().len() <= max_notation_len()
    }

    pub fn new(input: &'a str) -> (p: Parser<'a>)
        requires
            input@.len() <= max_notation_len(),
        ensures
            p.wf(),
            p.text() == input@,
            p.at() == skip_ws(input@, 0),
    {
        let mut stream = Scan::new(input);
        stream.skip_whitespace();
        Self { stream }
    }

    pub fn is_eof(&mut self) -> (r: bool)
        requires
            old(self).wf(),
        ensures
            *final(self) == *old(self),
            r == (old(self).at() >= old(self).text().len()),
    {
        self.stream.is_eof()
    }

    fn expect_char(&mut self) -> (r: Result<char, ParseError>)
        requires
            old(self).wf(),
        ensures
            final(self).wf(),
            final(self).text() == old(self).text(),
            old(self).at() < old(self).text().len() ==> r == Ok::<char, ParseError>(old(self).text()[old(self).at()])
                && final(self).at() == old(self).at() + 1,
            old(self).at() >= old(self).text().len() ==> (r matches Err(ParseError::EOF) && final(self).at() == old(
                self,
            ).at()),
    {
        if let Some((_, ch)) = self.stream.next() {
            Ok(ch)
        } else {
            Err(ParseError::EOF)
        }
    }

    fn peek_char(&mut self) -> (r: Result<char, ParseError>)
        requires
            old(self).wf(),
        ensures
            *final(self) == *old(self),
            old(self).at() < old(self).text().len() ==> r == Ok::<char, ParseError>(old(self).text()[old(self).at()]),
            old(self).at() >= old(self).text().len() ==> r matches Err(ParseError::EOF),
    {
        if let Some((_, ch)) = self.stream.current() {
            Ok(ch)
        } else {
            Err(ParseError::EOF)
        }
    }

    fn peek_char_optional(&mut self) -> (r: Option<char>)
        requires
            old(self).wf(),
        ensures
            *final(self) == *old(self),
            r == (if old(self).at() < old(self).text().len() {
                Some(old(self).text()[old(self).at()])
            } else {
                None
            }),
    {
        if let Some((_, ch)) = self.stream.current() {
            Some(ch)
        } else {
            None
        }
    }

    /// Read a duration.
    pub fn parse_duration(&mut self) -> (r: Result<Rational, ParseError>)
        requires
            old(self).wf(),
            melody_duration(old(self).text(), old(self).at()) is Some,
        ensures
            final(self).wf(),
            final(self).text() == old(self).text(),
            melody_duration(old(self).text(), old(self).at()) matches Some((q, j)) && (r matches Ok(v) && holds(v, q)
                && final(self).at() == j),
    {
        let ghost s = self.text();
        let ghost i = self.at();
        proof {
            lemma_sign_run(s, i);
            assert(s.len() <= max_notation_len());
        }
        // first in powers of two
        let mut power: i64 = -2;
        loop
            invariant
                self.wf(),
                self.text() == s,
                0 <= i <= self.at() <= s.len(),
                s.len() <= max_notation_len(),
                -2 - (self.at() - i) <= power <= -2 + (self.at() - i),
                sign_run(s, i) == (power + 2 + sign_run(s, self.at()).0, (self.at() - i) + sign_run(s, self.at()).1),
            ensures
                self.wf(),
                self.text() == s,
                i <= self.at() <= s.len(),
                sign_run(s, i) == (power + 2, self.at() - i),
            decreases s.len() - self.at(),
        {
            match self.stream.current() {
                Some((_, '+')) => {
                    self.stream.advance();
                    power = power + 1;
                },
                Some((_, '-')) => {
                    self.stream.advance();
                    power = power - 1;
                },
                _ => break,
            }
        }
        // then the dots
        let ghost a = self.at();
        let mut dots: i64 = 0;
        loop
            invariant
                self.wf(),
                self.text() == s,
                a <= self.at() <= s.len(),
                dots == self.at() - a,
                run(s, a, CharClass::Dots) == dots + run(s, self.at(), CharClass::Dots),
            ensures
                self.wf(),
                self.text() == s,
                a <= self.at() <= s.len(),
                dots == self.at() - a,
                run(s, a, CharClass::Dots) == dots,
            decreases s.len() - self.at(),
        {
            match self.peek_char_optional() {
                Some('.') => {
                    let _ = self.expect_char();
                    dots = dots + 1;
                },
                _ => break,
            }
        }
        // Then put everything together
        let mut duration = match pow2(power) {
            Some(v) => v,
            None => {
                proof {
                    lemma_dotted_length_none(power as int, 0, dots as nat);
                }
                return Err(ParseError::EOF);
            },
        };
        let mut k: i64 = 0;
        while k < dots
            invariant
                0 <= k <= dots <= s.len(),
                s.len() <= max_notation_len(),
                -2 - s.len() <= power <= s.len(),
                duration.wf(),
                dotted_length(power as int, k as nat) == Some((duration.n(), duration.d())),
                dotted_length(power as int, dots as nat) is Some,
            decreases dots - k,
        {
            // each dot is worth half of the previous addition
            let half = match pow2(power - k - 1) {
                Some(v) => v,
                None => {
                    proof {
                        lemma_dotted_length_none(power as int, (k + 1) as nat, dots as nat);
                    }
                    return Err(ParseError::EOF);
                },
            };
            duration = match add_checked(duration, half) {
                Some(v) => v,
                None => {
                    proof {
                        lemma_dotted_length_none(power as int, (k + 1) as nat, dots as nat);
                    }
                    return Err(ParseError::EOF);
                },
            };
            k = k + 1;
        }
        Ok(duration)
    }

    /// Read a note name, accidental and octave.
    pub fn parse_note(&mut self) -> (r: Result<Note, ParseError>)
        requires
            old(self).wf(),
        ensures
            final(self).wf(),
            final(self).text() == old(self).text(),
            match melody_note(old(self).text(), old(self).at()) {
                Ok((m, k)) => (r matches Ok(n) && n.midi() == m && final(self).at() == k),
                Err(e) => r == Err::<Note, ParseError>(e),
            },
    {
        let ghost s = self.text();
        let ghost i = self.at();
        // First comes the name
        let c = match self.expect_char() {
            Ok(c) => c,
            Err(e) => return Err(e),
        };
        let name = match note_name(c) {
            Some(n) => n,
            None => return Err(ParseError::NoNote(c)),
        };
        // Then any accidental
        let accidental = match self.peek_char_optional() {
            Some(ch) => {
                if ch == '♯' || ch == '#' {
                    self.stream.advance();
                    Accidental::Sharp
                } else if ch == '♭' || ch == 'b' {
                    self.stream.advance();
                    Accidental::Flat
                } else {
                    Accidental::Base
                }
            },
            _ => Accidental::Base,
        };
        // Then the octave
        let octave: i32 = match self.stream.current() {
            Some((_, ch)) => {
                if '0' <= ch && ch <= '9' {
                    self.stream.advance();
                    (ch as u32 - '0' as u32) as i32
                } else {
                    4
                }
            },
            _ => 4,
        };
        match Note::try_named(name, accidental, octave) {
            Some(n) => Ok(n),
            None => Err(ParseError::UnrepresentableNote),
        }
    }

    /// Read a note and its duration.
    pub fn parse_note_sym(&mut self) -> (r: Result<NoteSym, ParseError>)
        requires
            old(self).wf(),
            melody_note(old(self).text(), old(self).at()) matches Ok((_, j)) ==> melody_duration(old(self).text(), j)
                is Some,
        ensures
            final(self).wf(),
            final(self).text() == old(self).text(),
            match melody_note(old(self).text(), old(self).at()) {
                Ok((m, j)) => melody_duration(old(self).text(), j) matches Some((q, k)) && (r matches Ok(ns)
                    && ns.note.midi() == m && holds(ns.duration, q) && final(self).at() == skip_ws(old(self).text(), k)),
                Err(e) => r == Err::<NoteSym, ParseError>(e),
            },
    {
        let note = match self.parse_note() {
            Ok(n) => n,
            Err(e) => return Err(e),
        };
        let duration = match self.parse_duration() {
            Ok(d) => d,
            Err(e) => return Err(e),
        };
        self.stream.skip_whitespace();
        Ok(NoteSym { note, duration })
    }

    /// Read a symbol.
    pub fn parse_sym(&mut self) -> (r: Result<Sym, ParseError>)
        requires
            old(self).wf(),
            !(melody_sym(old(self).text(), old(self).at()) matches Err(Failure::Overflow)),
        ensures
            final(self).wf(),
            final(self).text() == old(self).text(),
            match melody_sym(old(self).text(), old(self).at()) {
                Ok((v, j)) => (r matches Ok(x) && sym_matches(x, v) && final(self).at() == j),
                Err(Failure::Error(e)) => r == Err::<Sym, ParseError>(e),
                Err(Failure::Overflow) => false,
            },
    {
        let c = match self.peek_char() {
            Ok(c) => c,
            Err(e) => return Err(e),
        };
        if c == 'r' || c == 'R' {
            let _ = self.expect_char();
            let duration = match self.parse_duration() {
                Ok(d) => d,
                Err(e) => return Err(e),
            };
            self.stream.skip_whitespace();
            Ok(Sym::Rest(duration))
        } else if ('a' <= c && c <= 'g') || ('A' <= c && c <= 'G') {
            match self.parse_note_sym() {
                Ok(ns) => Ok(Sym::Note(ns)),
                Err(e) => Err(e),
            }
        } else if c == '{' {
            let _ = self.expect_char();
            self.stream.skip_whitespace();
            Ok(Sym::GroupStart)
        } else if c == '}' {
            let _ = self.expect_char();
            self.stream.skip_whitespace();
            Ok(Sym::GroupEnd)
        } else {
            Err(ParseError::Other("Unknown symbol"))
        }
    }
}

/// The note name a letter stands for.
fn note_name(c: char) -> (r: Option<NoteName>)
    ensures
        r == note_name_of(c),
{
    if c == 'a' || c == 'A' {
        Some(NoteName::A)
    } else if c == 'b' || c == 'B' {
        Some(NoteName::B)
    } else if c == 'c' || c == 'C' {
        Some(NoteName::C)
    } else if c == 'd' || c == 'D' {
        Some(NoteName::D)
    } else if c == 'e' || c == 'E' {
        Some(NoteName::E)
    } else if c == 'f' || c == 'F' {
        Some(NoteName::F)
    } else if c == 'g' || c == 'G' {
        Some(NoteName::G)
    } else {
        None
    }
}


/// The sum of two times, which must not overflow.
fn time_sum(a: Rational, b: Rational) -> (r: Rational)
    requires
        a.wf(),
        b.wf(),
        sum_checked((a.n(), a.d()), (b.n(), b.d())) is Some,
    ensures
        r.wf(),
        sum_checked((a.n(), a.d()), (b.n(), b.d())) == Some((r.n(), r.d())),
{
    match add_checked(a, b) {
        Some(v) => v,
        None => a,
    }
}

/// The later of two times, the second when they are equal; comparing them
/// must not overflow.
fn time_max(a: Rational, b: Rational) -> (r: Rational)
    requires
        a.wf(),
        b.wf(),
        later_of((a.n(), a.d()), (b.n(), b.d())) is Some,
    ensures
        r.wf(),
        later_of((a.n(), a.d()), (b.n(), b.d())) == Some((r.n(), r.d())),
{
    a.max(b)
}

/// One half, the strength melody notes are played with.
fn half() -> (r: Rational)
    ensures
        holds(r, (1, 2)),
{
    let r = Rational::new(1, 2);
    proof {
        assert(crate::arith::gcd_nat(1, 2) == crate::arith::gcd_nat(2, 1nat % 2));
        assert(crate::arith::gcd_nat(2, 1) == crate::arith::gcd_nat(1, 2nat % 1));
        assert(crate::arith::gcd_nat(1, 0) == 1);
        crate::arith::lemma_reduced_unique(r.n(), r.d(), 1, 2);
    }
    r
}

impl<'a> Parser<'a> {
    /// Parse the notes and nested groups inside the current group as a
    /// sequence, starting at time `start`; a group inside it becomes a stack.
    /// At the top level, the sequence runs to the end of the text; inside a
    /// group, to its closing brace.
    pub fn parse_sequential(&mut self, top_level: bool, start: Rational, notes: &mut Vec<PlayedNote>) -> (r: Result<
        Rational,
        ParseError,
    >)
        requires
            old(self).wf(),
            start.wf(),
            notes_ok(old(notes)@),
            !(melody_sequential(old(self).text(), old(self).at(), top_level, (start.n(), start.d()), note_views(old(notes)@))
                matches Err(Failure::Overflow)),
        ensures
            final(self).wf(),
            final(self).text() == old(self).text(),
            notes_ok(final(notes)@),
            match melody_sequential(old(self).text(), old(self).at(), top_level, (start.n(), start.d()), note_views(old(notes)@)) {
                Ok((t, ns, k)) => (r matches Ok(v) && holds(v, t)) && note_views(final(notes)@) == ns && final(self).at() == k,
                Err(Failure::Error(e)) => r == Err::<Rational, ParseError>(e),
                Err(Failure::Overflow) => false,
            },
        decreases old(self).text().len() - old(self).at(), 1int,
    {
        let ghost s = self.text();
        let ghost i0 = self.at();
        let ghost goal = melody_sequential(s, i0, top_level, (start.n(), start.d()), note_views(notes@));
        let mut time = start;
        // When parsing the top-level sequence, parse until EOF, otherwise, parse until group end symbol
        loop
            invariant_except_break
                self.wf(),
                self.text() == s,
                i0 <= self.at() <= s.len(),
                time.wf(),
                notes_ok(notes@),
                goal == melody_sequential(s, self.at(), top_level, (time.n(), time.d()), note_views(notes@)),
                !(goal matches Err(Failure::Overflow)),
                i0 == old(self).at(),
                s == old(self).text(),
                goal == melody_sequential(old(self).text(), old(self).at(), top_level, (start.n(), start.d()), note_views(old(notes)@)),
            ensures
                self.wf(),
                self.text() == s,
                time.wf(),
                notes_ok(notes@),
                goal == Ok::<((int, int), Seq<NoteView>, int), Failure>(((time.n(), time.d()), note_views(notes@), self.at())),
            decreases s.len() - self.at(),
        {
            if top_level && self.is_eof() {
                break;
            }
            let ghost i = self.at();
            proof {
                lemma_melody_sym(s, i);
            }
            let sym = match self.parse_sym() {
                Ok(x) => x,
                Err(e) => return Err(e),
            };
            match sym {
                Sym::Rest(duration) => {
                    time = time_sum(time, duration);
                },
                Sym::Note(ns) => {
                    let ghost before = notes@;
                    let played = PlayedNote { note: ns.note, duration: ns.duration, start: time, velocity: Velocity::new(half()) };
                    notes.push(played);
                    proof {
                        assert(note_views(notes@) =~= note_views(before).push(note_view(played)));
                    }
                    time = time_sum(time, ns.duration);
                },
                Sym::GroupStart => {
                    // A group inside a sequence becomes a stack
                    time = match self.parse_stack(time, notes) {
                        Ok(t) => t,
                        Err(e) => return Err(e),
                    };
                },
                Sym::GroupEnd => {
                    if top_level {
                        return Err(ParseError::Other("Unmatched group end symbol"));
                    } else {
                        break;
                    }
                },
            }
        }
        Ok(time)
    }

    /// Parse the notes and nested groups inside the current group as a stack
    /// (playing all at the same time), up to its closing brace. Returns the
    /// new time after the stack: the latest end among its parts.
    pub fn parse_stack(&mut self, start: Rational, notes: &mut Vec<PlayedNote>) -> (r: Result<Rational, ParseError>)
        requires
            old(self).wf(),
            start.wf(),
            notes_ok(old(notes)@),
            !(melody_stack(old(self).text(), old(self).at(), (start.n(), start.d()), (start.n(), start.d()), note_views(old(notes)@))
                matches Err(Failure::Overflow)),
        ensures
            final(self).wf(),
            final(self).text() == old(self).text(),
            notes_ok(final(notes)@),
            match melody_stack(old(self).text(), old(self).at(), (start.n(), start.d()), (start.n(), start.d()), note_views(old(notes)@)) {
                Ok((t, ns, k)) => (r matches Ok(v) && holds(v, t)) && note_views(final(notes)@) == ns && final(self).at() == k,
                Err(Failure::Error(e)) => r == Err::<Rational, ParseError>(e),
                Err(Failure::Overflow) => false,
            },
        decreases old(self).text().len() - old(self).at(), 0int,
    {
        let ghost s = self.text();
        let ghost i0 = self.at();
        let ghost goal = melody_stack(s, i0, (start.n(), start.d()), (start.n(), start.d()), note_views(notes@));
        let mut time = start;
        loop
            invariant_except_break
                self.wf(),
                self.text() == s,
                i0 <= self.at() <= s.len(),
                time.wf(),
                start.wf(),
                notes_ok(notes@),
                goal == melody_stack(s, self.at(), (start.n(), start.d()), (time.n(), time.d()), note_views(notes@)),
                !(goal matches Err(Failure::Overflow)),
                i0 == old(self).at(),
                s == old(self).text(),
                goal == melody_stack(old(self).text(), old(self).at(), (start.n(), start.d()), (start.n(), start.d()), note_views(old(notes)@)),
            ensures
                self.wf(),
                self.text() == s,
                time.wf(),
                notes_ok(notes@),
                goal == Ok::<((int, int), Seq<NoteView>, int), Failure>(((time.n(), time.d()), note_views(notes@), self.at())),
            decreases s.len() - self.at(),
        {
            let ghost i = self.at();
            proof {
                lemma_melody_sym(s, i);
            }
            // Will fail on EOF because each nested sequence must be terminated by a group end,
            // which exits the loop.
            let sym = match self.parse_sym() {
                Ok(x) => x,
                Err(e) => return Err(e),
            };
            match sym {
                Sym::Rest(duration) => {
                    let end = time_sum(start, duration);
                    time = time_max(time, end);
                },
                Sym::Note(ns) => {
                    let ghost before = notes@;
                    let played = PlayedNote { note: ns.note, duration: ns.duration, start, velocity: Velocity::new(half()) };
                    notes.push(played);
                    proof {
                        assert(note_views(notes@) =~= note_views(before).push(note_view(played)));
                    }
                    let end = time_sum(start, ns.duration);
                    time = time_max(time, end);
                },
                Sym::GroupStart => {
                    // A group inside a stack becomes a sequence
                    let new_time = match self.parse_sequential(false, start, notes) {
                        Ok(t) => t,
                        Err(e) => return Err(e),
                    };
                    time = time_max(time, new_time);
                },
                Sym::GroupEnd => break,
            }
        }
        Ok(time)
    }

    /// Parse the whole text as a melody.
    pub fn parse_root(&mut self) -> (r: Result<Vec<PlayedNote>, ParseError>)
        requires
            old(self).wf(),
            !(melody_sequential(old(self).text(), old(self).at(), true, (0, 1), seq![]) matches Err(Failure::Overflow)),
        ensures
            match melody_sequential(old(self).text(), old(self).at(), true, (0, 1), seq![]) {
                Ok((_, ns, _)) => r matches Ok(notes) && note_views(notes@) == ns && notes_ok(notes@),
                Err(Failure::Error(e)) => r == Err::<Vec<PlayedNote>, ParseError>(e),
                Err(Failure::Overflow) => false,
            },
    {
        let mut notes: Vec<PlayedNote> = Vec::new();
        let zero = Rational::zero();
        proof {
            assert(note_views(notes@) == Seq::<NoteView>::empty());
            assert(crate::arith::gcd_nat(0, 1) == crate::arith::gcd_nat(1, 0nat % 1));
        }
        match self.parse_sequential(true, zero, &mut notes) {
            Ok(_) => Ok(notes),
            Err(e) => Err(e),
        }
    }
}

/// A melody can be read without its times leaving the range of the rationals.
pub open spec fn melody_fits(s: Seq<char>) -> bool {
    s.len() <= max_notation_len() && !(melody(s) matches Err(Failure::Overflow))
}

/// Parse a melody described in a textual format: the notes in the order they
/// are written, each with its start time and played at half strength, or the
/// error that stops reading.
pub fn parse_melody(input: &str) -> (r: Result<Vec<PlayedNote>, ParseError>)
    requires
        melody_fits(input@),
    ensures
        match melody(input@) {
            Ok(ns) => r matches Ok(notes) && note_views(notes@) == ns && notes_ok(notes@),
            Err(Failure::Error(e)) => r == Err::<Vec<PlayedNote>, ParseError>(e),
            Err(Failure::Overflow) => false,
        },
{
    let mut p = Parser::new(input);
    p.parse_root()
}

/// Time `a` is no later than time `b` (both with positive denominators).
pub open spec fn time_le(a: (int, int), b: (int, int)) -> bool {
    a.0 * b.1 <= b.0 * a.1
}

/// When a played note ends: its start plus its duration.
pub open spec fn note_end(n: NoteView) -> (int, int) {
    (n.2.0 * n.1.1 + n.2.1 * n.1.0, n.2.1 * n.1.1)
}

/// The pair `lowest` picks is a fraction in lowest terms of the same value.
proof fn lemma_lowest_value(x: int, y: int)
    requires
        y > 0,
    ensures
        reduced(lowest(x, y).0, lowest(x, y).1),
        lowest(x, y).1 > 0,
        lowest(x, y).0 * y == x * lowest(x, y).1,
{
    let (kx, ky) = lemma_reduce(abs_int(x) as nat, y as nat);
    let g = gcd_nat(abs_int(x) as nat, y as nat);
    let w0: int = if x < 0 { -kx } else { kx as int };
    let w: (int, int) = (w0, ky as int);
    assert(abs_int(w0) == kx);
    assert(reduced(w.0, w.1));
    assert(w.0 * y == x * w.1) by (nonlinear_arith)
        requires
            abs_int(x) == g * kx,
            y == g * ky,
            w0 == (if x < 0 { -kx } else { kx as int }),
            w.0 == w0,
            w.1 == ky,
    {
        if x < 0 {
        } else {
        }
    }
    assert(reduced(w.0, w.1) && w.0 * y == x * w.1);
}

/// A checked sum is, when it exists, the exact sum in lowest terms.
proof fn lemma_sum_value(a: (int, int), b: (int, int))
    requires
        a.1 > 0,
        b.1 > 0,
        sum_checked(a, b) is Some,
    ensures
        sum_checked(a, b).unwrap().1 > 0,
        sum_checked(a, b).unwrap().0 * (a.1 * b.1) == (a.0 * b.1 + a.1 * b.0) * sum_checked(a, b).unwrap().1,
{
    assert(a.1 * b.1 > 0) by (nonlinear_arith) requires a.1 > 0, b.1 > 0;
    lemma_lowest_value(a.0 * b.1 + a.1 * b.0, a.1 * b.1);
}

/// A power of two is a positive fraction.
proof fn lemma_pow2_positive(p: int)
    ensures
        pow2_checked(p) matches Some(q) ==> q.0 > 0 && q.1 > 0,
{
    if 0 <= p <= 62 {
        lemma_pow_positive(2, p as nat);
    } else if -62 <= p < 0 {
        lemma_pow_positive(2, (-p) as nat);
    }
}

/// A dotted length is a positive fraction.
proof fn lemma_dotted_positive(p: int, d: nat)
    ensures
        dotted_length(p, d) matches Some(q) ==> q.0 > 0 && q.1 > 0,
    decreases d,
{
    if d == 0 {
        lemma_pow2_positive(p);
    } else {
        lemma_dotted_positive(p, (d - 1) as nat);
        lemma_pow2_positive(p - d);
        if let Some(a) = dotted_length(p, (d - 1) as nat) {
            if let Some(b) = pow2_checked(p - d) {
                if let Some(c) = sum_checked(a, b) {
                    lemma_sum_value(a, b);
                    assert(c.0 > 0) by (nonlinear_arith)
                        requires
                            c.0 * (a.1 * b.1) == (a.0 * b.1 + a.1 * b.0) * c.1,
                            a.0 > 0, a.1 > 0, b.0 > 0, b.1 > 0, c.1 > 0,
                    ;
                }
            }
        }
    }
}

/// Notes and rests last a positive time.
proof fn lemma_sym_duration(s: Seq<char>, i: int)
    ensures
        melody_sym(s, i) matches Ok((v, _)) ==> (v.kind == SymKind::Note || v.kind == SymKind::Rest) ==> (
        v.duration.0 > 0 && v.duration.1 > 0),
{
    if 0 <= i < s.len() {
        let c = s[i];
        if c == 'r' || c == 'R' {
            let (delta, a) = sign_run(s, i + 1);
            lemma_dotted_positive(delta - 2, run(s, i + 1 + a, CharClass::Dots));
        } else if let Ok((m, j)) = melody_note(s, i) {
            let (delta, a) = sign_run(s, j);
            lemma_dotted_positive(delta - 2, run(s, j + a, CharClass::Dots));
        }
    }
}

/// Time order is transitive.
proof fn lemma_time_le_trans(a: (int, int), b: (int, int), c: (int, int))
    requires
        a.1 > 0,
        b.1 > 0,
        c.1 > 0,
        time_le(a, b),
        time_le(b, c),
    ensures
        time_le(a, c),
{
    let (an, ad, bn, bd, cn, cd) = (a.0, a.1, b.0, b.1, c.0, c.1);
    assert((an * cd) * bd <= (bn * ad) * cd) by (nonlinear_arith) requires an * bd <= bn * ad, cd > 0;
    assert((bn * cd) * ad <= (cn * ad) * bd) by (nonlinear_arith) requires bn * cd <= cn * bd, ad > 0;
    assert((bn * ad) * cd == (bn * cd) * ad) by (nonlinear_arith);
    assert(an * cd <= cn * ad) by (nonlinear_arith)
        requires (an * cd) * bd <= (cn * ad) * bd, bd > 0;
}

/// Adding a duration that is not negative moves a time forward, and a note
/// that starts at `a` and lasts `b` ends at the sum.
proof fn lemma_sum_later(a: (int, int), b: (int, int))
    requires
        a.1 > 0,
        b.1 > 0,
        b.0 >= 0,
        sum_checked(a, b) is Some,
    ensures
        sum_checked(a, b).unwrap().1 > 0,
        time_le(a, sum_checked(a, b).unwrap()),
        time_le(note_end((0, b, a)), sum_checked(a, b).unwrap()),
{
    lemma_sum_value(a, b);
    let c = sum_checked(a, b).unwrap();
    assert(a.0 * c.1 <= c.0 * a.1) by (nonlinear_arith)
        requires
            c.0 * (a.1 * b.1) == (a.0 * b.1 + a.1 * b.0) * c.1,
            a.1 > 0, b.1 > 0, b.0 >= 0, c.1 > 0,
    ;
    assert((a.0 * b.1 + a.1 * b.0) * c.1 == c.0 * (a.1 * b.1));
}

/// The later of two times is no earlier than either.
proof fn lemma_later_of(a: (int, int), b: (int, int))
    requires
        a.1 > 0,
        b.1 > 0,
        later_of(a, b) is Some,
    ensures
        later_of(a, b).unwrap().1 > 0,
        time_le(a, later_of(a, b).unwrap()),
        time_le(b, later_of(a, b).unwrap()),
{
}

/// `ns` keeps `notes` as they were and adds to them.
pub open spec fn extends(ns: Seq<NoteView>, notes: Seq<NoteView>) -> bool {
    notes.len() <= ns.len() && ns.subrange(0, notes.len() as int) == notes
}

/// Every note of `ns` from index `from` on starts no earlier than `lo` and
/// ends no later than `hi`.
pub open spec fn notes_within(ns: Seq<NoteView>, from: int, lo: (int, int), hi: (int, int)) -> bool {
    forall|m: int|
        from <= m < ns.len() ==> (#[trigger] ns[m]).1.1 > 0 && ns[m].2.1 > 0 && time_le(lo, ns[m].2) && time_le(
            note_end(ns[m]),
            hi,
        )
}

/// Adding to what was added to keeps the first notes.
proof fn lemma_extends_trans(a: Seq<NoteView>, b: Seq<NoteView>, c: Seq<NoteView>)
    requires
        extends(b, a),
        extends(c, b),
    ensures
        extends(c, a),
        forall|m: int| 0 <= m < b.len() ==> c[m] == #[trigger] b[m],
{
    assert forall|m: int| 0 <= m < b.len() implies c[m] == #[trigger] b[m] by {
        assert(c.subrange(0, b.len() as int)[m] == c[m]);
    }
    assert(c.subrange(0, a.len() as int) =~= a) by {
        assert forall|m: int| 0 <= m < a.len() implies c.subrange(0, a.len() as int)[m] == a[m] by {
            assert(b.subrange(0, a.len() as int)[m] == b[m]);
        }
    }
}

/// Widening the bounds of the notes: an earlier lower bound, a later upper one.
proof fn lemma_within_widen(
    ns: Seq<NoteView>,
    from: int,
    lo: (int, int),
    hi: (int, int),
    lo2: (int, int),
    hi2: (int, int),
)
    requires
        notes_within(ns, from, lo, hi),
        lo.1 > 0,
        hi.1 > 0,
        lo2.1 > 0,
        hi2.1 > 0,
        time_le(lo2, lo),
        time_le(hi, hi2),
    ensures
        notes_within(ns, from, lo2, hi2),
{
    assert forall|m: int| from <= m < ns.len() implies (#[trigger] ns[m]).1.1 > 0 && ns[m].2.1 > 0 && time_le(
        lo2,
        ns[m].2,
    ) && time_le(note_end(ns[m]), hi2) by {
        let n = ns[m];
        assert(note_end(n).1 > 0) by (nonlinear_arith) requires n.2.1 > 0, n.1.1 > 0, note_end(n).1 == n.2.1 * n.1.1;
        lemma_time_le_trans(lo2, lo, n.2);
        lemma_time_le_trans(note_end(n), hi, hi2);
    }
}

/// Carrying bounds over from a run of notes to a longer run that keeps it:
/// the notes of `b` from `from` on are within `lo` and `hi`, and so are the
/// notes `c` adds after `b`; then all notes of `c` from `from` on are.
proof fn lemma_within_extend(
    b: Seq<NoteView>,
    c: Seq<NoteView>,
    from: int,
    lo: (int, int),
    hi: (int, int),
)
    requires
        0 <= from,
        notes_within(b, from, lo, hi),
        notes_within(c, b.len() as int, lo, hi),
        forall|m: int| 0 <= m < b.len() ==> c[m] == #[trigger] b[m],
        b.len() <= c.len(),
    ensures
        notes_within(c, from, lo, hi),
{
    assert forall|m: int| from <= m < c.len() implies (#[trigger] c[m]).1.1 > 0 && c[m].2.1 > 0 && time_le(
        lo,
        c[m].2,
    ) && time_le(note_end(c[m]), hi) by {
        if m < b.len() {
            assert(c[m] == b[m]);
        }
    }
}

/// A sequence moves time forward: it ends no earlier than it starts, keeps
/// the notes read before it, and each note it adds starts no earlier than
/// the sequence and ends no later than the time it returns, notes in nested
/// stacks included.
pub proof fn law_sequence_times(s: Seq<char>, i: int, top: bool, t: (int, int), notes: Seq<NoteView>)
    requires
        t.1 > 0,
    ensures
        melody_sequential(s, i, top, t, notes) matches Ok((t2, ns, _)) ==> t2.1 > 0 && time_le(t, t2) && extends(
            ns,
            notes,
        ) && notes_within(ns, notes.len() as int, t, t2),
    decreases s.len() - i, 0int,
{
    if top && i >= s.len() {
        assert(notes.subrange(0, notes.len() as int) =~= notes);
        return;
    }
    lemma_sym_duration(s, i);
    match melody_sym(s, i) {
        Err(_) => {},
        Ok((sym, j)) => {
            if i < j <= s.len() {
                match sym.kind {
                    SymKind::Rest => {
                        if let Some(t1) = sum_checked(t, sym.duration) {
                            lemma_sum_later(t, sym.duration);
                            law_sequence_times(s, j, top, t1, notes);
                            if let Ok((t2, ns, _)) = melody_sequential(s, j, top, t1, notes) {
                                lemma_time_le_trans(t, t1, t2);
                                lemma_within_widen(ns, notes.len() as int, t1, t2, t, t2);
                            }
                        }
                    },
                    SymKind::Note => {
                        if let Some(t1) = sum_checked(t, sym.duration) {
                            let n: NoteView = (sym.midi, sym.duration, t);
                            let pushed = notes.push(n);
                            lemma_sum_later(t, sym.duration);
                            law_sequence_times(s, j, top, t1, pushed);
                            if let Ok((t2, ns, _)) = melody_sequential(s, j, top, t1, pushed) {
                                lemma_time_le_trans(t, t1, t2);
                                lemma_within_widen(ns, pushed.len() as int, t1, t2, t, t2);
                                assert(extends(pushed, notes)) by {
                                    assert(pushed.subrange(0, notes.len() as int) =~= notes);
                                }
                                lemma_extends_trans(notes, pushed, ns);
                                assert(ns[notes.len() as int] == n) by {
                                    assert(ns.subrange(0, pushed.len() as int)[notes.len() as int] == ns[
                                        notes.len() as int]);
                                }
                                assert(note_end(n) == note_end((0, sym.duration, t)));
                                assert(note_end(n).1 > 0) by (nonlinear_arith)
                                    requires t.1 > 0, sym.duration.1 > 0, note_end(n).1 == t.1 * sym.duration.1;
                                lemma_time_le_trans(note_end(n), t1, t2);
                                assert(notes_within(ns, notes.len() as int, t, t2)) by {
                                    assert forall|m: int| notes.len() <= m < ns.len() implies (
                                    #[trigger] ns[m]).1.1 > 0 && ns[m].2.1 > 0 && time_le(t, ns[m].2)
                                        && time_le(note_end(ns[m]), t2) by {
                                        if m == notes.len() {
                                            assert(ns[m] == n);
                                        }
                                    }
                                }
                            }
                        }
                    },
                    SymKind::GroupStart => {
                        law_stack_times(s, j, t, t, notes);
                        if let Ok((t1, ns1, k)) = melody_stack(s, j, t, t, notes) {
                            if j <= k <= s.len() {
                                law_sequence_times(s, k, top, t1, ns1);
                                if let Ok((t2, ns, _)) = melody_sequential(s, k, top, t1, ns1) {
                                    lemma_time_le_trans(t, t1, t2);
                                    lemma_extends_trans(notes, ns1, ns);
                                    lemma_within_widen(ns1, notes.len() as int, t, t1, t, t2);
                                    lemma_within_widen(ns, ns1.len() as int, t1, t2, t, t2);
                                    lemma_within_extend(ns1, ns, notes.len() as int, t, t2);
                                }
                            }
                        }
                    },
                    SymKind::GroupEnd => {
                        assert(notes.subrange(0, notes.len() as int) =~= notes);
                    },
                }
            }
        },
    }
}

/// A stack lasts as long as its longest part: the time it returns is no
/// earlier than the latest end so far, it keeps the notes read before it,
/// and each note it adds starts no earlier than the stack and ends no later
/// than the time it returns, the notes of nested sequences included.
pub proof fn law_stack_times(s: Seq<char>, i: int, start: (int, int), t: (int, int), notes: Seq<NoteView>)
    requires
        start.1 > 0,
        t.1 > 0,
    ensures
        melody_stack(s, i, start, t, notes) matches Ok((t2, ns, _)) ==> t2.1 > 0 && time_le(t, t2) && extends(
            ns,
            notes,
        ) && notes_within(ns, notes.len() as int, start, t2),
    decreases s.len() - i, 0int,
{
    lemma_sym_duration(s, i);
    match melody_sym(s, i) {
        Err(_) => {},
        Ok((sym, j)) => {
            if i < j <= s.len() {
                match sym.kind {
                    SymKind::Rest => {
                        if let Some(e) = sum_checked(start, sym.duration) {
                            lemma_sum_later(start, sym.duration);
                            if let Some(t1) = later_of(t, e) {
                                lemma_later_of(t, e);
                                law_stack_times(s, j, start, t1, notes);
                                if let Ok((t2, ns, _)) = melody_stack(s, j, start, t1, notes) {
                                    lemma_time_le_trans(t, t1, t2);
                                }
                            }
                        }
                    },
                    SymKind::Note => {
                        if let Some(e) = sum_checked(start, sym.duration) {
                            lemma_sum_later(start, sym.duration);
                            if let Some(t1) = later_of(t, e) {
                                lemma_later_of(t, e);
                                let n: NoteView = (sym.midi, sym.duration, start);
                                let pushed = notes.push(n);
                                law_stack_times(s, j, start, t1, pushed);
                                if let Ok((t2, ns, _)) = melody_stack(s, j, start, t1, pushed) {
                                    lemma_time_le_trans(t, t1, t2);
                                    assert(extends(pushed, notes)) by {
                                        assert(pushed.subrange(0, notes.len() as int) =~= notes);
                                    }
                                    lemma_extends_trans(notes, pushed, ns);
                                    assert(ns[notes.len() as int] == n) by {
                                        assert(ns.subrange(0, pushed.len() as int)[notes.len() as int] == ns[
                                            notes.len() as int]);
                                    }
                                    assert(note_end(n) == note_end((0, sym.duration, start)));
                                    assert(note_end(n).1 > 0) by (nonlinear_arith)
                                        requires
                                            start.1 > 0,
                                            sym.duration.1 > 0,
                                            note_end(n).1 == start.1 * sym.duration.1,
                                    ;
                                    lemma_time_le_trans(e, t1, t2);
                                    lemma_time_le_trans(note_end(n), e, t2);
                                    assert(notes_within(ns, notes.len() as int, start, t2)) by {
                                        assert forall|m: int| notes.len() <= m < ns.len() implies (
                                        #[trigger] ns[m]).1.1 > 0 && ns[m].2.1 > 0 && time_le(start, ns[m].2)
                                            && time_le(note_end(ns[m]), t2) by {
                                            if m == notes.len() {
                                                assert(ns[m] == n);
                                            }
                                        }
                                    }
                                }
                            }
                        }
                    },
                    SymKind::GroupStart => {
                        law_sequence_times(s, j, false, start, notes);
                        if let Ok((e, ns1, k)) = melody_sequential(s, j, false, start, notes) {
                            if j <= k <= s.len() {
                                if let Some(t1) = later_of(t, e) {
                                    lemma_later_of(t, e);
                                    law_stack_times(s, k, start, t1, ns1);
                                    if let Ok((t2, ns, _)) = melody_stack(s, k, start, t1, ns1) {
                                        lemma_time_le_trans(t, t1, t2);
                                        lemma_time_le_trans(e, t1, t2);
                                        lemma_extends_trans(notes, ns1, ns);
                                        lemma_within_widen(ns1, notes.len() as int, start, e, start, t2);
                                        lemma_within_extend(ns1, ns, notes.len() as int, start, t2);
                                    }
                                }
                            }
                        }
                    },
                    SymKind::GroupEnd => {
                        assert(notes.subrange(0, notes.len() as int) =~= notes);
                    },
                }
            }
        },
    }
}

} // verus!
