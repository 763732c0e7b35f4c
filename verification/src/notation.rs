//! The notation of notes and rests inside a sequence, such as `a4+.` or `r-_-`.
use vstd::prelude::*;
use vstd::arithmetic::power::{pow, lemma_pow0, lemma_pow1, lemma_pow_increases, lemma_pow_positive};
use crate::arith::{abs_int, gcd_nat, lemma_reduce, lemma_reduced_unique, reduced, lemma_pow_abs};
use crate::ast::SeqSym;
use crate::lexer::{char_at, is_dec_digit, run, CharClass};
use crate::note::{midi_number, Accidental, Note, NoteName};
use crate::rational::{fits_i64, in_i64, powi_fits, is_powi, pow_base_num, pow_base_den, Rational};
use crate::text::chars_of;

verus! {

/// The longest notation this module reads: counts of signs and dots must
/// stay far from the limits of an `i64`.
pub open spec fn max_notation_len() -> int {
    0x3fff_ffff_ffff_ffff
}

/// A fraction `x / y` in lowest terms with a positive denominator.
pub open spec fn lowest(x: int, y: int) -> (int, int) {
    choose|p: (int, int)| reduced(p.0, p.1) && p.0 * y == x * p.1
}

/// The sum of two fractions in lowest terms, as `Rational::checked_add`
/// computes it, or `None` when one of its products leaves the `i64` range.
pub open spec fn sum_checked(a: (int, int), b: (int, int)) -> Option<(int, int)> {
    if fits_i64(a.0 * b.1) && fits_i64(a.1 * b.0) && in_i64(a.0 * b.1 + a.1 * b.0) && in_i64(a.1 * b.1) {
        Some(lowest(a.0 * b.1 + a.1 * b.0, a.1 * b.1))
    } else {
        None
    }
}

/// `2^p` in lowest terms, or `None` when a part of it leaves the `i64` range.
pub open spec fn pow2_checked(p: int) -> Option<(int, int)> {
    if 0 <= p <= 62 {
        Some((pow(2, p as nat), 1))
    } else if -62 <= p < 0 {
        Some((1, pow(2, (-p) as nat)))
    } else {
        None
    }
}

/// A rational holds the fraction `q`, in lowest terms.
pub open spec fn holds(v: Rational, q: (int, int)) -> bool {
    v.wf() && v.n() == q.0 && v.d() == q.1
}

/// An optional rational corresponds to an optional fraction.
pub open spec fn holds_opt(r: Option<Rational>, q: Option<(int, int)>) -> bool {
    match q {
        None => r is None,
        Some(x) => r matches Some(v) && holds(v, x),
    }
}

/// The net count of `+` (up) and `-` (down) in the run of signs at `i`,
/// and the length of that run.
pub open spec fn sign_run(s: Seq<char>, i: int) -> (int, int)
    decreases s.len() - i,
{
    if 0 <= i < s.len() && s[i] == '+' {
        (sign_run(s, i + 1).0 + 1, sign_run(s, i + 1).1 + 1)
    } else if 0 <= i < s.len() && s[i] == '-' {
        (sign_run(s, i + 1).0 - 1, sign_run(s, i + 1).1 + 1)
    } else {
        (0, 0)
    }
}

/// A run of signs lies inside the text and moves the power by at most its length.
pub proof fn lemma_sign_run(s: Seq<char>, i: int)
    ensures
        0 <= sign_run(s, i).1,
        sign_run(s, i).1 > 0 ==> 0 <= i && i + sign_run(s, i).1 <= s.len(),
        -sign_run(s, i).1 <= sign_run(s, i).0 <= sign_run(s, i).1,
    decreases s.len() - i,
{
    if 0 <= i < s.len() && (s[i] == '+' || s[i] == '-') {
        lemma_sign_run(s, i + 1);
    }
}

/// One length `2^p` with `d` dots: each dot adds half of the previous
/// addition, `2^p + 2^(p-1) + ... + 2^(p-d)`, summed with checked arithmetic.
pub open spec fn dotted_length(p: int, d: nat) -> Option<(int, int)>
    decreases d,
{
    if d == 0 {
        pow2_checked(p)
    } else {
        match dotted_length(p, (d - 1) as nat) {
            None => None,
            Some(a) => match pow2_checked(p - d) {
                None => None,
                Some(b) => sum_checked(a, b),
            },
        }
    }
}

/// Once the sum of a dotted length overflows, more dots do not help.
pub proof fn lemma_dotted_length_none(p: int, k: nat, d: nat)
    requires
        k <= d,
        dotted_length(p, k) is None,
    ensures
        dotted_length(p, d) is None,
    decreases d - k,
{
    if k < d {
        lemma_dotted_length_none(p, k + 1, d);
    }
}

/// The duration written from index `i` on, added to `acc`: lengths start as
/// quarters, each `+` doubles and each `-` halves, dots extend, and `_` ties
/// the next length on. The result holds the total and the index where the
/// notation ends, or `None` when the arithmetic overflows.
pub open spec fn duration_from(s: Seq<char>, i: int, acc: (int, int)) -> Option<((int, int), int)>
    decreases s.len() - i,
{
    if i < 0 || i > s.len() {
        None
    } else {
        let (delta, a) = sign_run(s, i);
        let d = run(s, i + a, CharClass::Dots);
        proof {
            lemma_sign_run(s, i);
        }
        match dotted_length(delta - 2, d) {
            None => None,
            Some(len) => match sum_checked(acc, len) {
                None => None,
                Some(total) => if char_at(s, i + a + d, '_') && i + a + d + 1 <= s.len() {
                    duration_from(s, i + a + d + 1, total)
                } else {
                    Some((total, i + a + d))
                },
            },
        }
    }
}

/// The note name a letter stands for.
pub open spec fn note_name_of(c: char) -> Option<NoteName> {
    if c == 'a' || c == 'A' {
        Some(NoteName::A)
    } else if c == 'b' || c == 'B' {
        Some(NoteName::B)
    } else if c == 'c' || c == 'C' {
        Some(NoteName::C)
    } else if c == 'd' || c == 'D' {
        Some(NoteName::D)
    } else if c == 'e' || c == 'E' {
        Some(NoteName::E)
    } else if c == 'f' || c == 'F' {
        Some(NoteName::F)
    } else if c == 'g' || c == 'G' {
        Some(NoteName::G)
    } else {
        None
    }
}

/// The accidental written at index `j`, and the index after it.
pub open spec fn accidental_at(s: Seq<char>, j: int) -> (Accidental, int) {
    if 0 <= j < s.len() && (s[j] == '♯' || s[j] == '#') {
        (Accidental::Sharp, j + 1)
    } else if 0 <= j < s.len() && (s[j] == '♭' || s[j] == 'b') {
        (Accidental::Flat, j + 1)
    } else {
        (Accidental::Base, j)
    }
}

/// The note written at index `i`: a name, an optional accidental and a
/// one-digit octave. The result holds its MIDI number and the index after
/// it, or `None` when the notation is wrong or the note is out of range.
pub open spec fn note_at(s: Seq<char>, i: int) -> Option<(int, int)> {
    if !(0 <= i < s.len()) {
        None
    } else {
        match note_name_of(s[i]) {
            None => None,
            Some(name) => {
                let (acc, j) = accidental_at(s, i + 1);
                if 0 <= j < s.len() && is_dec_digit(s[j]) {
                    let m = midi_number(name, acc, s[j] as int - '0' as int);
                    if 0 <= m <= 127 {
                        Some((m, j + 1))
                    } else {
                        None
                    }
                } else {
                    None
                }
            },
        }
    }
}

/// The symbol that `s` denotes: a rest `r` or a note, each followed by a
/// duration. What follows the duration is not looked at.
pub open spec fn seq_sym_denotes(s: Seq<char>, r: Option<SeqSym>) -> bool {
    if s.len() > 0 && (s[0] == 'r' || s[0] == 'R') {
        match duration_from(s, 1, (0, 1)) {
            None => r is None,
            Some((q, _)) => r matches Some(SeqSym::Rest { duration }) && holds(duration, q),
        }
    } else {
        match note_at(s, 0) {
            None => r is None,
            Some((m, j)) => match duration_from(s, j, (0, 1)) {
                None => r is None,
                Some((q, _)) => r matches Some(SeqSym::Note { note, duration }) && note.midi() == m && holds(
                    duration,
                    q,
                ),
            },
        }
    }
}

/// A rational in lowest terms is the pair `lowest` picks for its value.
pub proof fn lemma_lowest(v: Rational, x: int, y: int)
    requires
        v.wf(),
        v.denotes(x, y),
        y != 0,
    ensures
        lowest(x, y) == (v.n(), v.d()),
{
    let w = (v.n(), v.d());
    assert(reduced(w.0, w.1) && w.0 * y == x * w.1);
    let p = lowest(x, y);
    assert(reduced(p.0, p.1) && p.0 * y == x * p.1);
    assert(p.0 * v.d() == v.n() * p.1) by (nonlinear_arith)
        requires
            p.0 * y == x * p.1,
            v.n() * y == x * v.d(),
            y != 0,
    ;
    lemma_reduced_unique(p.0, p.1, v.n(), v.d());
}

/// Checked addition of rationals follows `sum_checked`.
pub fn add_checked(a: Rational, b: Rational) -> (r: Option<Rational>)
    requires
        a.wf(),
        b.wf(),
    ensures
        holds_opt(r, sum_checked((a.n(), a.d()), (b.n(), b.d()))),
{
    proof {
        assert(a.d() * b.d() != 0) by (nonlinear_arith)
            requires
                a.d() > 0,
                b.d() > 0,
        ;
    }
    let r = a.checked_add(b);
    proof {
        if let Some(v) = r {
            lemma_lowest(v, a.n() * b.d() + a.d() * b.n(), a.d() * b.d());
        }
    }
    r
}

proof fn lemma_pow2_bounds(k: nat)
    ensures
        k <= 62 ==> pow(2, k) <= i64::MAX,
        k >= 63 ==> pow(2, k) > i64::MAX,
        pow(2, k) >= 1,
{
    vstd::arithmetic::power2::lemma2_to64_rest();
    vstd::arithmetic::power2::lemma_pow2(62);
    vstd::arithmetic::power2::lemma_pow2(63);
    lemma_pow_positive(2, k);
    if k <= 62 {
        lemma_pow_increases(2, k, 62);
    } else {
        lemma_pow_increases(2, 63, k);
    }
}

proof fn lemma_reduced_pow2(k: nat)
    ensures
        reduced(pow(2, k), 1),
        k >= 1 ==> reduced(1, pow(2, k)),
{
    lemma_pow_positive(2, k);
    let x = pow(2, k);
    assert(gcd_nat(abs_int(x) as nat, 1) == gcd_nat(1, (abs_int(x) as nat) % 1));
    assert((abs_int(x) as nat) % 1 == 0);
    assert(gcd_nat(1, 0) == 1);
    if k >= 1 {
        lemma_pow1(2);
        lemma_pow_increases(2, 1, k);
        assert(gcd_nat(1, x as nat) == gcd_nat(x as nat, 1nat % (x as nat)));
        vstd::arithmetic::div_mod::lemma_small_mod(1, x as nat);
        assert(gcd_nat(x as nat, 1) == gcd_nat(1, (x as nat) % 1));
    }
}

/// `2^p` as a rational, or `None` when it does not fit.
pub fn pow2(p: i64) -> (r: Option<Rational>)
    ensures
        holds_opt(r, pow2_checked(p as int)),
{
    let two = Rational::integer(2);
    let r = two.checked_powi(p);
    proof {
        let k: nat = abs_int(p as int) as nat;
        lemma_pow2_bounds(k);
        lemma_reduced_pow2(k);
        lemma_pow1(1);
        if p == 0 {
            lemma_pow0(2);
            lemma_pow0(1);
        }
        if -62 <= p <= 62 {
            lemma_pow_abs(2, k);
            lemma_pow_abs(1, k);
            vstd::arithmetic::power::lemma_pow1(1);
            lemma_one_pow(k);
            assert(powi_fits(two, p as int));
        }
        if let Some(v) = r {
            lemma_one_pow(k);
            assert(is_powi(v, two, p as int));
            if p > 0 {
                assert(v.denotes(pow(2, k), 1));
                lemma_reduced_unique(v.n(), v.d(), pow(2, k), 1);
                v.lemma_range();
            } else if p < 0 {
                assert(v.denotes(1, pow(2, k)));
                lemma_reduced_unique(v.n(), v.d(), 1, pow(2, k));
                v.lemma_range();
            } else {
                assert(v.denotes(1, 1));
                lemma_reduced_unique(v.n(), v.d(), 1, 1);
            }
        }
    }
    r
}

proof fn lemma_one_pow(k: nat)
    ensures
        pow(1, k) == 1,
    decreases k,
{
    vstd::arithmetic::power::lemma_pow1(1);
    reveal(pow);
    if k > 0 {
        lemma_one_pow((k - 1) as nat);
    }
}


/// Parse the duration part of a note symbol, from index `at` on.
/// Individual note lengths start as quarters, and can be doubled or halved with `+` or `-`
/// respectively, optionally followed by one or more dots `.` for dotted lengths.
/// Tied repetitions of the same note or rest are separated by `_`.
/// For example, the duration `+_` is `1/2 + 1/4 = 3/4`, and `-_-.` is `1/8 + 1/8 + 1/16 = 5/16`.
/// The result holds the duration and the index where the notation ends.
pub fn parse_duration(chars: &Vec<char>, at: usize) -> (r: Option<(Rational, usize)>)
    requires
        at <= chars.len(),
        chars.len() <= max_notation_len(),
    ensures
        match duration_from(chars@, at as int, (0, 1)) {
            None => r is None,
            Some((q, end)) => r matches Some((v, k)) && holds(v, q) && k == end,
        },
{
    let ghost s = chars@;
    let mut full = Rational::zero();
    let mut i = at;
    proof {
        assert(reduced(0, 1)) by {
            assert(gcd_nat(0, 1) == gcd_nat(1, 0nat % 1));
        }
    }
    loop
        invariant
            s == chars@,
            chars.len() <= max_notation_len(),
            at <= i <= chars.len(),
            full.wf(),
            duration_from(s, at as int, (0, 1)) == duration_from(s, i as int, (full.n(), full.d())),
        decreases chars.len() - i,
    {
        // First the powers of two
        let mut power: i64 = -2;
        let mut j = i;
        proof {
            lemma_sign_run(s, i as int);
        }
        while j < chars.len() && (chars[j] == '+' || chars[j] == '-')
            invariant
                s == chars@,
                chars.len() <= max_notation_len(),
                i <= j <= chars.len(),
                -2 - (j - i) <= power <= -2 + (j - i),
                sign_run(s, i as int) == (power + 2 + sign_run(s, j as int).0, (j - i) + sign_run(s, j as int).1),
            decreases chars.len() - j,
        {
            if chars[j] == '+' {
                power = power + 1;
            } else {
                power = power - 1;
            }
            j = j + 1;
        }
        // Then the dots
        let mut dots: i64 = 0;
        let ghost a = j;
        while j < chars.len() && chars[j] == '.'
            invariant
                s == chars@,
                chars.len() <= max_notation_len(),
                a <= j <= chars.len(),
                dots == j - a,
                run(s, a as int, CharClass::Dots) == dots + run(s, j as int, CharClass::Dots),
            decreases chars.len() - j,
        {
            dots = dots + 1;
            j = j + 1;
        }
        proof {
            let (delta, alen) = sign_run(s, i as int);
            assert(delta == power + 2 && alen == a - i);
            assert(run(s, a as int, CharClass::Dots) == dots);
        }
        // Then put everything together
        let mut duration = match pow2(power) {
            Some(v) => v,
            None => {
                proof {
                    lemma_dotted_length_none(power as int, 0, dots as nat);
                }
                return None;
            },
        };
        let mut k: i64 = 0;
        while k < dots
            invariant
                0 <= k <= dots <= chars.len(),
                chars.len() <= max_notation_len(),
                -2 - chars.len() <= power <= chars.len(),
                duration.wf(),
                dotted_length(power as int, k as nat) == Some((duration.n(), duration.d())),
                s == chars@,
                at <= i <= j <= chars.len(),
                full.wf(),
                duration_from(s, at as int, (0, 1)) == duration_from(s, i as int, (full.n(), full.d())),
                sign_run(s, i as int).0 == power + 2,
                run(s, i + sign_run(s, i as int).1, CharClass::Dots) == dots,
                i + sign_run(s, i as int).1 + dots == j,
            decreases dots - k,
        {
            // each dot is worth half of the previous addition
            let half = match pow2(power - k - 1) {
                Some(v) => v,
                None => {
                    proof {
                        lemma_dotted_length_none(power as int, (k + 1) as nat, dots as nat);
                    }
                    return None;
                },
            };
            duration = match add_checked(duration, half) {
                Some(v) => v,
                None => {
                    proof {
                        lemma_dotted_length_none(power as int, (k + 1) as nat, dots as nat);
                    }
                    return None;
                },
            };
            k = k + 1;
        }
        full = match add_checked(full, duration) {
            Some(v) => v,
            None => return None,
        };
        // Check for a tie to the next length
        if j < chars.len() && chars[j] == '_' {
            j = j + 1;
            i = j;
        } else {
            return Some((full, j));
        }
    }
}

/// The note name a letter stands for.
fn note_name(c: char) -> (r: Option<NoteName>)
    ensures
        r == note_name_of(c),
{
    if c == 'a' || c == 'A' {
        Some(NoteName::A)
    } else if c == 'b' || c == 'B' {
        Some(NoteName::B)
    } else if c == 'c' || c == 'C' {
        Some(NoteName::C)
    } else if c == 'd' || c == 'D' {
        Some(NoteName::D)
    } else if c == 'e' || c == 'E' {
        Some(NoteName::E)
    } else if c == 'f' || c == 'F' {
        Some(NoteName::F)
    } else if c == 'g' || c == 'G' {
        Some(NoteName::G)
    } else {
        None
    }
}

/// Parse a note at index `at`: its name, then any accidental, then the octave.
/// The result holds the note and the index after it.
pub fn parse_note(chars: &Vec<char>, at: usize) -> (r: Option<(Note, usize)>)
    requires
        at <= chars.len(),
    ensures
        match note_at(chars@, at as int) {
            None => r is None,
            Some((m, end)) => r matches Some((n, k)) && n.midi() == m && k == end,
        },
{
    // First comes the name
    if at >= chars.len() {
        return None;
    }
    let name = match note_name(chars[at]) {
        Some(n) => n,
        None => return None,
    };
    // Then any accidental
    let mut j = at + 1;
    let accidental = if j < chars.len() && (chars[j] == '♯' || chars[j] == '#') {
        j = j + 1;
        Accidental::Sharp
    } else if j < chars.len() && (chars[j] == '♭' || chars[j] == 'b') {
        j = j + 1;
        Accidental::Flat
    } else {
        Accidental::Base
    };
    // Then the octave
    if j < chars.len() && '0' <= chars[j] && chars[j] <= '9' {
        let octave = (chars[j] as u32 - '0' as u32) as i32;
        match Note::try_named(name, accidental, octave) {
            Some(n) => Some((n, j + 1)),
            None => None,
        }
    } else {
        None
    }
}

/// Parse a symbol in sequence notation: a rest `r` or a note, followed by
/// its duration.
pub fn seq_sym_from_str(input: &str) -> (r: Option<SeqSym>)
    requires
        input@.len() <= max_notation_len(),
    ensures
        seq_sym_denotes(input@, r),
{
    let chars = chars_of(input);
    if chars.len() > 0 && (chars[0] == 'r' || chars[0] == 'R') {
        match parse_duration(&chars, 1) {
            Some((duration, _)) => Some(SeqSym::Rest { duration }),
            None => None,
        }
    } else {
        // If it's not a rest, it's a note.
        match parse_note(&chars, 0) {
            None => None,
            Some((note, j)) => match parse_duration(&chars, j) {
                Some((duration, _)) => Some(SeqSym::Note { note, duration }),
                None => None,
            },
        }
    }
}
/// The upper-case form of a lower-case letter.
pub open spec fn upper_case(c: char) -> char {
    (c as int - 32) as char
}

/// Note names are read without regard to case: a note written with an
/// upper-case letter is the note written with the lower-case one.
pub proof fn law_note_name_case(s: Seq<char>, i: int, c: char)
    requires
        0 <= i < s.len(),
        'a' <= c <= 'g',
    ensures
        note_at(s.update(i, upper_case(c)), i) == note_at(s.update(i, c), i),
{
    let u = upper_case(c);
    assert(note_name_of(u) == note_name_of(c)) by {
        if c == 'a' {
            assert(u == 'A');
        } else if c == 'b' {
            assert(u == 'B');
        } else if c == 'c' {
            assert(u == 'C');
        } else if c == 'd' {
            assert(u == 'D');
        } else if c == 'e' {
            assert(u == 'E');
        } else if c == 'f' {
            assert(u == 'F');
        } else {
            assert(u == 'G');
        }
    }
    let su = s.update(i, u);
    let sl = s.update(i, c);
    assert(accidental_at(su, i + 1) == accidental_at(sl, i + 1));
    let j = accidental_at(sl, i + 1).1;
    assert(i + 1 <= j);
    assert(0 <= j < s.len() ==> su[j] == sl[j]);
}

/// A note's number is that of its name, accidental and octave: `c4` is MIDI
/// 60, and each octave up adds twelve.
pub proof fn law_note_number(s: Seq<char>, i: int)
    requires
        note_at(s, i) is Some,
    ensures
        note_name_of(s[i]) is Some,
        note_at(s, i).unwrap().0 == midi_number(
            note_name_of(s[i])->0,
            accidental_at(s, i + 1).0,
            s[accidental_at(s, i + 1).1] as int - '0' as int,
        ),
        note_at(seq!['c', '4'], 0) == Some((60int, 2int)),
{
    let c4 = seq!['c', '4'];
    assert(c4[0] == 'c' && c4[1] == '4');
    assert(accidental_at(c4, 1) == (Accidental::Base, 1int));
    assert(is_dec_digit('4'));
}

} // verus!
