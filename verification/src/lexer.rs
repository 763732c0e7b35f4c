//! The tokens of the syn.txt language, and a longest-match lexer for them.
use vstd::prelude::*;

verus! {

/// The kinds of tokens of the language.
#[derive(Debug, PartialEq, Eq, Clone, Copy, Structural)]
pub enum Token {
    // Operators
    Plus,
    Minus,
    Star,
    Slash,
    Percent,
    Not,
    And,
    Or,
    // Punctuation
    Colon,
    Semi,
    Comma,
    Dot,
    // Grouping
    LBrace,
    RBrace,
    LBracket,
    RBracket,
    LLBracket,
    RRBracket,
    LParen,
    RParen,
    // Entities
    Ident,
    /// A note or rest symbol inside a sequence, like `a4+.` or `r-`.
    Note,
    // Literals
    LitString,
    LitInt,
    LitFloat,
    LitRatio,
    LitBool,
    /// Input that no other token matches.
    Error,
}

/// A range of byte offsets into a source text, end exclusive.
#[derive(Debug, PartialEq, Eq, Clone, Copy, Structural)]
pub struct Span {
    pub start: usize,
    pub end: usize,
}

/// A token together with the range of characters it covers.
#[derive(Debug, PartialEq, Eq, Clone, Copy, Structural)]
pub struct Lexeme {
    pub token: Token,
    /// Index of the first character.
    pub start: usize,
    /// Index one past the last character.
    pub end: usize,
}

/// Classes of characters used by the token patterns.
#[derive(Debug, PartialEq, Eq, Clone, Copy, Structural)]
pub enum CharClass {
    /// `[a-zA-Z0-9_]`
    IdentRest,
    /// `[_0-9]`
    DigitOrUnderscore,
    /// `[+-]`
    PlusMinus,
    /// `.`
    Dots,
    /// `[ \t\n\f]`
    Whitespace,
    /// anything but a newline
    NotNewline,
}

pub open spec fn is_ascii_letter(c: char) -> bool {
    ('a' <= c <= 'z') || ('A' <= c <= 'Z')
}

pub open spec fn is_dec_digit(c: char) -> bool {
    '0' <= c <= '9'
}

pub open spec fn in_class(cc: CharClass, c: char) -> bool {
    match cc {
        CharClass::IdentRest => is_ascii_letter(c) || is_dec_digit(c) || c == '_',
        CharClass::DigitOrUnderscore => is_dec_digit(c) || c == '_',
        CharClass::PlusMinus => c == '+' || c == '-',
        CharClass::Dots => c == '.',
        CharClass::Whitespace => c == ' ' || c == '\t' || c == '\n' || c == '\x0c',
        CharClass::NotNewline => c != '\n',
    }
}

fn char_in_class(cc: CharClass, c: char) -> (r: bool)
    ensures
        r == in_class(cc, c),
{
    match cc {
        CharClass::IdentRest => ('a' <= c && c <= 'z') || ('A' <= c && c <= 'Z') || ('0' <= c && c <= '9')
            || c == '_',
        CharClass::DigitOrUnderscore => ('0' <= c && c <= '9') || c == '_',
        CharClass::PlusMinus => c == '+' || c == '-',
        CharClass::Dots => c == '.',
        CharClass::Whitespace => c == ' ' || c == '\t' || c == '\n' || c == '\x0c',
        CharClass::NotNewline => c != '\n',
    }
}

/// `s[i]` exists and is `c`.
pub open spec fn char_at(s: Seq<char>, i: int, c: char) -> bool {
    0 <= i < s.len() && s[i] == c
}

/// Number of consecutive characters of class `cc` starting at `i`.
pub open spec fn run(s: Seq<char>, i: int, cc: CharClass) -> nat
    decreases s.len() - i,
{
    if 0 <= i < s.len() && in_class(cc, s[i]) {
        1 + run(s, i + 1, cc)
    } else {
        0
    }
}

/// Length of the longest match of `decimal = [0-9][_0-9]*` at `i`, or 0.
pub open spec fn decimal_len(s: Seq<char>, i: int) -> int {
    if 0 <= i < s.len() && is_dec_digit(s[i]) {
        1 + run(s, i + 1, CharClass::DigitOrUnderscore) as int
    } else {
        0
    }
}

/// Length of an optional sign `[+-]?` at `i`.
pub open spec fn sign_len(s: Seq<char>, i: int) -> int {
    if 0 <= i < s.len() && (s[i] == '+' || s[i] == '-') { 1 } else { 0 }
}

/// Longest match of `[+-]?decimal`, or 0.
pub open spec fn int_len(s: Seq<char>, i: int) -> int {
    let d = decimal_len(s, i + sign_len(s, i));
    if d > 0 { sign_len(s, i) + d } else { 0 }
}

/// Longest match of `[+-]?decimal SEP decimal`, or 0.
pub open spec fn int_pair_len(s: Seq<char>, i: int, sep: char) -> int {
    let n = int_len(s, i);
    let d = decimal_len(s, i + n + 1);
    if n > 0 && char_at(s, i + n, sep) && d > 0 { n + 1 + d } else { 0 }
}

/// Length of a duration suffix `[+-]*\.*(_[+-]*\.*)*` at `i`; it may be empty.
pub open spec fn duration_len(s: Seq<char>, i: int) -> int
    decreases s.len() - i,
{
    if i < 0 || i > s.len() {
        0
    } else {
        let a = run(s, i, CharClass::PlusMinus) as int;
        let b = run(s, i + a, CharClass::Dots) as int;
        if char_at(s, i + a + b, '_') {
            a + b + 1 + duration_len(s, i + a + b + 1)
        } else {
            a + b
        }
    }
}

pub open spec fn is_note_letter(c: char) -> bool {
    ('a' <= c <= 'g') || ('A' <= c <= 'G')
}

pub open spec fn is_accidental_char(c: char) -> bool {
    c == '#' || c == 'b' || c == '♯' || c == '♭'
}

/// Longest match of a note `[a-gA-G][#b♯♭]?[0-9]duration` or a rest
/// `[rR]duration`, or 0.
pub open spec fn note_len(s: Seq<char>, i: int) -> int {
    if !(0 <= i < s.len()) {
        0
    } else if s[i] == 'r' || s[i] == 'R' {
        1 + duration_len(s, i + 1)
    } else if !is_note_letter(s[i]) {
        0
    } else if 0 <= i + 2 < s.len() && is_accidental_char(s[i + 1]) && is_dec_digit(s[i + 2]) {
        3 + duration_len(s, i + 3)
    } else if 0 <= i + 1 < s.len() && is_dec_digit(s[i + 1]) {
        2 + duration_len(s, i + 2)
    } else {
        0
    }
}

/// Longest match of an identifier `[a-zA-Z_][a-zA-Z0-9_]*`, or 0.
pub open spec fn ident_len(s: Seq<char>, i: int) -> int {
    if 0 <= i < s.len() && (is_ascii_letter(s[i]) || s[i] == '_') {
        1 + run(s, i + 1, CharClass::IdentRest) as int
    } else {
        0
    }
}

/// `s[i..]` starts with the word `w`.
pub open spec fn starts_with(s: Seq<char>, i: int, w: Seq<char>) -> bool {
    0 <= i && i + w.len() <= s.len() && s.subrange(i, i + w.len()) == w
}

/// Outcome of scanning the inside of a string literal whose opening quote
/// is at `i - 1`: `Ok(j)` when the closing quote is at `j`, `Err(j)` when the
/// literal is broken at `j` (newline, end of input, or an escape of a
/// control character).
pub open spec fn string_scan(s: Seq<char>, i: int) -> Result<int, int>
    decreases s.len() - i,
{
    if i < 0 || i >= s.len() {
        Err(i)
    } else if s[i] == '"' {
        Ok(i)
    } else if s[i] == '\n' {
        Err(i)
    } else if s[i] == '\\' {
        if i + 1 < s.len() && s[i + 1] as u32 >= 0x20 {
            string_scan(s, i + 2)
        } else {
            Err(i)
        }
    } else {
        string_scan(s, i + 1)
    }
}

/// Longest match of a string literal at `i`, or 0.
pub open spec fn string_len(s: Seq<char>, i: int) -> int {
    if char_at(s, i, '"') {
        match string_scan(s, i + 1) {
            Ok(j) => j + 1 - i,
            Err(_) => 0,
        }
    } else {
        0
    }
}

/// Longest match of a comment `//[^\n]*`, or 0.
pub open spec fn comment_len(s: Seq<char>, i: int) -> int {
    if char_at(s, i, '/') && char_at(s, i + 1, '/') {
        2 + run(s, i + 2, CharClass::NotNewline) as int
    } else {
        0
    }
}

/// The fixed token (operator, punctuation or keyword) that has the longest
/// match at `i`, with its length.
pub open spec fn fixed_match(s: Seq<char>, i: int) -> (Token, int) {
    if starts_with(s, i, seq!['[', '[']) {
        (Token::LLBracket, 2)
    } else if starts_with(s, i, seq![']', ']']) {
        (Token::RRBracket, 2)
    } else if starts_with(s, i, seq!['f', 'a', 'l', 's', 'e']) {
        (Token::LitBool, 5)
    } else if starts_with(s, i, seq!['t', 'r', 'u', 'e']) {
        (Token::LitBool, 4)
    } else if starts_with(s, i, seq!['n', 'o', 't']) {
        (Token::Not, 3)
    } else if starts_with(s, i, seq!['a', 'n', 'd']) {
        (Token::And, 3)
    } else if starts_with(s, i, seq!['o', 'r']) {
        (Token::Or, 2)
    } else if !(0 <= i < s.len()) {
        (Token::Error, 0)
    } else {
        let c = s[i];
        if c == '+' {
            (Token::Plus, 1)
        } else if c == '-' {
            (Token::Minus, 1)
        } else if c == '*' {
            (Token::Star, 1)
        } else if c == '/' {
            (Token::Slash, 1)
        } else if c == '%' {
            (Token::Percent, 1)
        } else if c == ':' {
            (Token::Colon, 1)
        } else if c == ';' {
            (Token::Semi, 1)
        } else if c == ',' {
            (Token::Comma, 1)
        } else if c == '.' {
            (Token::Dot, 1)
        } else if c == '{' {
            (Token::LBrace, 1)
        } else if c == '}' {
            (Token::RBrace, 1)
        } else if c == '[' {
            (Token::LBracket, 1)
        } else if c == ']' {
            (Token::RBracket, 1)
        } else if c == '(' {
            (Token::LParen, 1)
        } else if c == ')' {
            (Token::RParen, 1)
        } else {
            (Token::Error, 0)
        }
    }
}

/// What the longest match at a position is.
#[derive(Debug, PartialEq, Eq, Clone, Copy, Structural)]
pub enum Step {
    /// A token of the given kind and length.
    Emit(Token, usize),
    /// Whitespace or a comment of the given length, which is dropped.
    Skip(usize),
}

/// The longest match at `i` (which must lie inside `s`). On equal lengths,
/// fixed tokens win over notes, and notes over all other patterns. When no
/// pattern matches, a broken string literal becomes one error token up to
/// where it breaks, and any other character an error token of its own.
pub open spec fn step_spec(s: Seq<char>, i: int) -> Step {
    let (ft, fl) = fixed_match(s, i);
    let nl = note_len(s, i);
    let il = ident_len(s, i);
    let sl = string_len(s, i);
    let rl = int_pair_len(s, i, '/');
    let fll = int_pair_len(s, i, '.');
    let inl = int_len(s, i);
    let wl = run(s, i, CharClass::Whitespace) as int;
    let cl = comment_len(s, i);
    let best = vstd::math::max(
        vstd::math::max(vstd::math::max(fl, nl), vstd::math::max(il, sl)),
        vstd::math::max(vstd::math::max(rl, fll), vstd::math::max(inl, vstd::math::max(wl, cl))),
    );
    if best == 0 {
        if s[i] == '"' {
            match string_scan(s, i + 1) {
                Err(j) => Step::Emit(Token::Error, (j - i) as usize),
                Ok(_) => Step::Emit(Token::Error, 1),
            }
        } else {
            Step::Emit(Token::Error, 1)
        }
    } else if fl == best {
        Step::Emit(ft, fl as usize)
    } else if nl == best {
        Step::Emit(Token::Note, nl as usize)
    } else if il == best {
        Step::Emit(Token::Ident, il as usize)
    } else if sl == best {
        Step::Emit(Token::LitString, sl as usize)
    } else if rl == best {
        Step::Emit(Token::LitRatio, rl as usize)
    } else if fll == best {
        Step::Emit(Token::LitFloat, fll as usize)
    } else if inl == best {
        Step::Emit(Token::LitInt, inl as usize)
    } else if wl == best {
        Step::Skip(wl as usize)
    } else {
        Step::Skip(cl as usize)
    }
}

/// The length of a step.
pub open spec fn step_len(st: Step) -> int {
    match st {
        Step::Emit(_, n) => n as int,
        Step::Skip(n) => n as int,
    }
}

/// The tokens of `s` from position `i` on: longest matches, one after another.
pub open spec fn lex_from(s: Seq<char>, i: int) -> Seq<Lexeme>
    decreases s.len() - i,
{
    if i < 0 || i >= s.len() {
        seq![]
    } else {
        let st = step_spec(s, i);
        let len = step_len(st);
        if len <= 0 || i + len > s.len() {
            seq![]
        } else {
            match st {
                Step::Emit(t, _) => seq![Lexeme { token: t, start: i as usize, end: (i + len) as usize }]
                    + lex_from(s, i + len),
                Step::Skip(_) => lex_from(s, i + len),
            }
        }
    }
}

/// A closing quote lies at or after where the scan starts.
proof fn lemma_string_scan(s: Seq<char>, i: int)
    ensures
        string_scan(s, i) matches Ok(j) ==> i <= j < s.len(),
    decreases s.len() - i,
{
    if 0 <= i < s.len() && s[i] != '"' && s[i] != '\n' {
        if s[i] == '\\' {
            if i + 1 < s.len() && s[i + 1] as u32 >= 0x20 {
                lemma_string_scan(s, i + 2);
            }
        } else {
            lemma_string_scan(s, i + 1);
        }
    }
}

/// A string literal token holds at least its two quotes.
proof fn lemma_string_token(s: Seq<char>, i: int)
    requires
        0 <= i < s.len(),
        s.len() <= usize::MAX,
        step_spec(s, i) matches Step::Emit(Token::LitString, _),
    ensures
        step_len(step_spec(s, i)) >= 2,
{
    lemma_string_scan(s, i + 1);
    assert(fixed_match(s, i).0 != Token::LitString);
    assert(string_len(s, i) == 0 || string_len(s, i) >= 2);
}

/// The tokens from position `i` on lie inside the text, one after another,
/// and none is empty.
pub proof fn lemma_lex_from_bounds(s: Seq<char>, i: int)
    requires
        0 <= i,
        s.len() <= usize::MAX,
    ensures
        forall|k: int| 0 <= k < lex_from(s, i).len() ==> i <= #[trigger] lex_from(s, i)[k].start < lex_from(s, i)[k].end <= s.len(),
        forall|k: int| 0 <= k < lex_from(s, i).len() && #[trigger] lex_from(s, i)[k].token == Token::LitString
            ==> lex_from(s, i)[k].start + 2 <= lex_from(s, i)[k].end,
        forall|k: int, l: int| 0 <= k < l < lex_from(s, i).len() ==> #[trigger] lex_from(s, i)[k].end <= #[trigger] lex_from(s, i)[l].start,
    decreases s.len() - i,
{
    if i < s.len() {
        let st = step_spec(s, i);
        let len = step_len(st);
        if len > 0 && i + len <= s.len() {
            lemma_lex_from_bounds(s, i + len);
            let rest = lex_from(s, i + len);
            match st {
                Step::Emit(t, _) => {
                    let x = Lexeme { token: t, start: i as usize, end: (i + len) as usize };
                    assert(lex_from(s, i) == seq![x] + rest);
                    if t == Token::LitString {
                        lemma_string_token(s, i);
                    }
                    assert forall|k: int| 0 <= k < lex_from(s, i).len() && #[trigger] lex_from(s, i)[k].token
                        == Token::LitString implies lex_from(s, i)[k].start + 2 <= lex_from(s, i)[k].end by {
                        if k > 0 {
                            assert(lex_from(s, i)[k] == rest[k - 1]);
                        }
                    }
                    assert forall|k: int| 0 <= k < lex_from(s, i).len() implies i <= #[trigger] lex_from(s, i)[k].start
                        < lex_from(s, i)[k].end <= s.len() by {
                        if k > 0 {
                            assert(lex_from(s, i)[k] == rest[k - 1]);
                        }
                    }
                    assert forall|k: int, l: int| 0 <= k < l < lex_from(s, i).len() implies #[trigger] lex_from(s, i)[k].end
                        <= #[trigger] lex_from(s, i)[l].start by {
                        assert(lex_from(s, i)[l] == rest[l - 1]);
                        if k > 0 {
                            assert(lex_from(s, i)[k] == rest[k - 1]);
                        }
                    }
                },
                Step::Skip(_) => {},
            }
        }
    }
}

/// A run of a character class stays inside the text, and consists of that class.
proof fn lemma_run(s: Seq<char>, i: int, cc: CharClass)
    requires
        0 <= i <= s.len(),
    ensures
        i + run(s, i, cc) <= s.len(),
        forall|k: int| i <= k < i + run(s, i, cc) ==> in_class(cc, #[trigger] s[k]),
    decreases s.len() - i,
{
    if i < s.len() && in_class(cc, s[i]) {
        lemma_run(s, i + 1, cc);
    }
}

/// A duration suffix stays inside the text.
proof fn lemma_duration_len(s: Seq<char>, i: int)
    requires
        0 <= i <= s.len(),
    ensures
        0 <= duration_len(s, i),
        i + duration_len(s, i) <= s.len(),
    decreases s.len() - i,
{
    let a = run(s, i, CharClass::PlusMinus) as int;
    lemma_run(s, i, CharClass::PlusMinus);
    lemma_run(s, i + a, CharClass::Dots);
    let b = run(s, i + a, CharClass::Dots) as int;
    if char_at(s, i + a + b, '_') {
        lemma_duration_len(s, i + a + b + 1);
    }
}

/// A broken string literal breaks inside the text, at or after where the scan starts.
proof fn lemma_string_scan_err(s: Seq<char>, i: int)
    requires
        0 <= i <= s.len(),
    ensures
        string_scan(s, i) matches Err(j) ==> i <= j <= s.len(),
    decreases s.len() - i,
{
    if i < s.len() && s[i] != '"' && s[i] != '\n' {
        if s[i] == '\\' {
            if i + 1 < s.len() && s[i + 1] as u32 >= 0x20 {
                lemma_string_scan_err(s, i + 2);
            }
        } else {
            lemma_string_scan_err(s, i + 1);
        }
    }
}

/// Every step inside the text has a length, and ends inside the text.
pub proof fn lemma_step_bounds(s: Seq<char>, i: int)
    requires
        0 <= i < s.len(),
        s.len() <= usize::MAX,
    ensures
        0 < step_len(step_spec(s, i)),
        i + step_len(step_spec(s, i)) <= s.len(),
{
    lemma_run(s, i, CharClass::Whitespace);
    lemma_run(s, i + 1, CharClass::IdentRest);
    if i + 2 <= s.len() {
        lemma_run(s, i + 2, CharClass::NotNewline);
    }
    if i + sign_len(s, i) + 1 <= s.len() {
        lemma_run(s, i + sign_len(s, i) + 1, CharClass::DigitOrUnderscore);
    }
    let n = int_len(s, i);
    if i + n + 2 <= s.len() {
        lemma_run(s, i + n + 2, CharClass::DigitOrUnderscore);
    }
    lemma_duration_len(s, i + 1);
    if i + 2 <= s.len() {
        lemma_duration_len(s, i + 2);
    }
    if i + 3 <= s.len() {
        lemma_duration_len(s, i + 3);
    }
    lemma_string_scan(s, i + 1);
    lemma_string_scan_err(s, i + 1);
}

/// Position `p` holds whitespace or lies inside a comment.
pub open spec fn skipped(s: Seq<char>, p: int) -> bool {
    ||| in_class(CharClass::Whitespace, s[p])
    ||| exists|q: int| 0 <= q <= p && p - q < #[trigger] comment_len(s, q)
}

/// The lexer drops nothing but whitespace and comments: every character
/// from `i` on that no token covers is whitespace or part of a comment.
pub proof fn lemma_lex_gaps(s: Seq<char>, i: int, p: int)
    requires
        0 <= i <= p < s.len(),
        s.len() <= usize::MAX,
        forall|k: int| 0 <= k < lex_from(s, i).len() ==> !(#[trigger] lex_from(s, i)[k].start <= p < lex_from(s, i)[k].end),
    ensures
        skipped(s, p),
    decreases s.len() - i,
{
    let st = step_spec(s, i);
    let len = step_len(st);
    lemma_step_bounds(s, i);
    match st {
        Step::Emit(t, _) => {
            let x = Lexeme { token: t, start: i as usize, end: (i + len) as usize };
            let rest = lex_from(s, i + len);
            assert(lex_from(s, i) == seq![x] + rest);
            assert(lex_from(s, i)[0] == x);
            assert(x.start == i && x.end == i + len);
            assert(i + len <= p);
            assert forall|k: int| 0 <= k < rest.len() implies !(#[trigger] rest[k].start <= p < rest[k].end) by {
                assert(rest[k] == lex_from(s, i)[k + 1]);
            }
            lemma_lex_gaps(s, i + len, p);
        },
        Step::Skip(_) => {
            assert(lex_from(s, i) == lex_from(s, i + len));
            if p < i + len {
                let wl = run(s, i, CharClass::Whitespace) as int;
                let cl = comment_len(s, i);
                assert(st == Step::Skip(wl as usize) || st == Step::Skip(cl as usize));
                if st == Step::Skip(wl as usize) {
                    lemma_run(s, i, CharClass::Whitespace);
                    assert(len == wl);
                    assert(in_class(CharClass::Whitespace, s[p]));
                } else {
                    lemma_run(s, i + 2, CharClass::NotNewline);
                    assert(len == cl);
                    assert(p - i < comment_len(s, i));
                }
            } else {
                lemma_lex_gaps(s, i + len, p);
            }
        },
    }
}

fn run_exec(s: &Vec<char>, i: usize, cc: CharClass) -> (r: usize)
    requires
        i <= s.len(),
    ensures
        r == run(s@, i as int, cc),
        i + r <= s.len(),
{
    let mut j = i;
    while j < s.len() && char_in_class(cc, s[j])
        invariant
            i <= j <= s.len(),
            run(s@, i as int, cc) == (j - i) + run(s@, j as int, cc),
        decreases s.len() - j,
    {
        j = j + 1;
    }
    j - i
}

fn decimal_len_exec(s: &Vec<char>, i: usize) -> (r: usize)
    requires
        i <= s.len(),
    ensures
        r == decimal_len(s@, i as int),
        i + r <= s.len(),
{
    if i < s.len() && '0' <= s[i] && s[i] <= '9' {
        1 + run_exec(s, i + 1, CharClass::DigitOrUnderscore)
    } else {
        0
    }
}

fn sign_len_exec(s: &Vec<char>, i: usize) -> (r: usize)
    requires
        i <= s.len(),
    ensures
        r == sign_len(s@, i as int),
        i + r <= s.len(),
{
    if i < s.len() && (s[i] == '+' || s[i] == '-') { 1 } else { 0 }
}

fn int_len_exec(s: &Vec<char>, i: usize) -> (r: usize)
    requires
        i <= s.len(),
    ensures
        r == int_len(s@, i as int),
        i + r <= s.len(),
{
    let sl = sign_len_exec(s, i);
    let d = decimal_len_exec(s, i + sl);
    if d > 0 { sl + d } else { 0 }
}

fn int_pair_len_exec(s: &Vec<char>, i: usize, sep: char) -> (r: usize)
    requires
        i <= s.len(),
    ensures
        r == int_pair_len(s@, i as int, sep),
        i + r <= s.len(),
{
    let n = int_len_exec(s, i);
    if n == 0 || n >= s.len() - i || s[i + n] != sep {
        return 0;
    }
    let d = decimal_len_exec(s, i + n + 1);
    if d > 0 { n + 1 + d } else { 0 }
}

fn duration_len_exec(s: &Vec<char>, i: usize) -> (r: usize)
    requires
        i <= s.len(),
    ensures
        r == duration_len(s@, i as int),
        i + r <= s.len(),
    decreases s.len() - i,
{
    let a = run_exec(s, i, CharClass::PlusMinus);
    let b = run_exec(s, i + a, CharClass::Dots);
    if s.len() - i > a + b && s[i + a + b] == '_' {
        let rest = duration_len_exec(s, i + a + b + 1);
        a + b + 1 + rest
    } else {
        a + b
    }
}

fn note_len_exec(s: &Vec<char>, i: usize) -> (r: usize)
    requires
        i < s.len(),
    ensures
        r == note_len(s@, i as int),
        i + r <= s.len(),
{
    let c = s[i];
    if c == 'r' || c == 'R' {
        1 + duration_len_exec(s, i + 1)
    } else if !(('a' <= c && c <= 'g') || ('A' <= c && c <= 'G')) {
        0
    } else if s.len() - i > 2 && (s[i + 1] == '#' || s[i + 1] == 'b' || s[i + 1] == '♯' || s[i + 1] == '♭')
        && '0' <= s[i + 2] && s[i + 2] <= '9' {
        3 + duration_len_exec(s, i + 3)
    } else if s.len() - i > 1 && '0' <= s[i + 1] && s[i + 1] <= '9' {
        2 + duration_len_exec(s, i + 2)
    } else {
        0
    }
}

fn ident_len_exec(s: &Vec<char>, i: usize) -> (r: usize)
    requires
        i < s.len(),
    ensures
        r == ident_len(s@, i as int),
        i + r <= s.len(),
{
    let c = s[i];
    if ('a' <= c && c <= 'z') || ('A' <= c && c <= 'Z') || c == '_' {
        1 + run_exec(s, i + 1, CharClass::IdentRest)
    } else {
        0
    }
}

/// Result of `string_scan`, computed.
fn string_scan_exec(s: &Vec<char>, i: usize) -> (r: Result<usize, usize>)
    requires
        i <= s.len(),
    ensures
        match string_scan(s@, i as int) {
            Ok(j) => r == Ok::<usize, usize>(j as usize) && i <= j < s.len(),
            Err(j) => r == Err::<usize, usize>(j as usize) && i <= j <= s.len(),
        },
{
    let mut j = i;
    while j < s.len()
        invariant
            i <= j <= s.len() + 1,
            j <= s.len() ==> string_scan(s@, i as int) == string_scan(s@, j as int),
            j > s.len() ==> false,
        decreases s.len() - j,
    {
        let c = s[j];
        if c == '"' {
            return Ok(j);
        } else if c == '\n' {
            return Err(j);
        } else if c == '\\' {
            if s.len() - j > 1 && (s[j + 1] as u32) >= 0x20 {
                j = j + 2;
            } else {
                return Err(j);
            }
        } else {
            j = j + 1;
        }
    }
    Err(j)
}

fn string_len_exec(s: &Vec<char>, i: usize) -> (r: usize)
    requires
        i < s.len(),
    ensures
        r == string_len(s@, i as int),
        i + r <= s.len(),
{
    if s[i] != '"' {
        return 0;
    }
    match string_scan_exec(s, i + 1) {
        Ok(j) => j + 1 - i,
        Err(_) => 0,
    }
}

fn comment_len_exec(s: &Vec<char>, i: usize) -> (r: usize)
    requires
        i < s.len(),
    ensures
        r == comment_len(s@, i as int),
        i + r <= s.len(),
{
    if s.len() - i > 1 && s[i] == '/' && s[i + 1] == '/' {
        2 + run_exec(s, i + 2, CharClass::NotNewline)
    } else {
        0
    }
}

fn starts_with_exec(s: &Vec<char>, i: usize, w: &[char]) -> (r: bool)
    requires
        i <= s.len(),
    ensures
        r == starts_with(s@, i as int, w@),
{
    if w.len() > s.len() - i {
        return false;
    }
    let mut k: usize = 0;
    while k < w.len()
        invariant
            k <= w.len(),
            i + w.len() <= s.len(),
            forall|m: int| 0 <= m < k ==> s@[i + m] == w@[m],
        decreases w.len() - k,
    {
        if s[i + k] != w[k] {
            proof {
                assert(s@.subrange(i as int, i + w.len())[k as int] != w@[k as int]);
            }
            return false;
        }
        k = k + 1;
    }
    proof {
        assert(s@.subrange(i as int, i + w.len()) =~= w@);
    }
    true
}

fn fixed_match_exec(s: &Vec<char>, i: usize) -> (r: (Token, usize))
    requires
        i < s.len(),
    ensures
        r.0 == fixed_match(s@, i as int).0,
        r.1 == fixed_match(s@, i as int).1,
        i + r.1 <= s.len(),
{
    if starts_with_exec(s, i, &['[', '[']) {
        return (Token::LLBracket, 2);
    }
    if starts_with_exec(s, i, &[']', ']']) {
        return (Token::RRBracket, 2);
    }
    if starts_with_exec(s, i, &['f', 'a', 'l', 's', 'e']) {
        return (Token::LitBool, 5);
    }
    if starts_with_exec(s, i, &['t', 'r', 'u', 'e']) {
        return (Token::LitBool, 4);
    }
    if starts_with_exec(s, i, &['n', 'o', 't']) {
        return (Token::Not, 3);
    }
    if starts_with_exec(s, i, &['a', 'n', 'd']) {
        return (Token::And, 3);
    }
    if starts_with_exec(s, i, &['o', 'r']) {
        return (Token::Or, 2);
    }
    let c = s[i];
    if c == '+' {
        (Token::Plus, 1)
    } else if c == '-' {
        (Token::Minus, 1)
    } else if c == '*' {
        (Token::Star, 1)
    } else if c == '/' {
        (Token::Slash, 1)
    } else if c == '%' {
        (Token::Percent, 1)
    } else if c == ':' {
        (Token::Colon, 1)
    } else if c == ';' {
        (Token::Semi, 1)
    } else if c == ',' {
        (Token::Comma, 1)
    } else if c == '.' {
        (Token::Dot, 1)
    } else if c == '{' {
        (Token::LBrace, 1)
    } else if c == '}' {
        (Token::RBrace, 1)
    } else if c == '[' {
        (Token::LBracket, 1)
    } else if c == ']' {
        (Token::RBracket, 1)
    } else if c == '(' {
        (Token::LParen, 1)
    } else if c == ')' {
        (Token::RParen, 1)
    } else {
        (Token::Error, 0)
    }
}

fn max_usize(a: usize, b: usize) -> (r: usize)
    ensures
        r == vstd::math::max(a as int, b as int),
{
    if a >= b { a } else { b }
}

/// The longest match at position `i`.
pub fn step(s: &Vec<char>, i: usize) -> (r: Step)
    requires
        i < s.len(),
    ensures
        r == step_spec(s@, i as int),
        0 < step_len(r),
        i + step_len(r) <= s.len(),
{
    let (ft, fl) = fixed_match_exec(s, i);
    let nl = note_len_exec(s, i);
    let il = ident_len_exec(s, i);
    let sl = string_len_exec(s, i);
    let rl = int_pair_len_exec(s, i, '/');
    let fll = int_pair_len_exec(s, i, '.');
    let inl = int_len_exec(s, i);
    let wl = run_exec(s, i, CharClass::Whitespace);
    let cl = comment_len_exec(s, i);
    let best = max_usize(
        max_usize(max_usize(fl, nl), max_usize(il, sl)),
        max_usize(max_usize(rl, fll), max_usize(inl, max_usize(wl, cl))),
    );
    if best == 0 {
        if s[i] == '"' {
            match string_scan_exec(s, i + 1) {
                Err(j) => Step::Emit(Token::Error, j - i),
                Ok(_) => Step::Emit(Token::Error, 1),
            }
        } else {
            Step::Emit(Token::Error, 1)
        }
    } else if fl == best {
        Step::Emit(ft, fl)
    } else if nl == best {
        Step::Emit(Token::Note, nl)
    } else if il == best {
        Step::Emit(Token::Ident, il)
    } else if sl == best {
        Step::Emit(Token::LitString, sl)
    } else if rl == best {
        Step::Emit(Token::LitRatio, rl)
    } else if fll == best {
        Step::Emit(Token::LitFloat, fll)
    } else if inl == best {
        Step::Emit(Token::LitInt, inl)
    } else if wl == best {
        Step::Skip(wl)
    } else {
        Step::Skip(cl)
    }
}

/// Split the characters of a source text into tokens, dropping whitespace
/// and comments.
pub fn lex(s: &Vec<char>) -> (r: Vec<Lexeme>)
    ensures
        r@ == lex_from(s@, 0),
{
    let mut out: Vec<Lexeme> = Vec::new();
    let mut i: usize = 0;
    while i < s.len()
        invariant
            i <= s.len(),
            lex_from(s@, 0) == out@ + lex_from(s@, i as int),
        decreases s.len() - i,
    {
        let st = step(s, i);
        match st {
            Step::Emit(t, n) => {
                out.push(Lexeme { token: t, start: i, end: i + n });
                proof {
                    assert(lex_from(s@, i as int) == seq![Lexeme { token: t, start: i, end: (i + n) as usize }]
                        + lex_from(s@, i + n));
                    assert(out@ + lex_from(s@, i + n) == (out@.drop_last() + seq![out@.last()]) + lex_from(s@, i + n));
                    assert(out@.drop_last() + seq![out@.last()] == out@);
                }
                i = i + n;
            }
            Step::Skip(n) => {
                i = i + n;
            }
        }
    }
    proof {
        assert(lex_from(s@, i as int) == Seq::<Lexeme>::empty());
        assert(out@ + Seq::<Lexeme>::empty() == out@);
    }
    out
}

} // verus!
