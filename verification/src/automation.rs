//! Simple expressions for numeric parameters, written in prefix notation: an
//! operator first, then its operands, as in `+ 2 * 3 4`.
use vstd::prelude::*;
use crate::text::{
    chars_of, digit_value, digits_value, is_digit, lemma_digits_value_mono, lemma_digits_value_push,
    lemma_nat_digits, nat_digits, string_from_chars,
};

verus! {

/// Opaque variable: it names an input by its index.
#[derive(Debug, Clone, Copy, PartialEq, Eq, Structural)]
pub struct Var(usize);

impl Var {
    /// The index of the input.
    pub closed spec fn spec_index(self) -> nat {
        self.0 as nat
    }

    /// The index of the input that the variable names.
    pub fn index(&self) -> (r: usize)
        ensures
            r == self.spec_index(),
    {
        self.0
    }
}

/// Values that every expression can read.
#[derive(Debug, Clone, Copy, PartialEq, Eq, Structural)]
pub enum BuiltInVar {
    GlobalTimeSeconds,
    NoteTimeSeconds,
}

/// Operators with two operands.
#[derive(Debug, Clone, Copy, PartialEq, Eq, Structural)]
pub enum BinOp {
    Add,
    Sub,
    Mul,
    Div,
    Rem,
    Pow,
}

/// Operators with one operand.
#[derive(Debug, Clone, Copy, PartialEq, Eq, Structural)]
pub enum UnOp {
    Sin,
    Cos,
}

/// Why an expression cannot be evaluated.
#[derive(Debug, PartialEq, Eq, Structural)]
pub enum EvalError {
    /// The expression reads an input that is not there.
    UnknownVariable { var: Var },
}

/// An expression. A constant keeps the text of its number, which is read as
/// a floating-point number where the expression is evaluated.
#[derive(Debug, PartialEq, Eq)]
pub enum Expr {
    Const(String),
    Var(Var),
    BuiltInVar(BuiltInVar),
    BinOp(BinOp, Box<Expr>, Box<Expr>),
    UnOp(UnOp, Box<Expr>),
}

/// An expression as a mathematical value: constants by their text, variables
/// by their index.
pub enum Formula {
    Const(Seq<char>),
    Var(nat),
    BuiltInVar(BuiltInVar),
    BinOp(BinOp, Box<Formula>, Box<Formula>),
    UnOp(UnOp, Box<Formula>),
}

/// The formula an expression stands for.
pub open spec fn formula(e: Expr) -> Formula
    decreases e,
{
    match e {
        Expr::Const(s) => Formula::Const(s@),
        Expr::Var(v) => Formula::Var(v.spec_index()),
        Expr::BuiltInVar(b) => Formula::BuiltInVar(b),
        Expr::BinOp(op, l, r) => Formula::BinOp(op, Box::new(formula(*l)), Box::new(formula(*r))),
        Expr::UnOp(op, x) => Formula::UnOp(op, Box::new(formula(*x))),
    }
}

/// A character that `char::is_ascii_whitespace` accepts.
pub open spec fn is_ascii_ws(c: char) -> bool {
    c == ' ' || c == '\t' || c == '\n' || c == '\x0C' || c == '\r'
}

/// Where the word that starts at `i` ends.
pub open spec fn word_end(s: Seq<char>, i: int) -> int
    decreases s.len() - i,
{
    if i < 0 || i >= s.len() || is_ascii_ws(s[i]) {
        i
    } else {
        word_end(s, i + 1)
    }
}

/// The word that starts at `i` ends inside the text, at whitespace or at the end.
pub proof fn lemma_word_end(s: Seq<char>, i: int)
    requires
        0 <= i <= s.len(),
    ensures
        i <= word_end(s, i) <= s.len(),
        forall|k: int| i <= k < word_end(s, i) ==> !is_ascii_ws(#[trigger] s[k]),
        word_end(s, i) < s.len() ==> is_ascii_ws(s[word_end(s, i)]),
    decreases s.len() - i,
{
    if i < s.len() && !is_ascii_ws(s[i]) {
        lemma_word_end(s, i + 1);
    }
}

/// The words of `s` from `i` on: the maximal runs of characters that are not
/// ASCII whitespace, as `str::split_ascii_whitespace` yields them.
pub open spec fn words_from(s: Seq<char>, i: int) -> Seq<Seq<char>>
    decreases s.len() - i,
{
    if i < 0 || i >= s.len() {
        seq![]
    } else if is_ascii_ws(s[i]) {
        words_from(s, i + 1)
    } else {
        let j = word_end(s, i + 1);
        proof {
            lemma_word_end(s, i + 1);
        }
        seq![s.subrange(i, j)] + words_from(s, j)
    }
}

/// Split `cs` into its words.
fn split_words(cs: &Vec<char>) -> (r: Vec<Vec<char>>)
    ensures
        r@.len() == words_from(cs@, 0).len(),
        forall|k: int| 0 <= k < r@.len() ==> (#[trigger] r@[k])@ == words_from(cs@, 0)[k],
{
    let mut out: Vec<Vec<char>> = Vec::new();
    let mut i: usize = 0;
    while i < cs.len()
        invariant
            i <= cs.len(),
            out@.len() + words_from(cs@, i as int).len() == words_from(cs@, 0).len(),
            forall|k: int| 0 <= k < out@.len() ==> (#[trigger] out@[k])@ == words_from(cs@, 0)[k],
            forall|k: int| 0 <= k < words_from(cs@, i as int).len() ==> #[trigger] words_from(cs@, i as int)[k]
                == words_from(cs@, 0)[out@.len() + k],
        decreases cs.len() - i,
    {
        if is_ws_char(cs[i]) {
            i = i + 1;
        } else {
            let start = i;
            let mut word: Vec<char> = Vec::new();
            while i < cs.len() && !is_ws_char(cs[i])
                invariant
                    start < cs.len(),
                    !is_ascii_ws(cs@[start as int]),
                    start <= i <= cs.len(),
                    word@ == cs@.subrange(start as int, i as int),
                    forall|k: int| start <= k < i ==> !is_ascii_ws(#[trigger] cs@[k]),
                decreases cs.len() - i,
            {
                word.push(cs[i]);
                i = i + 1;
            }
            proof {
                lemma_word_end_at(cs@, start as int + 1, i as int);
                let rest = words_from(cs@, i as int);
                assert(words_from(cs@, start as int) == seq![word@] + rest);
                assert(words_from(cs@, start as int)[0] == word@);
                assert forall|k: int| 0 <= k < rest.len() implies #[trigger] rest[k] == words_from(cs@, 0)[out@.len()
                    + 1 + k] by {
                    assert(rest[k] == words_from(cs@, start as int)[k + 1]);
                }
            }
            out.push(word);
        }
    }
    out
}

/// The word that starts at `i` ends at the first ASCII whitespace from `i` on.
proof fn lemma_word_end_at(s: Seq<char>, i: int, j: int)
    requires
        0 <= i <= j <= s.len(),
        forall|k: int| i <= k < j ==> !is_ascii_ws(#[trigger] s[k]),
        j < s.len() ==> is_ascii_ws(s[j]),
    ensures
        word_end(s, i) == j,
    decreases j - i,
{
    if i < j {
        lemma_word_end_at(s, i + 1, j);
    }
}

/// Whether `c` is ASCII whitespace.
fn is_ws_char(c: char) -> (r: bool)
    ensures
        r == is_ascii_ws(c),
{
    c == ' ' || c == '\t' || c == '\n' || c == '\x0C' || c == '\r'
}

/// Every character of `s` is a decimal digit.
pub open spec fn all_digits(s: Seq<char>) -> bool {
    forall|k: int| 0 <= k < s.len() ==> is_digit(#[trigger] s[k])
}

/// The outcome of parsing `s` as a `usize` with an optional leading `+`, as
/// `str::parse` does, with every error as `None`.
pub open spec fn parse_usize_spec(s: Seq<char>) -> Option<usize> {
    let digits = if s.len() > 0 && s[0] == '+' { s.drop_first() } else { s };
    if digits.len() == 0 || !all_digits(digits) || digits_value(digits) > usize::MAX {
        None
    } else {
        Some(digits_value(digits) as usize)
    }
}

/// Parse `t[from..]` as a `usize`.
fn parse_usize(t: &Vec<char>, from: usize) -> (r: Option<usize>)
    requires
        from <= t.len(),
    ensures
        r == parse_usize_spec(t@.skip(from as int)),
{
    let ghost s = t@.skip(from as int);
    let mut i = from;
    if i < t.len() && t[i] == '+' {
        i = i + 1;
    }
    let start = i;
    let ghost digits = t@.skip(start as int);
    proof {
        if s.len() > 0 && s[0] == '+' {
            assert(s.drop_first() =~= digits);
        } else {
            assert(s =~= digits);
        }
    }
    if i == t.len() {
        return None;
    }
    let mut acc: usize = 0;
    proof {
        assert(digits.take(0) =~= Seq::<char>::empty());
    }
    while i < t.len()
        invariant
            from <= start <= i <= t.len(),
            digits == t@.skip(start as int),
            s == t@.skip(from as int),
            (if s.len() > 0 && s[0] == '+' { s.drop_first() } else { s }) == digits,
            forall|k: int| 0 <= k < i - start ==> is_digit(#[trigger] digits[k]),
            acc == digits_value(digits.take(i - start)),
        decreases t.len() - i,
    {
        let c = t[i];
        proof {
            assert(digits[i - start] == c);
        }
        if c < '0' || c > '9' {
            proof {
                assert(!is_digit(digits[i - start]));
                assert(!all_digits(digits));
            }
            return None;
        }
        let d = (c as u32 - '0' as u32) as usize;
        proof {
            lemma_digits_value_push(digits, i - start);
            assert(d == digit_value(c));
        }
        let next = match acc.checked_mul(10) {
            Some(m) => m.checked_add(d),
            None => None,
        };
        match next {
            Some(v) => {
                acc = v;
            },
            None => {
                proof {
                    if all_digits(digits) {
                        lemma_digits_value_mono(digits, i - start + 1, digits.len() as int);
                        assert(digits.take(digits.len() as int) =~= digits);
                    }
                }
                return None;
            },
        }
        i = i + 1;
    }
    proof {
        assert(digits.take(digits.len() as int) =~= digits);
    }
    Some(acc)
}

/// The binary operator that a word names.
pub open spec fn binop_of(t: Seq<char>) -> Option<BinOp> {
    if t == seq!['+'] {
        Some(BinOp::Add)
    } else if t == seq!['-'] {
        Some(BinOp::Sub)
    } else if t == seq!['*'] {
        Some(BinOp::Mul)
    } else if t == seq!['/'] {
        Some(BinOp::Div)
    } else if t == seq!['%'] {
        Some(BinOp::Rem)
    } else if t == seq!['^'] {
        Some(BinOp::Pow)
    } else {
        None
    }
}

/// The unary operator that a word names.
pub open spec fn unop_of(t: Seq<char>) -> Option<UnOp> {
    if t == seq!['s', 'i', 'n'] {
        Some(UnOp::Sin)
    } else if t == seq!['c', 'o', 's'] {
        Some(UnOp::Cos)
    } else {
        None
    }
}

/// What a word that is no operator stands for: a built-in value, an input
/// `$n`, or else a constant. An input whose index does not parse is an error.
pub open spec fn atom_of(t: Seq<char>) -> Option<Formula> {
    if t == seq!['t', 'i', 'm', 'e'] {
        Some(Formula::BuiltInVar(BuiltInVar::GlobalTimeSeconds))
    } else if t == seq!['n', 'o', 't', 'e', '_', 't', 'i', 'm', 'e'] {
        Some(Formula::BuiltInVar(BuiltInVar::NoteTimeSeconds))
    } else if t.len() > 0 && t[0] == '$' {
        match parse_usize_spec(t.drop_first()) {
            Some(v) => Some(Formula::Var(v as nat)),
            None => None,
        }
    } else {
        Some(Formula::Const(t))
    }
}

/// The expression in prefix notation that starts at word `i`, and the index
/// of the word after it.
pub open spec fn parse_from(ws: Seq<Seq<char>>, i: int) -> Option<(Formula, int)>
    decreases ws.len() - i,
{
    if i < 0 || i >= ws.len() {
        None
    } else {
        match binop_of(ws[i]) {
            Some(op) => match parse_from(ws, i + 1) {
                Some((l, j)) => if i < j <= ws.len() {
                    match parse_from(ws, j) {
                        Some((r, k)) => Some((Formula::BinOp(op, Box::new(l), Box::new(r)), k)),
                        None => None,
                    }
                } else {
                    None
                },
                None => None,
            },
            None => match unop_of(ws[i]) {
                Some(op) => match parse_from(ws, i + 1) {
                    Some((x, j)) => Some((Formula::UnOp(op, Box::new(x)), j)),
                    None => None,
                },
                None => match atom_of(ws[i]) {
                    Some(a) => Some((a, i + 1)),
                    None => None,
                },
            },
        }
    }
}

/// Every expression takes up at least one word and ends inside the text,
/// so the guard on the second operand above always holds.
pub proof fn lemma_parse_progress(ws: Seq<Seq<char>>, i: int)
    ensures
        parse_from(ws, i) matches Some((_, j)) ==> i < j <= ws.len(),
    decreases ws.len() - i,
{
    if 0 <= i < ws.len() {
        lemma_parse_progress(ws, i + 1);
        match parse_from(ws, i + 1) {
            Some((_, j)) => {
                if i < j <= ws.len() {
                    lemma_parse_progress(ws, j);
                }
            },
            None => {},
        }
    }
}

/// The expression that the words of `s` begin with; the words after it are
/// ignored.
pub open spec fn parse_spec(s: Seq<char>) -> Option<Formula> {
    match parse_from(words_from(s, 0), 0) {
        Some((f, _)) => Some(f),
        None => None,
    }
}

/// The texts of the words.
pub open spec fn texts(ts: Seq<Vec<char>>) -> Seq<Seq<char>> {
    ts.map_values(|t: Vec<char>| t@)
}

/// The binary operator that the word names.
fn binop_word(t: &Vec<char>) -> (r: Option<BinOp>)
    ensures
        r == binop_of(t@),
{
    if t.len() != 1 {
        return None;
    }
    proof {
        assert(t@ =~= seq![t@[0]]);
    }
    let c = t[0];
    if c == '+' {
        Some(BinOp::Add)
    } else if c == '-' {
        Some(BinOp::Sub)
    } else if c == '*' {
        Some(BinOp::Mul)
    } else if c == '/' {
        Some(BinOp::Div)
    } else if c == '%' {
        Some(BinOp::Rem)
    } else if c == '^' {
        Some(BinOp::Pow)
    } else {
        None
    }
}

/// Whether the word is the three letters `a`, `b`, `c`.
fn word_is3(t: &Vec<char>, a: char, b: char, c: char) -> (r: bool)
    ensures
        r == (t@ == seq![a, b, c]),
{
    if t.len() != 3 {
        return false;
    }
    let r = t[0] == a && t[1] == b && t[2] == c;
    proof {
        if r {
            assert(t@ =~= seq![a, b, c]);
        }
    }
    r
}

/// Whether the word is the text `w`.
fn word_is(t: &Vec<char>, w: &Vec<char>) -> (r: bool)
    ensures
        r == (t@ == w@),
{
    if t.len() != w.len() {
        return false;
    }
    let mut i: usize = 0;
    while i < t.len()
        invariant
            i <= t.len() == w.len(),
            forall|k: int| 0 <= k < i ==> t@[k] == w@[k],
        decreases t.len() - i,
    {
        if t[i] != w[i] {
            return false;
        }
        i = i + 1;
    }
    proof {
        assert(t@ =~= w@);
    }
    true
}

/// The unary operator that the word names.
fn unop_word(t: &Vec<char>) -> (r: Option<UnOp>)
    ensures
        r == unop_of(t@),
{
    if word_is3(t, 's', 'i', 'n') {
        Some(UnOp::Sin)
    } else if word_is3(t, 'c', 'o', 's') {
        Some(UnOp::Cos)
    } else {
        None
    }
}

/// What a word that is no operator stands for.
fn atom_word(t: &Vec<char>) -> (r: Option<Expr>)
    ensures
        match atom_of(t@) {
            None => r is None,
            Some(f) => r matches Some(e) && formula(e) == f,
        },
{
    let time = vec!['t', 'i', 'm', 'e'];
    let note_time = vec!['n', 'o', 't', 'e', '_', 't', 'i', 'm', 'e'];
    if word_is(t, &time) {
        Some(Expr::BuiltInVar(BuiltInVar::GlobalTimeSeconds))
    } else if word_is(t, &note_time) {
        Some(Expr::BuiltInVar(BuiltInVar::NoteTimeSeconds))
    } else if t.len() > 0 && t[0] == '$' {
        proof {
            assert(t@.drop_first() =~= t@.skip(1));
        }
        match parse_usize(t, 1) {
            Some(v) => Some(Expr::Var(Var(v))),
            None => None,
        }
    } else {
        Some(Expr::Const(string_from_chars(t)))
    }
}

/// Parse the expression that starts at word `pos`, and move `pos` past it.
fn parse_any(ts: &Vec<Vec<char>>, pos: &mut usize) -> (r: Option<Expr>)
    requires
        *old(pos) <= ts.len(),
    ensures
        match parse_from(texts(ts@), *old(pos) as int) {
            None => r is None,
            Some((f, j)) => r matches Some(e) && formula(e) == f && *final(pos) == j,
        },
    decreases ts.len() - *old(pos),
{
    let i = *pos;
    if i >= ts.len() {
        return None;
    }
    let ghost ws = texts(ts@);
    let t = &ts[i];
    proof {
        assert(ws[i as int] == t@);
    }
    *pos = i + 1;
    match binop_word(t) {
        Some(op) => {
            let l = match parse_any(ts, pos) {
                Some(e) => e,
                None => return None,
            };
            proof {
                lemma_parse_progress(ws, i + 1);
            }
            let r = match parse_any(ts, pos) {
                Some(e) => e,
                None => return None,
            };
            Some(Expr::BinOp(op, Box::new(l), Box::new(r)))
        },
        None => match unop_word(t) {
            Some(op) => {
                let x = match parse_any(ts, pos) {
                    Some(e) => e,
                    None => return None,
                };
                Some(Expr::UnOp(op, Box::new(x)))
            },
            None => atom_word(t),
        },
    }
}

impl Expr {
    /// Parse an expression from a prefix-notation string. Words after the
    /// expression are ignored, and constants are kept as they are written.
    pub fn parse(input: &str) -> (r: Option<Expr>)
        ensures
            match parse_spec(input@) {
                None => r is None,
                Some(f) => r matches Some(e) && formula(e) == f,
            },
    {
        let cs = chars_of(input);
        let ts = split_words(&cs);
        proof {
            assert(texts(ts@) =~= words_from(input@, 0));
        }
        let mut pos: usize = 0;
        parse_any(&ts, &mut pos)
    }
}

/// The value of the input that `var` names, or the error that `env` has no
/// such input.
pub fn lookup<T: Copy>(env: &[T], var: Var) -> (r: Result<T, EvalError>)
    ensures
        var.spec_index() < env@.len() ==> r == Ok::<T, EvalError>(env@[var.spec_index() as int]),
        var.spec_index() >= env@.len() ==> r == Err::<T, EvalError>(EvalError::UnknownVariable { var }),
{
    if var.0 < env.len() {
        Ok(env[var.0])
    } else {
        Err(EvalError::UnknownVariable { var })
    }
}

/// A unary operator takes any expression as its operand: where the words
/// from `i + 1` on read as `x`, the words from `i` on, led by `sin` or `cos`,
/// read as that operator applied to `x`, ending where `x` ends; and where
/// they read as nothing, neither does the operator.
pub proof fn law_unop_takes_any_operand(ws: Seq<Seq<char>>, i: int)
    requires
        0 <= i < ws.len(),
        unop_of(ws[i]) is Some,
    ensures
        parse_from(ws, i) == match parse_from(ws, i + 1) {
            Some((x, j)) => Some((Formula::UnOp(unop_of(ws[i])->0, Box::new(x)), j)),
            None => None,
        },
{
    assert(binop_of(ws[i]) is None);
}

/// A binary operator takes any two expressions as its operands, the second
/// read where the first ends.
pub proof fn law_binop_takes_any_operands(ws: Seq<Seq<char>>, i: int)
    requires
        0 <= i < ws.len(),
        binop_of(ws[i]) is Some,
    ensures
        parse_from(ws, i) == match parse_from(ws, i + 1) {
            Some((l, j)) => match parse_from(ws, j) {
                Some((r, k)) => Some((Formula::BinOp(binop_of(ws[i])->0, Box::new(l), Box::new(r)), k)),
                None => None,
            },
            None => None,
        },
{
    lemma_parse_progress(ws, i + 1);
}

/// The word that writes a binary operator.
pub open spec fn binop_text(op: BinOp) -> Seq<char> {
    match op {
        BinOp::Add => seq!['+'],
        BinOp::Sub => seq!['-'],
        BinOp::Mul => seq!['*'],
        BinOp::Div => seq!['/'],
        BinOp::Rem => seq!['%'],
        BinOp::Pow => seq!['^'],
    }
}

/// The word that writes a unary operator.
pub open spec fn unop_text(op: UnOp) -> Seq<char> {
    match op {
        UnOp::Sin => seq!['s', 'i', 'n'],
        UnOp::Cos => seq!['c', 'o', 's'],
    }
}

/// The word that writes an operand that is no operator: a constant by its
/// text, an input as `$` and its index, a built-in value by its name.
pub open spec fn atom_text(f: Formula) -> Seq<char> {
    match f {
        Formula::Const(c) => c,
        Formula::Var(n) => seq!['$'] + nat_digits(n),
        Formula::BuiltInVar(BuiltInVar::GlobalTimeSeconds) => seq!['t', 'i', 'm', 'e'],
        Formula::BuiltInVar(BuiltInVar::NoteTimeSeconds) => seq!['n', 'o', 't', 'e', '_', 't', 'i', 'm', 'e'],
        _ => seq![],
    }
}

/// A formula written in prefix notation, one word per operator and operand.
pub open spec fn prefix_words(f: Formula) -> Seq<Seq<char>>
    decreases f,
{
    match f {
        Formula::BinOp(op, l, r) => seq![binop_text(op)] + prefix_words(*l) + prefix_words(*r),
        Formula::UnOp(op, x) => seq![unop_text(op)] + prefix_words(*x),
        _ => seq![atom_text(f)],
    }
}

/// A formula that can be written: each constant is a word that reads as
/// that constant, and each input index fits in a `usize`.
pub open spec fn writable(f: Formula) -> bool
    decreases f,
{
    match f {
        Formula::Const(c) => binop_of(c) is None && unop_of(c) is None && atom_of(c) == Some(f),
        Formula::Var(n) => n <= usize::MAX,
        Formula::BuiltInVar(_) => true,
        Formula::BinOp(_, l, r) => writable(*l) && writable(*r),
        Formula::UnOp(_, x) => writable(*x),
    }
}

/// Reading back what was written: wherever the words of a formula in prefix
/// notation stand, whatever follows them, the expression read there is that
/// formula, ending after its last word. So an operator takes any formula as
/// an operand, operators among them.
pub proof fn law_prefix_round_trip(f: Formula, ws: Seq<Seq<char>>, i: int)
    requires
        writable(f),
        0 <= i,
        i + prefix_words(f).len() <= ws.len(),
        ws.subrange(i, i + prefix_words(f).len()) == prefix_words(f),
    ensures
        parse_from(ws, i) == Some((f, i + prefix_words(f).len())),
    decreases f,
{
    let n = prefix_words(f).len();
    assert(ws[i] == prefix_words(f)[0]) by {
        assert(ws.subrange(i, i + n)[0] == ws[i]);
    }
    match f {
        Formula::BinOp(op, l, r) => {
            let pl = prefix_words(*l);
            let pr = prefix_words(*r);
            let j = i + 1 + pl.len();
            assert(binop_of(ws[i]) == Some(op));
            assert(ws.subrange(i + 1, j) =~= pl) by {
                assert forall|k: int| 0 <= k < pl.len() implies ws.subrange(i + 1, j)[k] == pl[k] by {
                    assert(ws.subrange(i, i + n)[1 + k] == prefix_words(f)[1 + k]);
                }
            }
            assert(ws.subrange(j, j + pr.len()) =~= pr) by {
                assert forall|k: int| 0 <= k < pr.len() implies ws.subrange(j, j + pr.len())[k] == pr[k] by {
                    assert(ws.subrange(i, i + n)[1 + pl.len() + k] == prefix_words(f)[1 + pl.len() + k]);
                }
            }
            law_prefix_round_trip(*l, ws, i + 1);
            law_prefix_round_trip(*r, ws, j);
            lemma_parse_progress(ws, i + 1);
        },
        Formula::UnOp(op, x) => {
            let px = prefix_words(*x);
            assert(binop_of(ws[i]) is None);
            assert(unop_of(ws[i]) == Some(op));
            assert(ws.subrange(i + 1, i + 1 + px.len()) =~= px) by {
                assert forall|k: int| 0 <= k < px.len() implies ws.subrange(i + 1, i + 1 + px.len())[k] == px[k] by {
                    assert(ws.subrange(i, i + n)[1 + k] == prefix_words(f)[1 + k]);
                }
            }
            law_prefix_round_trip(*x, ws, i + 1);
        },
        Formula::Var(v) => {
            let w = ws[i];
            lemma_nat_digits(v);
            let d = nat_digits(v);
            assert(w == seq!['$'] + d);
            assert(w.len() >= 2);
            assert(w[0] == '$');
            assert(w.drop_first() =~= d);
            assert(is_digit(d[0]));
            assert(binop_of(w) is None);
            assert(unop_of(w) is None);
            assert(w != seq!['t', 'i', 'm', 'e']);
            assert(w != seq!['n', 'o', 't', 'e', '_', 't', 'i', 'm', 'e']);
            assert(parse_usize_spec(d) == Some(v as usize));
        },
        Formula::BuiltInVar(b) => {
            assert(binop_of(ws[i]) is None);
            assert(unop_of(ws[i]) is None);
        },
        Formula::Const(c) => {},
    }
}

} // verus!
