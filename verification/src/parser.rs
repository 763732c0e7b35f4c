//! A recursive descent parser for syn.txt files that recovers from errors.
use vstd::prelude::*;
use std::sync::Arc;
use vstd::utf8::encode_utf8;
use vstd::string::StringSliceAdditionalSpecFns;
use crate::ast::{
    share, Attribute, BinaryOp, Expr, FloatLit, Node, NodePtr, Object, PosRange, Root, SeqSym, Sequence,
    UnaryOp,
};
use crate::grammar::{
    atom_token, binary_prec, binary_token, bool_value, boundary, char_index, drop_underscores, expr_leaves,
    expr_ok, exprs_leaves, exprs_ok, lemma_char_index, lemma_token_leaves_one, lemma_token_leaves_split,
    level, lexeme_span, located, name_ok, object_leaves, object_ok, objects_leaves, objects_ok, pos_at,
    root_leaves, root_ok, span_text, spans, string_inside, token_leaf, token_leaves, unary_token, unescape,
    escaped, attr_leaves, attr_ok, attrs_leaves, attrs_ok, sequence_leaves, sequence_ok, sym_leaves, sym_ok,
    syms_leaves, syms_ok, law_error_token_has_no_tree, Leaf,
};
use crate::lexer::{lemma_lex_from_bounds, lex, lex_from, Lexeme, Span, Token};
use crate::line_map::{pos_of, LineMap, Pos};
use crate::notation::{max_notation_len, seq_sym_denotes, seq_sym_from_str};
use crate::rational::{fraction_parts, fraction_parts_spec, rational_error_message, Rational};
use crate::text::{
    byte_offset, byte_offsets, chars_of, parse_i64, parse_i64_spec, push_char, push_str, string_of,
    string_from_chars, IntErrorKind, lemma_byte_offset_mono,
};

verus! {

/// An error found while parsing, with the place where it was found.
#[derive(Debug, PartialEq, Eq)]
pub struct ParseError {
    pub span: Span,
    pub pos: PosRange,
    pub message: String,
}

/// What the body of an object made of one of its lines, as error recovery
/// reads them: where it starts is where the line before it ended.
pub ghost enum BodyLine {
    /// The closing `}`.
    Close,
    /// The end of the text, where `}` was still missing: reported.
    End,
    /// A name at the end of the text: reported.
    NameAtEnd,
    /// A token that starts neither an attribute nor an object: reported, and
    /// the rest of its line skipped.
    Stray,
    /// A name followed by neither `:` nor `{`: reported, and the rest of the
    /// line skipped.
    NoColon,
    /// An attribute whose value parsed, ending at `next`, with the `errors`
    /// found inside the value.
    Attribute { next: int, errors: nat },
    /// An attribute whose value failed where the parse stopped at `stop`: the
    /// `errors` found, the last of them the failure, and the rest of the line
    /// skipped.
    BadValue { stop: int, errors: nat },
    /// A nested object, whose body made the `lines`.
    Child { lines: Seq<BodyLine> },
    /// A nested object whose body reached the end of the text.
    BadChild { lines: Seq<BodyLine> },
}

/// What the top level of a file made of one object, as error recovery reads
/// it; `named` tells whether the object began with a name.
pub ghost enum RootLine {
    /// An object whose body ended with `}`: kept as `object`.
    Object { named: bool, lines: Seq<BodyLine>, object: Node<Object> },
    /// An object whose body reached the end of the text: reported.
    OpenObject { named: bool, lines: Seq<BodyLine> },
    /// A name followed by no `{`: reported, and the rest of the line skipped.
    NoBrace { named: bool },
}

/// How tightly an operator binds, from loosest to tightest.
#[derive(Debug, PartialEq, Eq, Structural, PartialOrd, Ord, Clone, Copy)]
pub struct Prec(u16);

/// The strengths of the precedence levels.
const LOWEST: u16 = 0;
const DISJUNCTIVE: u16 = 1;
const CONJUNCTIVE: u16 = 2;
const ADDITIVE: u16 = 3;
const MULTIPLICATIVE: u16 = 4;
const UNARY: u16 = 5;
const CALL: u16 = 6;
const DOT: u16 = 7;
const HIGHEST: u16 = 8;

impl Prec {

    /// The strength as a number.
    pub closed spec fn value(self) -> int {
        self.0 as int
    }

    /// The next tighter precedence; there is none above the highest.
    pub fn succ(self) -> (r: Prec)
        requires
            self.value() < 8,
        ensures
            r.value() == self.value() + 1,
    {
        Prec(self.0 + 1)
    }
}

/// The Debug name of a token kind.
pub open spec fn token_name(t: Token) -> Seq<char> {
    match t {
        Token::Plus => "Plus"@,
        Token::Minus => "Minus"@,
        Token::Star => "Star"@,
        Token::Slash => "Slash"@,
        Token::Percent => "Percent"@,
        Token::Not => "Not"@,
        Token::And => "And"@,
        Token::Or => "Or"@,
        Token::Colon => "Colon"@,
        Token::Semi => "Semi"@,
        Token::Comma => "Comma"@,
        Token::Dot => "Dot"@,
        Token::LBrace => "LBrace"@,
        Token::RBrace => "RBrace"@,
        Token::LBracket => "LBracket"@,
        Token::RBracket => "RBracket"@,
        Token::LLBracket => "LLBracket"@,
        Token::RRBracket => "RRBracket"@,
        Token::LParen => "LParen"@,
        Token::RParen => "RParen"@,
        Token::Ident => "Ident"@,
        Token::Note => "Note"@,
        Token::LitString => "LitString"@,
        Token::LitInt => "LitInt"@,
        Token::LitFloat => "LitFloat"@,
        Token::LitRatio => "LitRatio"@,
        Token::LitBool => "LitBool"@,
        Token::Error => "Error"@,
    }
}

/// The Debug form of a list of token kinds, without its brackets.
pub open spec fn token_list(ts: Seq<Token>) -> Seq<char>
    decreases ts.len(),
{
    if ts.len() == 0 {
        seq![]
    } else if ts.len() == 1 {
        token_name(ts[0])
    } else {
        token_list(ts.drop_last()) + ", "@ + token_name(ts.last())
    }
}

/// The message for a token other than the expected ones.
pub open spec fn expected_but_got_message(expected: Seq<Token>, got: Token) -> Seq<char> {
    "Expected one of ["@ + token_list(expected) + "], but got "@ + token_name(got)
}

/// The message for a token other than a described construct.
pub open spec fn expected_str_but_got_message(expected: Seq<char>, got: Token) -> Seq<char> {
    "Expected "@ + expected + ", but got "@ + token_name(got)
}

/// The message for the end of the file where tokens were expected.
pub open spec fn unexpected_eof_message(expected: Seq<Token>) -> Seq<char> {
    "Expected one of ["@ + token_list(expected) + "], but reached end of file"@
}

/// The message for the end of the file where a construct was expected.
pub open spec fn unexpected_str_eof_message(expected: Seq<char>) -> Seq<char> {
    "Expected one of "@ + expected + ", but reached end of file"@
}

/// Appends the Debug name of a token kind.
fn push_token_name(out: &mut String, t: Token)
    ensures
        final(out)@ == old(out)@ + token_name(t),
{
    match t {
        Token::Plus => push_str(out, "Plus"),
        Token::Minus => push_str(out, "Minus"),
        Token::Star => push_str(out, "Star"),
        Token::Slash => push_str(out, "Slash"),
        Token::Percent => push_str(out, "Percent"),
        Token::Not => push_str(out, "Not"),
        Token::And => push_str(out, "And"),
        Token::Or => push_str(out, "Or"),
        Token::Colon => push_str(out, "Colon"),
        Token::Semi => push_str(out, "Semi"),
        Token::Comma => push_str(out, "Comma"),
        Token::Dot => push_str(out, "Dot"),
        Token::LBrace => push_str(out, "LBrace"),
        Token::RBrace => push_str(out, "RBrace"),
        Token::LBracket => push_str(out, "LBracket"),
        Token::RBracket => push_str(out, "RBracket"),
        Token::LLBracket => push_str(out, "LLBracket"),
        Token::RRBracket => push_str(out, "RRBracket"),
        Token::LParen => push_str(out, "LParen"),
        Token::RParen => push_str(out, "RParen"),
        Token::Ident => push_str(out, "Ident"),
        Token::Note => push_str(out, "Note"),
        Token::LitString => push_str(out, "LitString"),
        Token::LitInt => push_str(out, "LitInt"),
        Token::LitFloat => push_str(out, "LitFloat"),
        Token::LitRatio => push_str(out, "LitRatio"),
        Token::LitBool => push_str(out, "LitBool"),
        Token::Error => push_str(out, "Error"),
    }
}

/// Appends the Debug form of a list of token kinds, without its brackets.
fn push_token_list(out: &mut String, ts: &[Token])
    ensures
        final(out)@ == old(out)@ + token_list(ts@),
{
    let mut i: usize = 0;
    while i < ts.len()
        invariant
            i <= ts.len(),
            out@ == old(out)@ + token_list(ts@.take(i as int)),
        decreases ts.len() - i,
    {
        proof {
            assert(ts@.take(i + 1).drop_last() == ts@.take(i as int));
        }
        if i > 0 {
            push_str(out, ", ");
        }
        push_token_name(out, ts[i]);
        i = i + 1;
    }
    proof {
        assert(ts@.take(ts.len() as int) == ts@);
    }
}

/// Where the tokens up to index `n` end, in bytes.
pub open spec fn consumed_at(cs: Seq<char>, toks: Seq<Lexeme>, n: int) -> int {
    if n == 0 {
        0
    } else {
        byte_offset(cs, toks[n - 1].end as int)
    }
}

/// Every ratio literal of the text has parts other than `i64::MIN`, which
/// cannot be normalized.
pub open spec fn ratios_fit(cs: Seq<char>, toks: Seq<Lexeme>) -> bool {
    forall|k: int|
        0 <= k < toks.len() && #[trigger] toks[k].token == Token::LitRatio ==> (fraction_parts_spec(
            drop_underscores(cs.subrange(toks[k].start as int, toks[k].end as int)),
        ) matches Ok((n, d)) ==> n != i64::MIN && d != i64::MIN)
}

/// A text the parser can read: short enough for its counters, and with
/// ratio literals that can be normalized.
pub open spec fn parsable(cs: Seq<char>) -> bool {
    cs.len() <= max_notation_len() && ratios_fit(cs, lex_from(cs, 0))
}

/// Both ends of a span are character boundaries of the text.
pub open spec fn spanned(cs: Seq<char>, sp: Span) -> bool {
    boundary(cs, sp.start as int) && boundary(cs, sp.end as int)
}

pub type Parse<T> = Result<Node<T>, ParseError>;

/// An error's span lies on character boundaries, and its position is the
/// line and column of the ends of its span.
pub open spec fn error_ok(cs: Seq<char>, e: ParseError) -> bool {
    &&& spanned(cs, e.span)
    &&& e.pos == (PosRange { start: pos_at(cs, e.span.start as int), end: pos_at(cs, e.span.end as int) })
}

/// The span of a parse result, node or error, lies on character boundaries,
/// and an error is located by its span.
pub open spec fn result_spanned<T>(cs: Seq<char>, r: Parse<T>) -> bool {
    match r {
        Ok(n) => spanned(cs, n.span),
        Err(e) => error_ok(cs, e),
    }
}

/// Where a bad escape sequence starting at character `i` lies: the
/// backslash alone when the literal ends after it, else with the escaped character.
pub open spec fn string_error_span(cs: Seq<char>, i: int, cut: bool) -> Span {
    Span {
        start: byte_offset(cs, i) as usize,
        end: byte_offset(cs, if cut { i + 1 } else { i + 2 }) as usize,
    }
}

/// The message for a bad escape sequence.
pub open spec fn string_error_message(cut: bool) -> Seq<char> {
    if cut {
        "unterminated escape sequence"@
    } else {
        "unknown escape sequence"@
    }
}

/// What is unescaped so far, `done`, followed by what the rest from offset
/// `off` on unescapes to.
pub open spec fn lift_unescaped(done: Seq<char>, off: int, rest: Result<Seq<char>, (int, bool)>) -> Result<
    Seq<char>,
    (int, bool),
> {
    match rest {
        Ok(r) => Ok(done + r),
        Err((k, cut)) => Err((k + off, cut)),
    }
}

/// The character an escape sequence stands for.
fn escape_char(c: char) -> (r: Option<char>)
    ensures
        r == escaped(c),
{
    if c == 'n' {
        Some('\n')
    } else if c == 't' {
        Some('\t')
    } else if c == 'r' {
        Some('\r')
    } else if c == '\\' {
        Some('\\')
    } else {
        None
    }
}

/// The characters from `start` to `end`, without underscores if they are to
/// be ignored.
fn chars_between(cs: &Vec<char>, start: usize, end: usize, ignore_underscores: bool) -> (r: Vec<char>)
    requires
        start <= end <= cs.len(),
    ensures
        r@ == (if ignore_underscores {
            drop_underscores(cs@.subrange(start as int, end as int))
        } else {
            cs@.subrange(start as int, end as int)
        }),
{
    let mut out: Vec<char> = Vec::new();
    let mut i = start;
    while i < end
        invariant
            start <= i <= end <= cs.len(),
            out@ == (if ignore_underscores {
                drop_underscores(cs@.subrange(start as int, i as int))
            } else {
                cs@.subrange(start as int, i as int)
            }),
        decreases end - i,
    {
        let c = cs[i];
        proof {
            let t = cs@.subrange(start as int, i + 1);
            assert(t.drop_last() == cs@.subrange(start as int, i as int));
            assert(t.last() == c);
        }
        if !ignore_underscores || c != '_' {
            out.push(c);
        }
        i = i + 1;
    }
    out
}

/// Whether the parser can read a source text: it is short enough for the
/// counters of the parser, and its ratio literals can be normalized.
pub fn parsable_source(source: &str) -> (r: bool)
    ensures
        r == parsable(source@),
{
    let chars = chars_of(source);
    if chars.len() as u64 > 0x3fff_ffff_ffff_ffffu64 {
        return false;
    }
    let tokens = lex(&chars);
    proof {
        lemma_lex_from_bounds(chars@, 0);
    }
    let mut k: usize = 0;
    while k < tokens.len()
        invariant
            chars@ == source@,
            tokens@ == lex_from(chars@, 0),
            chars.len() <= max_notation_len(),
            k <= tokens.len(),
            forall|j: int| 0 <= j < tokens@.len() ==> 0 <= #[trigger] tokens@[j].start < tokens@[j].end <= chars@.len(),
            forall|j: int|
                0 <= j < k && #[trigger] tokens@[j].token == Token::LitRatio ==> (fraction_parts_spec(
                    drop_underscores(chars@.subrange(tokens@[j].start as int, tokens@[j].end as int)),
                ) matches Ok((n, d)) ==> n != i64::MIN && d != i64::MIN),
        decreases tokens.len() - k,
    {
        let lx = tokens[k];
        if lx.token == Token::LitRatio {
            let text = chars_between(&chars, lx.start, lx.end, true);
            match fraction_parts(&text) {
                Ok((n, d)) => {
                    if n == i64::MIN || d == i64::MIN {
                        return false;
                    }
                },
                Err(_) => {},
            }
        }
        k = k + 1;
    }
    true
}

/// The message of an integer parse error.
pub open spec fn int_error_message(kind: IntErrorKind) -> Seq<char> {
    match kind {
        IntErrorKind::Empty => "cannot parse integer from empty string"@,
        IntErrorKind::InvalidDigit => "invalid digit found in string"@,
        IntErrorKind::PosOverflow => "number too large to fit in target type"@,
        IntErrorKind::NegOverflow => "number too small to fit in target type"@,
    }
}

/// The message for a boolean literal other than `true` and `false`.
pub open spec fn bool_error_message() -> Seq<char> {
    "provided string was not `true` or `false`"@
}

/// The message of an integer parse error.
fn int_error_text(kind: IntErrorKind) -> (m: String)
    ensures
        m@ == int_error_message(kind),
{
    let mut m = String::new();
    match kind {
        IntErrorKind::Empty => push_str(&mut m, "cannot parse integer from empty string"),
        IntErrorKind::InvalidDigit => push_str(&mut m, "invalid digit found in string"),
        IntErrorKind::PosOverflow => push_str(&mut m, "number too large to fit in target type"),
        IntErrorKind::NegOverflow => push_str(&mut m, "number too small to fit in target type"),
    }
    m
}

/// The characters are those of the word.
fn same_chars(cs: &Vec<char>, word: &str) -> (r: bool)
    ensures
        r == (cs@ == word@),
{
    let w = chars_of(word);
    if cs.len() != w.len() {
        return false;
    }
    let mut i: usize = 0;
    while i < cs.len()
        invariant
            i <= cs.len() == w.len(),
            w@ == word@,
            forall|j: int| 0 <= j < i ==> cs@[j] == w@[j],
        decreases cs.len() - i,
    {
        if cs[i] != w[i] {
            return false;
        }
        i = i + 1;
    }
    proof {
        assert(cs@ == w@);
    }
    true
}

/// How tightly an infix operator token binds, or 0 for other tokens.
pub open spec fn infix_prec(t: Token) -> int {
    match t {
        Token::Or => 1,
        Token::And => 2,
        Token::Plus => 3,
        Token::Minus => 3,
        Token::Star => 4,
        Token::Slash => 4,
        _ => 0,
    }
}

/// How tightly a postfix token (a call or an attribute access) binds, or 0.
pub open spec fn postfix_prec(t: Token) -> int {
    match t {
        Token::Dot => 7,
        Token::LParen => 6,
        _ => 0,
    }
}

/// The token at index `j`, or none past the end.
pub open spec fn token_at(toks: Seq<Lexeme>, j: int) -> Option<Token> {
    if 0 <= j < toks.len() {
        Some(toks[j].token)
    } else {
        None
    }
}

/// Token `k` of the text `cs` is a variable or a literal that spells a value.
pub open spec fn literal_ok(cs: Seq<char>, toks: Seq<Lexeme>, k: int) -> bool {
    let text = cs.subrange(toks[k].start as int, toks[k].end as int);
    match toks[k].token {
        Token::Ident => true,
        Token::LitInt => parse_i64_spec(drop_underscores(text)) is Ok,
        Token::LitRatio => fraction_parts_spec(drop_underscores(text)) is Ok,
        Token::LitFloat => true,
        Token::LitString => unescape(string_inside(text)) is Ok,
        Token::LitBool => bool_value(text) is Some,
        _ => false,
    }
}

/// The token is a prefix operator.
pub open spec fn is_prefix_op(t: Token) -> bool {
    t == Token::Plus || t == Token::Minus || t == Token::Not
}

/// The index of the `)` that closes a parenthesis, scanning from `i` with
/// `depth` parentheses open besides it, or -1.
pub open spec fn closing_paren(toks: Seq<Lexeme>, i: int, depth: int) -> int
    decreases toks.len() - i,
{
    if i < 0 || i >= toks.len() {
        -1
    } else if toks[i].token == Token::LParen {
        closing_paren(toks, i + 1, depth + 1)
    } else if toks[i].token == Token::RParen {
        if depth <= 0 {
            i
        } else {
            closing_paren(toks, i + 1, depth - 1)
        }
    } else {
        closing_paren(toks, i + 1, depth)
    }
}

/// Where the operand that starts at `a` ends: after its prefix operators and
/// a literal, or after the `)` that matches its `(`; -1 if it does not.
pub open spec fn operand_end(cs: Seq<char>, toks: Seq<Lexeme>, a: int) -> int
    decreases toks.len() - a,
{
    if a < 0 || a >= toks.len() {
        -1
    } else if is_prefix_op(toks[a].token) {
        operand_end(cs, toks, a + 1)
    } else if literal_ok(cs, toks, a) {
        a + 1
    } else if toks[a].token == Token::LParen && closing_paren(toks, a + 1, 0) > a + 1 {
        closing_paren(toks, a + 1, 0) + 1
    } else {
        -1
    }
}

/// Where the operands joined by binary operators that start at `a` end.
pub open spec fn chain_end(cs: Seq<char>, toks: Seq<Lexeme>, a: int) -> int
    decreases toks.len() - a,
{
    let k = operand_end(cs, toks, a);
    if k <= a || a < 0 {
        -1
    } else if k < toks.len() && infix_prec(toks[k].token) > 0 {
        chain_end(cs, toks, k + 1)
    } else {
        k
    }
}

/// The tokens `a..b` are one operand: prefix operators, then a variable, a
/// literal that spells a value, or an expression in parentheses.
pub open spec fn operand(cs: Seq<char>, toks: Seq<Lexeme>, a: int, b: int) -> bool
    decreases b - a, 0int,
{
    &&& 0 <= a < b <= toks.len()
    &&& {
        ||| is_prefix_op(toks[a].token) && operand(cs, toks, a + 1, b)
        ||| b == a + 1 && literal_ok(cs, toks, a)
        ||| toks[a].token == Token::LParen && a + 1 < b - 1 && toks[b - 1].token == Token::RParen
            && expr_chain(cs, toks, a + 1, b - 1)
    }
}

/// The tokens `a..j` are operands joined by binary operators.
pub open spec fn expr_chain(cs: Seq<char>, toks: Seq<Lexeme>, a: int, j: int) -> bool
    decreases j - a, 1int,
{
    let k = operand_end(cs, toks, a);
    &&& a < k <= j
    &&& operand(cs, toks, a, k)
    &&& (k == j || (k + 1 < j && infix_prec(toks[k].token) > 0 && expr_chain(cs, toks, k + 1, j)))
}

/// Position `p` lies at the end `j` of an expression chain, or at one of its
/// operators.
pub open spec fn chain_rest(cs: Seq<char>, toks: Seq<Lexeme>, p: int, j: int) -> bool {
    p == j || (0 <= p < j && infix_prec(toks[p].token) > 0 && expr_chain(cs, toks, p + 1, j))
}

/// The empty span at the end of the text.
pub open spec fn eof_span_of(cs: Seq<char>) -> Span {
    let n = byte_offset(cs, cs.len() as int) as usize;
    Span { start: n, end: n }
}

/// Where skipping to the next line, from token `from` on, stops: the
/// first token from `k` on that lies on a later line than the token
/// before `from`, or the end.
pub open spec fn line_skip_end(cs: Seq<char>, toks: Seq<Lexeme>, from: int, k: int) -> int
    decreases toks.len() - k,
{
    if k < 0 || k >= toks.len() {
        toks.len() as int
    } else if pos_at(cs, lexeme_span(cs, toks[k]).start as int).line > pos_at(cs, consumed_at(cs, toks, from)).line {
        k
    } else {
        line_skip_end(cs, toks, from, k + 1)
    }
}

/// The error `e` reports token kind `t` at `span` where one of
/// `expected` was due.
pub open spec fn got_error(cs: Seq<char>, toks: Seq<Lexeme>, e: ParseError, span: Span, expected: Seq<Token>, t: Token) -> bool {
    &&& e.span == span
    &&& e.message@ == expected_but_got_message(expected, t)
    &&& error_ok(cs, e)
}

/// The error `e` reports the end of the text where one of `expected` was
/// due.
pub open spec fn eof_error(cs: Seq<char>, toks: Seq<Lexeme>, e: ParseError, expected: Seq<Token>) -> bool {
    &&& e.span == eof_span_of(cs)
    &&& e.message@ == unexpected_eof_message(expected)
    &&& error_ok(cs, e)
}

/// How many errors a line reports.
pub open spec fn line_count(cs: Seq<char>, toks: Seq<Lexeme>, line: BodyLine) -> nat
    decreases line, 1int,
{
    match line {
        BodyLine::Close => 0,
        BodyLine::Attribute { errors, .. } => errors,
        BodyLine::BadValue { errors, .. } => errors,
        BodyLine::Child { lines } => lines_count(cs, toks, lines),
        BodyLine::BadChild { lines } => lines_count(cs, toks, lines),
        _ => 1,
    }
}

/// How many errors lines report.
pub open spec fn lines_count(cs: Seq<char>, toks: Seq<Lexeme>, ls: Seq<BodyLine>) -> nat
    decreases ls, 0int,
{
    if ls.len() == 0 {
        0
    } else {
        lines_count(cs, toks, ls.subrange(0, ls.len() - 1)) + line_count(cs, toks, ls[ls.len() - 1])
    }
}

/// The line ends the body: a closing brace, or a failure.
pub open spec fn terminal(line: BodyLine) -> bool {
    line is Close || line is End || line is NameAtEnd || line is BadChild
}

/// Where the next line starts after a line that starts at `p`.
pub open spec fn line_next(cs: Seq<char>, toks: Seq<Lexeme>, p: int, line: BodyLine) -> int
    decreases line, 2int,
{
    match line {
        BodyLine::Stray => line_skip_end(cs, toks, p + 1, p + 1),
        BodyLine::NoColon => line_skip_end(cs, toks, p + 1, p + 1),
        BodyLine::Attribute { next, .. } => next,
        BodyLine::BadValue { stop, .. } => line_skip_end(cs, toks, stop, stop),
        BodyLine::Child { lines } => body_end(cs, toks, p + 2, lines),
        _ => p,
    }
}

/// Where lines that start at `p` end.
pub open spec fn lines_end(cs: Seq<char>, toks: Seq<Lexeme>, p: int, ls: Seq<BodyLine>) -> int
    decreases ls, 1int,
{
    if ls.len() == 0 {
        p
    } else {
        line_next(cs, toks, lines_end(cs, toks, p, ls.subrange(0, ls.len() - 1)), ls[ls.len() - 1])
    }
}

/// Where a body whose lines start at `p` ends: after its closing brace,
/// or -1 where it reached the end of the text.
pub open spec fn body_end(cs: Seq<char>, toks: Seq<Lexeme>, p: int, ls: Seq<BodyLine>) -> int
    decreases ls, 0int,
{
    if ls.len() > 0 && ls[ls.len() - 1] is Close {
        lines_end(cs, toks, p, ls.subrange(0, ls.len() - 1)) + 1
    } else {
        -1
    }
}

/// A line that starts at token `p` is what the tokens there make of it,
/// and `errs` are the errors it reports.
pub open spec fn line_ok(cs: Seq<char>, toks: Seq<Lexeme>, p: int, line: BodyLine, errs: Seq<ParseError>) -> bool
    decreases line, 3int,
{
    let toks = toks;
    &&& 0 <= p <= toks.len()
    &&& errs.len() == line_count(cs, toks, line)
    &&& match line {
        BodyLine::Close => p < toks.len() && toks[p].token == Token::RBrace,
        BodyLine::End => p == toks.len() && eof_error(cs, toks, errs[0], seq![Token::Ident, Token::RBrace]),
        BodyLine::NameAtEnd => p + 1 == toks.len() && toks[p].token == Token::Ident && eof_error(cs, toks, 
            errs[0],
            seq![Token::Colon, Token::LBrace],
        ),
        BodyLine::Stray => p < toks.len() && toks[p].token != Token::Ident && toks[p].token != Token::RBrace
            && got_error(cs, toks, errs[0], lexeme_span(cs, toks[p]), seq![Token::Ident, Token::RBrace], toks[p].token),
        BodyLine::NoColon => p + 1 < toks.len() && toks[p].token == Token::Ident && toks[p + 1].token
            != Token::Colon && toks[p + 1].token != Token::LBrace && got_error(cs, toks, 
            errs[0],
            lexeme_span(cs, toks[p + 1]),
            seq![Token::Colon, Token::LBrace],
            toks[p + 1].token,
        ),
        BodyLine::Attribute { next, .. } => p + 2 < next <= toks.len() && toks[p].token == Token::Ident
            && toks[p + 1].token == Token::Colon,
        BodyLine::BadValue { stop, errors } => p + 2 <= stop <= toks.len() && errors >= 1 && toks[p].token
            == Token::Ident && toks[p + 1].token == Token::Colon,
        BodyLine::Child { lines } => p + 1 < toks.len() && toks[p].token == Token::Ident && toks[p + 1].token
            == Token::LBrace && body_ok(cs, toks, p + 2, lines, errs) && body_end(cs, toks, p + 2, lines) > 0,
        BodyLine::BadChild { lines } => p + 1 < toks.len() && toks[p].token == Token::Ident && toks[p
            + 1].token == Token::LBrace && body_ok(cs, toks, p + 2, lines, errs) && body_end(cs, toks, p + 2, lines) <= 0,
    }
}

/// Lines that go on, starting at `p`, and `errs` the errors they report.
pub open spec fn lines_ok(cs: Seq<char>, toks: Seq<Lexeme>, p: int, ls: Seq<BodyLine>, errs: Seq<ParseError>) -> bool
    decreases ls, 2int,
{
    if ls.len() == 0 {
        errs.len() == 0
    } else {
        let pre = ls.subrange(0, ls.len() - 1);
        let last = ls[ls.len() - 1];
        let k = errs.len() - line_count(cs, toks, last);
        &&& 0 <= k
        &&& !terminal(last)
        &&& lines_ok(cs, toks, p, pre, errs.subrange(0, k))
        &&& line_ok(cs, toks, lines_end(cs, toks, p, pre), last, errs.subrange(k, errs.len() as int))
    }
}

/// The body of an object, after its `{` at `p - 1`, made the lines `ls`,
/// the last of them a closing brace or a failure, and reported `errs`.
pub open spec fn body_ok(cs: Seq<char>, toks: Seq<Lexeme>, p: int, ls: Seq<BodyLine>, errs: Seq<ParseError>) -> bool
    decreases ls, 4int,
{
    ls.len() > 0 && {
        let pre = ls.subrange(0, ls.len() - 1);
        let last = ls[ls.len() - 1];
        let k = errs.len() - line_count(cs, toks, last);
        &&& 0 <= k
        &&& terminal(last)
        &&& lines_ok(cs, toks, p, pre, errs.subrange(0, k))
        &&& line_ok(cs, toks, lines_end(cs, toks, p, pre), last, errs.subrange(k, errs.len() as int))
    }
}

/// The token positions of the attributes that lines keep.
pub open spec fn attr_positions(cs: Seq<char>, toks: Seq<Lexeme>, p: int, ls: Seq<BodyLine>) -> Seq<int>
    decreases ls.len(),
{
    if ls.len() == 0 {
        seq![]
    } else {
        let pre = ls.subrange(0, ls.len() - 1);
        attr_positions(cs, toks, p, pre) + if ls[ls.len() - 1] is Attribute {
            seq![lines_end(cs, toks, p, pre)]
        } else {
            seq![]
        }
    }
}

/// The token positions of the nested objects that lines keep.
pub open spec fn child_positions(cs: Seq<char>, toks: Seq<Lexeme>, p: int, ls: Seq<BodyLine>) -> Seq<int>
    decreases ls.len(),
{
    if ls.len() == 0 {
        seq![]
    } else {
        let pre = ls.subrange(0, ls.len() - 1);
        child_positions(cs, toks, p, pre) + if ls[ls.len() - 1] is Child {
            seq![lines_end(cs, toks, p, pre)]
        } else {
            seq![]
        }
    }
}

/// One more line that goes on extends lines that go on.
proof fn lemma_lines_push(
    cs: Seq<char>,
    toks: Seq<Lexeme>,
    p: int,
    ls: Seq<BodyLine>,
    x: BodyLine,
    e1: Seq<ParseError>,
    e2: Seq<ParseError>,
)
    requires
        lines_ok(cs, toks, p, ls, e1),
        !terminal(x),
        line_ok(cs, toks, lines_end(cs, toks, p, ls), x, e2),
    ensures
        lines_ok(cs, toks, p, ls.push(x), e1 + e2),
        lines_end(cs, toks, p, ls.push(x)) == line_next(cs, toks, lines_end(cs, toks, p, ls), x),
        attr_positions(cs, toks, p, ls.push(x)) == attr_positions(cs, toks, p, ls) + if x is Attribute {
            seq![lines_end(cs, toks, p, ls)]
        } else {
            seq![]
        },
        child_positions(cs, toks, p, ls.push(x)) == child_positions(cs, toks, p, ls) + if x is Child {
            seq![lines_end(cs, toks, p, ls)]
        } else {
            seq![]
        },
{
    assert(ls.push(x).subrange(0, ls.len() as int) =~= ls);
    assert((e1 + e2).subrange(0, e1.len() as int) =~= e1);
    assert((e1 + e2).subrange(e1.len() as int, (e1 + e2).len() as int) =~= e2);
}

/// The errors of lines are as many as the lines report.
proof fn lemma_lines_count(cs: Seq<char>, toks: Seq<Lexeme>, p: int, ls: Seq<BodyLine>, e: Seq<ParseError>)
    requires
        lines_ok(cs, toks, p, ls, e) || body_ok(cs, toks, p, ls, e),
    ensures
        e.len() == lines_count(cs, toks, ls),
    decreases ls.len(),
{
    if ls.len() > 0 {
        let pre = ls.subrange(0, ls.len() - 1);
        let k = e.len() - line_count(cs, toks, ls[ls.len() - 1]);
        lemma_lines_count(cs, toks, p, pre, e.subrange(0, k));
    }
}

/// A last line that ends the body adds no attribute or nested object.
proof fn lemma_positions_terminal(cs: Seq<char>, toks: Seq<Lexeme>, p: int, ls: Seq<BodyLine>, x: BodyLine)
    requires
        terminal(x),
    ensures
        attr_positions(cs, toks, p, ls.push(x)) == attr_positions(cs, toks, p, ls),
        child_positions(cs, toks, p, ls.push(x)) == child_positions(cs, toks, p, ls),
        lines_end(cs, toks, p, ls.push(x)) == line_next(cs, toks, lines_end(cs, toks, p, ls), x),
{
    assert(ls.push(x).subrange(0, ls.len() as int) =~= ls);
    assert(attr_positions(cs, toks, p, ls) + seq![] =~= attr_positions(cs, toks, p, ls));
    assert(child_positions(cs, toks, p, ls) + seq![] =~= child_positions(cs, toks, p, ls));
}

/// A last line that ends the body completes lines that go on.
proof fn lemma_body_last(
    cs: Seq<char>,
    toks: Seq<Lexeme>,
    p: int,
    ls: Seq<BodyLine>,
    x: BodyLine,
    e1: Seq<ParseError>,
    e2: Seq<ParseError>,
)
    requires
        lines_ok(cs, toks, p, ls, e1),
        terminal(x),
        line_ok(cs, toks, lines_end(cs, toks, p, ls), x, e2),
    ensures
        body_ok(cs, toks, p, ls.push(x), e1 + e2),
        body_end(cs, toks, p, ls.push(x)) == if x is Close {
            lines_end(cs, toks, p, ls) + 1
        } else {
            -1
        },
        attr_positions(cs, toks, p, ls.push(x)) == attr_positions(cs, toks, p, ls),
        child_positions(cs, toks, p, ls.push(x)) == child_positions(cs, toks, p, ls),
{
    assert(ls.push(x).subrange(0, ls.len() as int) =~= ls);
    assert((e1 + e2).subrange(0, e1.len() as int) =~= e1);
    assert((e1 + e2).subrange(e1.len() as int, (e1 + e2).len() as int) =~= e2);
    assert(attr_positions(cs, toks, p, ls) + seq![] =~= attr_positions(cs, toks, p, ls));
    assert(child_positions(cs, toks, p, ls) + seq![] =~= child_positions(cs, toks, p, ls));
}

/// The parts of a top-level line.
pub open spec fn root_named(line: RootLine) -> bool {
    match line {
        RootLine::Object { named, .. } => named,
        RootLine::OpenObject { named, .. } => named,
        RootLine::NoBrace { named } => named,
    }
}

/// How many errors a top-level line reports.
pub open spec fn root_line_count(cs: Seq<char>, toks: Seq<Lexeme>, line: RootLine) -> nat {
    (if root_named(line) { 0nat } else { 1nat }) + match line {
        RootLine::Object { lines, .. } => lines_count(cs, toks, lines),
        RootLine::OpenObject { lines, .. } => lines_count(cs, toks, lines) + 1,
        RootLine::NoBrace { .. } => 1,
    }
}

/// Where the parse of a top-level line that starts at `p` stops, before
/// any skipping.
pub open spec fn root_line_stop(cs: Seq<char>, toks: Seq<Lexeme>, p: int, line: RootLine) -> int {
    match line {
        RootLine::Object { lines, .. } => body_end(cs, toks, p + 2, lines),
        RootLine::OpenObject { .. } => toks.len() as int,
        RootLine::NoBrace { .. } => if p + 1 < toks.len() { p + 2 } else { toks.len() as int },
    }
}

/// Where the next top-level line starts.
pub open spec fn root_line_next(cs: Seq<char>, toks: Seq<Lexeme>, p: int, line: RootLine) -> int {
    if line is Object {
        root_line_stop(cs, toks, p, line)
    } else {
        line_skip_end(cs, toks, root_line_stop(cs, toks, p, line), root_line_stop(cs, toks, p, line))
    }
}

/// A top-level line that starts at token `p` is what the tokens there make
/// of it, and `errs` are the errors it reports.
pub open spec fn root_line_ok(cs: Seq<char>, toks: Seq<Lexeme>, p: int, line: RootLine, errs: Seq<ParseError>) -> bool {
    let n = if root_named(line) { 0int } else { 1int };
    &&& 0 <= p < toks.len()
    &&& errs.len() == root_line_count(cs, toks, line)
    &&& root_named(line) == (toks[p].token == Token::Ident)
    &&& !root_named(line) ==> got_error(cs, toks, errs[0], lexeme_span(cs, toks[p]), seq![Token::Ident], toks[p].token)
    &&& match line {
        RootLine::Object { lines, object, .. } => {
            &&& p + 1 < toks.len() && toks[p + 1].token == Token::LBrace
            &&& body_ok(cs, toks, p + 2, lines, errs.subrange(n, errs.len() as int))
            &&& body_end(cs, toks, p + 2, lines) > 0
            &&& body_outcome(cs, toks, p + 2, lines, Ok(object), body_end(cs, toks, p + 2, lines))
            &&& object.data.name.span == lexeme_span(cs, toks[p])
        },
        RootLine::OpenObject { lines, .. } => {
            &&& p + 1 < toks.len() && toks[p + 1].token == Token::LBrace
            &&& body_ok(cs, toks, p + 2, lines, errs.subrange(n, errs.len() - 1))
            &&& body_end(cs, toks, p + 2, lines) <= 0
            &&& eof_error(cs, toks, errs[errs.len() - 1], seq![Token::RBrace])
        },
        RootLine::NoBrace { .. } => if p + 1 < toks.len() {
            toks[p + 1].token != Token::LBrace && got_error(
                cs,
                toks,
                errs[n],
                lexeme_span(cs, toks[p + 1]),
                seq![Token::LBrace],
                toks[p + 1].token,
            )
        } else {
            eof_error(cs, toks, errs[n], seq![Token::LBrace])
        },
    }
}

/// Where top-level lines that start at `p` end.
pub open spec fn root_lines_end(cs: Seq<char>, toks: Seq<Lexeme>, p: int, ls: Seq<RootLine>) -> int
    decreases ls.len(),
{
    if ls.len() == 0 {
        p
    } else {
        root_line_next(cs, toks, root_lines_end(cs, toks, p, ls.subrange(0, ls.len() - 1)), ls[ls.len() - 1])
    }
}

/// Top-level lines that start at `p`, and `errs` the errors they report.
pub open spec fn root_lines_ok(cs: Seq<char>, toks: Seq<Lexeme>, p: int, ls: Seq<RootLine>, errs: Seq<ParseError>) -> bool
    decreases ls.len(),
{
    if ls.len() == 0 {
        errs.len() == 0
    } else {
        let pre = ls.subrange(0, ls.len() - 1);
        let last = ls[ls.len() - 1];
        let k = errs.len() - root_line_count(cs, toks, last);
        &&& 0 <= k
        &&& root_lines_ok(cs, toks, p, pre, errs.subrange(0, k))
        &&& root_line_ok(cs, toks, root_lines_end(cs, toks, p, pre), last, errs.subrange(k, errs.len() as int))
    }
}

/// The objects that top-level lines keep.
pub open spec fn kept_objects(ls: Seq<RootLine>) -> Seq<Node<Object>>
    decreases ls.len(),
{
    if ls.len() == 0 {
        seq![]
    } else {
        kept_objects(ls.subrange(0, ls.len() - 1)) + match ls[ls.len() - 1] {
            RootLine::Object { object, .. } => seq![object],
            _ => seq![],
        }
    }
}

/// What parsing an object that starts at `p` returns, with the errors it
/// reports and where it stops: the object it keeps, or the error that the
/// top level reports for it.
pub open spec fn object_result(
    cs: Seq<char>,
    toks: Seq<Lexeme>,
    p: int,
    line: RootLine,
    errs: Seq<ParseError>,
    r: Parse<Object>,
    at: int,
) -> bool {
    &&& at == root_line_stop(cs, toks, p, line)
    &&& match line {
        RootLine::Object { object, .. } => root_line_ok(cs, toks, p, line, errs) && r == Ok::<Node<Object>, ParseError>(object),
        _ => r matches Err(e) && root_line_ok(cs, toks, p, line, errs.push(e)),
    }
}

/// One more top-level line extends top-level lines.
proof fn lemma_root_push(
    cs: Seq<char>,
    toks: Seq<Lexeme>,
    p: int,
    ls: Seq<RootLine>,
    x: RootLine,
    e1: Seq<ParseError>,
    e2: Seq<ParseError>,
)
    requires
        root_lines_ok(cs, toks, p, ls, e1),
        root_line_ok(cs, toks, root_lines_end(cs, toks, p, ls), x, e2),
    ensures
        root_lines_ok(cs, toks, p, ls.push(x), e1 + e2),
        root_lines_end(cs, toks, p, ls.push(x)) == root_line_next(cs, toks, root_lines_end(cs, toks, p, ls), x),
        kept_objects(ls.push(x)) == kept_objects(ls) + match x {
            RootLine::Object { object, .. } => seq![object],
            _ => seq![],
        },
{
    assert(ls.push(x).subrange(0, ls.len() as int) =~= ls);
    assert((e1 + e2).subrange(0, e1.len() as int) =~= e1);
    assert((e1 + e2).subrange(e1.len() as int, (e1 + e2).len() as int) =~= e2);
}

/// What a body whose lines start at `p` returns, and where the parse
/// stands after it: the object with an attribute for each attribute line
/// and a nested object for each nested object line, after the closing
/// brace; or, where the body reached the end of the text, the error that
/// `}` is missing.
pub open spec fn body_outcome(
    cs: Seq<char>,
    toks: Seq<Lexeme>,
    p: int,
    ls: Seq<BodyLine>,
    r: Parse<Object>,
    at: int,
) -> bool {
    let attrs = attr_positions(cs, toks, p, ls);
    let children = child_positions(cs, toks, p, ls);
    if body_end(cs, toks, p, ls) > 0 {
        &&& at == body_end(cs, toks, p, ls)
        &&& r matches Ok(n)
        &&& n.data.attrs@.len() == attrs.len()
        &&& forall|i: int| 0 <= i < attrs.len() ==> #[trigger] n.data.attrs@[i].data.name.span == lexeme_span(cs, toks[attrs[i]])
        &&& n.data.children@.len() == children.len()
        &&& forall|i: int|
            0 <= i < children.len() ==> #[trigger] n.data.children@[i].data.name.span == lexeme_span(cs, toks[children[i]])
    } else {
        &&& at == toks.len()
        &&& r matches Err(e)
        &&& eof_error(cs, toks, e, seq![Token::RBrace])
    }
}

/// The token at `j` ends an expression parsed at least as tightly as `m`,
/// and does not open an object body.
pub open spec fn ends_chain(toks: Seq<Lexeme>, j: int, m: int) -> bool {
    !continues_expr(token_at(toks, j), m) && token_at(toks, j) != Some(Token::LBrace)
}

/// The tokens from `p` on, at `depth` open object bodies, are well formed
/// objects whose attributes are expression chains: a closing brace, a
/// nested object, or an attribute, until the end at depth 0.
pub open spec fn object_tokens(cs: Seq<char>, toks: Seq<Lexeme>, p: int, depth: int) -> bool
    decreases toks.len() - p,
{
    if p < 0 || p > toks.len() || depth < 0 {
        false
    } else if p == toks.len() {
        depth == 0
    } else {
        ||| depth > 0 && toks[p].token == Token::RBrace && object_tokens(cs, toks, p + 1, depth - 1)
        ||| p + 1 < toks.len() && toks[p].token == Token::Ident && toks[p + 1].token == Token::LBrace
            && object_tokens(cs, toks, p + 2, depth + 1)
        ||| depth > 0 && p + 1 < toks.len() && toks[p].token == Token::Ident && toks[p + 1].token == Token::Colon
            && p + 2 < chain_end(cs, toks, p + 2) <= toks.len() && expr_chain(
            cs,
            toks,
            p + 2,
            chain_end(cs, toks, p + 2),
        ) && ends_chain(toks, chain_end(cs, toks, p + 2), 0) && object_tokens(
            cs,
            toks,
            chain_end(cs, toks, p + 2),
            depth,
        )
    }
}

/// The parts of an expression stand in the text in the order they are
/// written: an operator before its operand or between its operands, and
/// parentheses around what they enclose.
pub open spec fn expr_ordered(e: Node<Expr>) -> bool
    decreases e,
{
    match e.data {
        Expr::Binary { left, operator, right } => {
            &&& left.span.end <= operator.span.start
            &&& operator.span.end <= right.span.start
            &&& expr_ordered(*left)
            &&& expr_ordered(*right)
        },
        Expr::Unary { operator, operand } => operator.span.end <= operand.span.start && expr_ordered(*operand),
        Expr::Paren { lparen, expr, rparen } => {
            &&& lparen.span.end <= expr.span.start
            &&& expr.span.end <= rparen.span.start
            &&& expr_ordered(*expr)
        },
        _ => true,
    }
}

/// The token continues an expression parsed at least as tightly as `m`.
pub open spec fn continues_expr(t: Option<Token>, m: int) -> bool {
    t matches Some(t) && ((infix_prec(t) > 0 && m <= infix_prec(t)) || (postfix_prec(t) > 0 && m <= postfix_prec(t)))
}

/// An expression at level `lv` may take the token as the start of its
/// continuation: an infix operator binds no tighter than it, and a postfix
/// one only follows a call, an access or an atom.
pub open spec fn takes_next(lv: int, t: Option<Token>) -> bool {
    t matches Some(t) ==> ((infix_prec(t) > 0 ==> infix_prec(t) <= lv) && (postfix_prec(t) > 0 ==> lv >= 6))
}

/// The infix operator a token stands for, with its precedence, if it binds
/// at least as tightly as `m`.
fn infix_op(t: Token, m: u16) -> (r: Option<(BinaryOp, u16)>)
    ensures
        r matches Some((op, p)) ==> binary_token(op) == t && p == binary_prec(op) && m <= p && p <= 4,
        r is None ==> !(infix_prec(t) > 0 && m <= infix_prec(t)),
{
    if t == Token::Or && m <= DISJUNCTIVE {
        Some((BinaryOp::Or, DISJUNCTIVE))
    } else if t == Token::And && m <= CONJUNCTIVE {
        Some((BinaryOp::And, CONJUNCTIVE))
    } else if t == Token::Plus && m <= ADDITIVE {
        Some((BinaryOp::Add, ADDITIVE))
    } else if t == Token::Minus && m <= ADDITIVE {
        Some((BinaryOp::Sub, ADDITIVE))
    } else if t == Token::Star && m <= MULTIPLICATIVE {
        Some((BinaryOp::Mult, MULTIPLICATIVE))
    } else if t == Token::Slash && m <= MULTIPLICATIVE {
        Some((BinaryOp::Div, MULTIPLICATIVE))
    } else {
        None
    }
}

/// Whether a token kind is among the given ones.
fn token_in(ts: &[Token], t: Token) -> (r: bool)
    ensures
        r == ts@.contains(t),
{
    let mut i: usize = 0;
    while i < ts.len()
        invariant
            i <= ts.len(),
            forall|j: int| 0 <= j < i ==> ts@[j] != t,
        decreases ts.len() - i,
    {
        if ts[i] == t {
            return true;
        }
        i = i + 1;
    }
    false
}

/// The state of the parser: the text, its tokens, how many of them were
/// consumed, and the errors found so far.
pub struct Parser<'a> {
    source: &'a str,
    chars: Vec<char>,
    offsets: Vec<usize>,
    tokens: Vec<Lexeme>,
    next: usize,
    consumed: usize,
    line_map: LineMap<'a>,
    errors: Vec<ParseError>,
}

impl<'a> Parser<'a> {
    /// The characters of the text.
    pub closed spec fn text(&self) -> Seq<char> {
        self.chars@
    }

    /// The tokens of the text.
    pub closed spec fn toks(&self) -> Seq<Lexeme> {
        self.tokens@
    }

    /// The index of the next token.
    pub closed spec fn at(&self) -> int {
        self.next as int
    }

    /// The errors found so far.
    pub closed spec fn errs(&self) -> Seq<ParseError> {
        self.errors@
    }

    /// The tables agree with the text.
    pub closed spec fn wf(&self) -> bool {
        let cs = self.chars@;
        &&& cs == self.source@
        &&& self.line_map.wf()
        &&& self.line_map.text() == cs
        &&& self.offsets.len() == cs.len() + 1
        &&& forall|k: int| 0 <= k <= cs.len() ==> #[trigger] self.offsets@[k] == byte_offset(cs, k)
        &&& parsable(cs)
        &&& self.tokens@ == lex_from(cs, 0)
        &&& self.next <= self.tokens.len()
        &&& self.consumed == consumed_at(cs, self.tokens@, self.next as int)
        &&& forall|k: int| 0 <= k < self.errors@.len() ==> error_ok(cs, #[trigger] self.errors@[k])
    }

    /// The bytes of the token with index `k`.
    pub open spec fn tok_span(&self, k: int) -> Span {
        lexeme_span(self.text(), self.toks()[k])
    }

    /// The empty span at the end of the text.
    pub open spec fn eof_span(&self) -> Span {
        let n = byte_offset(self.text(), self.text().len() as int) as usize;
        Span { start: n, end: n }
    }

    /// The next token, if any, and its span, or the end of the text.
    pub open spec fn peek_spec(&self) -> (Option<Token>, Span) {
        if self.at() < self.toks().len() {
            (Some(self.toks()[self.at()].token), self.tok_span(self.at()))
        } else {
            (None, self.eof_span())
        }
    }

    /// The upcoming token is an identifier that names a variable: no `{`
    /// follows it.
    pub open spec fn names_variable(&self) -> bool {
        &&& self.at() < self.toks().len()
        &&& self.toks()[self.at()].token == Token::Ident
        &&& !(self.at() + 1 < self.toks().len() && self.toks()[self.at() + 1].token == Token::LBrace)
    }

    /// The upcoming token is `{`, opening an object body whose tokens, with
    /// what follows, are well formed objects at `depth` open bodies.
    pub open spec fn opens_body(&self, depth: int) -> bool {
        &&& depth >= 0
        &&& self.at() < self.toks().len()
        &&& self.toks()[self.at()].token == Token::LBrace
        &&& object_tokens(self.text(), self.toks(), self.at() + 1, depth + 1)
    }

    /// `self` continues `old`: same text and tokens, no token given back,
    /// and the errors of `old` kept in front.
    pub open spec fn continues(&self, old: &Parser) -> bool {
        &&& self.wf()
        &&& self.text() == old.text()
        &&& self.toks() == old.toks()
        &&& old.at() <= self.at()
        &&& old.errs().len() <= self.errs().len()
        &&& forall|k: int| 0 <= k < old.errs().len() ==> #[trigger] self.errs()[k] == old.errs()[k]
    }

    /// No error was found since `old`.
    pub open spec fn clean_since(&self, old: &Parser) -> bool {
        self.errs().len() == old.errs().len()
    }

    /// The leaves of the tokens consumed since `old`.
    pub open spec fn consumed_since(&self, old: &Parser) -> Set<Leaf> {
        token_leaves(self.text(), self.toks(), old.at(), self.at())
    }

    proof fn lemma_tokens(&self)
        requires
            self.wf(),
        ensures
            forall|k: int| 0 <= k < self.toks().len() ==> 0 <= #[trigger] self.toks()[k].start < self.toks()[k].end <= self.text().len(),
            forall|k: int, l: int| 0 <= k < l < self.toks().len() ==> #[trigger] self.toks()[k].end <= #[trigger] self.toks()[l].start,
    {
        lemma_lex_from_bounds(self.chars@, 0);
    }

    /// Tokens lie in the text in order, and each ends after it starts.
    proof fn lemma_tok_order(&self, k: int, l: int)
        requires
            self.wf(),
            0 <= k <= l < self.toks().len(),
        ensures
            self.tok_span(k).start < self.tok_span(k).end,
            k < l ==> self.tok_span(k).end <= self.tok_span(l).start,
    {
        self.lemma_tokens();
        self.lemma_tok_span(k);
        self.lemma_tok_span(l);
        let cs = self.text();
        lemma_byte_offset_mono(cs, self.toks()[k].start as int, self.toks()[k].end as int);
        if k < l {
            lemma_byte_offset_mono(cs, self.toks()[k].end as int, self.toks()[l].start as int);
        }
    }

    /// The span runs from the first token consumed since `old` to the last.
    pub open spec fn spans_consumed(&self, old: &Parser, sp: Span) -> bool {
        &&& old.at() < self.at()
        &&& sp.start == old.tok_span(old.at()).start
        &&& sp.end == self.tok_span(self.at() - 1).end
    }

    /// The span of a token lies on character boundaries.
    proof fn lemma_tok_span(&self, k: int)
        requires
            self.wf(),
            0 <= k < self.toks().len(),
        ensures
            spanned(self.text(), self.tok_span(k)),
            self.tok_span(k).start as int == byte_offset(self.text(), self.toks()[k].start as int),
            self.tok_span(k).end as int == byte_offset(self.text(), self.toks()[k].end as int),
            char_index(self.text(), self.tok_span(k).start as int) == self.toks()[k].start,
            char_index(self.text(), self.tok_span(k).end as int) == self.toks()[k].end,
            span_text(self.text(), self.tok_span(k)) == self.text().subrange(
                self.toks()[k].start as int,
                self.toks()[k].end as int,
            ),
    {
        self.lemma_tokens();
        let cs = self.text();
        let lx = self.toks()[k];
        assert(self.offsets@[lx.start as int] == byte_offset(cs, lx.start as int));
        assert(self.offsets@[lx.end as int] == byte_offset(cs, lx.end as int));
        lemma_char_index(cs, lx.start as int);
        lemma_char_index(cs, lx.end as int);
    }

    /// The end of the text is a character boundary.
    proof fn lemma_eof_span(&self)
        requires
            self.wf(),
        ensures
            spanned(self.text(), self.eof_span()),
            self.eof_span().start as int == byte_offset(self.text(), self.text().len() as int),
    {
        let cs = self.text();
        assert(self.offsets@[cs.len() as int] == byte_offset(cs, cs.len() as int));
        lemma_char_index(cs, cs.len() as int);
    }

    /// A parser at the start of the text.
    pub fn new(source: &'a str) -> (p: Parser<'a>)
        requires
            parsable(source@),
        ensures
            p.wf(),
            p.text() == source@,
            p.at() == 0,
            p.errs().len() == 0,
    {
        let chars = chars_of(source);
        let bytes = source.as_bytes();
        let n = bytes.len();
        proof {
            assert(bytes@ == encode_utf8(source@));
            assert(n == bytes@.len());
        }
        let offsets = byte_offsets(&chars);
        let tokens = lex(&chars);
        Parser { source, chars, offsets, tokens, next: 0, consumed: 0, line_map: LineMap::new(source), errors: Vec::new() }
    }

    /// The next token, without consuming it.
    fn peek(&self) -> (r: (Option<Token>, Span))
        requires
            self.wf(),
        ensures
            r == self.peek_spec(),
            spanned(self.text(), r.1),
    {
        if self.next < self.tokens.len() {
            proof {
                self.lemma_tok_span(self.at());
            }
            (Some(self.tokens[self.next].token), self.token_span(self.next))
        } else {
            proof {
                self.lemma_eof_span();
            }
            (None, self.eof())
        }
    }

    /// The bytes of the token with index `k`.
    fn token_span(&self, k: usize) -> (r: Span)
        requires
            self.wf(),
            k < self.toks().len(),
        ensures
            r == self.tok_span(k as int),
    {
        proof {
            self.lemma_tokens();
        }
        let lx = self.tokens[k];
        Span { start: self.offsets[lx.start], end: self.offsets[lx.end] }
    }

    /// The empty span at the end of the text.
    fn eof(&self) -> (r: Span)
        requires
            self.wf(),
        ensures
            r == self.eof_span(),
    {
        let n = self.offsets[self.chars.len()];
        Span { start: n, end: n }
    }

    /// Consume the next token, if there is one.
    fn consume(&mut self) -> (r: Option<(Token, Span)>)
        requires
            old(self).wf(),
        ensures
            final(self).wf(),
            final(self).text() == old(self).text(),
            final(self).toks() == old(self).toks(),
            final(self).errs() == old(self).errs(),
            old(self).at() < old(self).toks().len() ==> final(self).at() == old(self).at() + 1 && r == Some(
                (old(self).toks()[old(self).at()].token, old(self).tok_span(old(self).at())),
            ),
            old(self).at() >= old(self).toks().len() ==> final(self).at() == old(self).at() && r is None,
            r matches Some((_, sp)) ==> spanned(final(self).text(), sp),
    {
        if self.next < self.tokens.len() {
            let tok = self.tokens[self.next].token;
            let span = self.token_span(self.next);
            proof {
                self.lemma_tok_span(self.at());
            }
            self.next = self.next + 1;
            self.consumed = span.end;
            Some((tok, span))
        } else {
            None
        }
    }

    /// A node at the given span.
    fn make_node<T>(&self, span: Span, data: T) -> (n: Node<T>)
        requires
            self.wf(),
            spanned(self.text(), span),
        ensures
            n.span == span,
            n.data == data,
            located(self.text(), n),
    {
        let ghost cs = self.text();
        proof {
            let i = char_index(cs, span.start as int);
            let j = char_index(cs, span.end as int);
            assert(0 <= i <= cs.len() && byte_offset(cs, i) == span.start);
            assert(0 <= j <= cs.len() && byte_offset(cs, j) == span.end);
        }
        let start = self.line_map.offset_to_pos(span.start);
        let end = self.line_map.offset_to_pos(span.end);
        Node { span, pos: PosRange { start, end }, data }
    }

    /// An error at the given span.
    fn make_error(&self, span: Span, message: String) -> (e: ParseError)
        requires
            self.wf(),
            spanned(self.text(), span),
        ensures
            e.span == span,
            e.message == message,
            e.pos == (PosRange { start: pos_at(self.text(), span.start as int), end: pos_at(self.text(), span.end as int) }),
    {
        let n = self.make_node(span, ());
        ParseError { span, pos: n.pos, message }
    }

    /// The error for a token other than the expected ones.
    pub fn expected_but_got(&self, span: Span, expected: &[Token], got: Token) -> (e: ParseError)
        requires
            self.wf(),
            spanned(self.text(), span),
        ensures
            e.span == span,
            e.message@ == expected_but_got_message(expected@, got),
            error_ok(self.text(), e),
    {
        let mut m = String::new();
        push_str(&mut m, "Expected one of [");
        push_token_list(&mut m, expected);
        push_str(&mut m, "], but got ");
        push_token_name(&mut m, got);
        self.make_error(span, m)
    }

    /// The error for a token other than a described construct.
    pub fn expected_str_but_got(&self, span: Span, expected: &str, got: Token) -> (e: ParseError)
        requires
            self.wf(),
            spanned(self.text(), span),
        ensures
            e.span == span,
            e.message@ == expected_str_but_got_message(expected@, got),
            error_ok(self.text(), e),
    {
        let mut m = String::new();
        push_str(&mut m, "Expected ");
        push_str(&mut m, expected);
        push_str(&mut m, ", but got ");
        push_token_name(&mut m, got);
        self.make_error(span, m)
    }

    /// The error for the end of the text where tokens were expected.
    pub fn unexpected_eof(&self, expected: &[Token]) -> (e: ParseError)
        requires
            self.wf(),
        ensures
            e.span == self.eof_span(),
            e.message@ == unexpected_eof_message(expected@),
            error_ok(self.text(), e),
    {
        let mut m = String::new();
        push_str(&mut m, "Expected one of [");
        push_token_list(&mut m, expected);
        push_str(&mut m, "], but reached end of file");
        proof {
            self.lemma_eof_span();
        }
        self.make_error(self.eof(), m)
    }

    /// The error for the end of the text where a construct was expected.
    pub fn unexpected_str_eof(&self, span: Span, expected: &str) -> (e: ParseError)
        requires
            self.wf(),
            spanned(self.text(), span),
        ensures
            e.span == span,
            e.message@ == unexpected_str_eof_message(expected@),
            error_ok(self.text(), e),
    {
        let mut m = String::new();
        push_str(&mut m, "Expected one of ");
        push_str(&mut m, expected);
        push_str(&mut m, ", but reached end of file");
        self.make_error(span, m)
    }

    /// Consume the next token and expect it to be of the given kind.
    fn parse_expect_token(&mut self, expected: Token) -> (r: Parse<()>)
        requires
            old(self).wf(),
        ensures
            final(self).continues(old(self)),
            final(self).errs() == old(self).errs(),
            final(self).at() == (if old(self).at() < old(self).toks().len() {
                old(self).at() + 1
            } else {
                old(self).at()
            }),
            r is Ok <==> old(self).peek_spec().0 == Some(expected),
            r matches Ok(n) ==> n.span == old(self).tok_span(old(self).at()) && located(old(self).text(), n),
            r matches Err(e) ==> e.span == old(self).peek_spec().1 && e.message@ == (match old(self).peek_spec().0 {
                Some(got) => expected_but_got_message(seq![expected], got),
                None => unexpected_eof_message(seq![expected]),
            }),
            result_spanned(old(self).text(), r),
    {
        let ghost old_self = *self;
        let ex = [expected];
        proof {
            assert(ex@ == seq![expected]);
        }
        match self.consume() {
            Some((token, span)) => {
                if token == expected {
                    Ok(self.make_node(span, ()))
                } else {
                    Err(self.expected_but_got(span, &ex, token))
                }
            },
            None => {
                proof {
                    self.lemma_eof_span();
                }
                Err(self.unexpected_eof(&ex))
            },
        }
    }

    /// Recover from a parse error by putting a replacement node where the
    /// error was.
    fn recover_replace<T>(&mut self, result: Parse<T>, replacement: T) -> (n: Node<T>)
        requires
            old(self).wf(),
            result_spanned(old(self).text(), result),
        ensures
            final(self).continues(old(self)),
            final(self).at() == old(self).at(),
            spanned(final(self).text(), n.span),
            match result {
                Ok(node) => n == node && final(self).errs() == old(self).errs(),
                Err(e) => final(self).errs() == old(self).errs().push(e) && n.span == e.span && n.data
                    == replacement && located(final(self).text(), n),
            },
    {
        match result {
            Ok(node) => node,
            Err(error) => {
                let span = error.span;
                self.errors.push(error);
                self.make_node(span, replacement)
            },
        }
    }

    /// Recover from a parse error by skipping until one of the given sync
    /// tokens, or until the next line if `sync_next_line` is set.
    fn recover_skip<T>(&mut self, result: Parse<T>, sync_next_line: bool, sync_tokens: &[Token]) -> (r: Option<Node<T>>)
        requires
            old(self).wf(),
            result_spanned(old(self).text(), result),
        ensures
            final(self).continues(old(self)),
            match result {
                Ok(node) => r == Some(node) && final(self).errs() == old(self).errs() && final(self).at() == old(self).at(),
                Err(e) => r is None && final(self).errs() == old(self).errs().push(e) && final(self).skipped_from(
                    old(self).at(),
                    sync_next_line,
                    sync_tokens@,
                ),
            },
    {
        match result {
            Ok(node) => Some(node),
            Err(error) => {
                self.errors.push(error);
                self.skip_until_next_line_or_token(sync_next_line, sync_tokens);
                None
            },
        }
    }

    /// Recover from a parse error by skipping ahead to the next line.
    fn recover_next_line<T>(&mut self, result: Parse<T>) -> (r: Option<Node<T>>)
        requires
            old(self).wf(),
            result_spanned(old(self).text(), result),
        ensures
            final(self).continues(old(self)),
            match result {
                Ok(node) => r == Some(node) && final(self).errs() == old(self).errs() && final(self).at() == old(self).at(),
                Err(e) => r is None && final(self).errs() == old(self).errs().push(e) && final(self).skipped_from(
                    old(self).at(),
                    true,
                    seq![],
                ),
            },
    {
        let none: [Token; 0] = [];
        proof {
            assert(none@ == Seq::<Token>::empty());
        }
        self.recover_skip(result, true, &none)
    }

    /// The line of the last consumed token, where skipping to the next line starts.
    pub open spec fn line_of(&self, b: int) -> int {
        pos_at(self.text(), b).line as int
    }

    /// Tokens were skipped from index `from` on up to one that stops the
    /// skipping: the end, a sync token, or, if `sync_line` is set, a token on
    /// a later line than the last token consumed before.
    pub open spec fn skipped_from(&self, from: int, sync_line: bool, sync_tokens: Seq<Token>) -> bool {
        let start_line = self.line_of(consumed_at(self.text(), self.toks(), from));
        &&& from <= self.at()
        &&& forall|k: int| from <= k < self.at() ==> !#[trigger] self.stops_skip(k, start_line, sync_line, sync_tokens)
        &&& self.at() < self.toks().len() ==> self.stops_skip(self.at(), start_line, sync_line, sync_tokens)
    }

    /// Skipping to the next line from `from` on stopped where
    /// `line_skip_end` says.
    proof fn lemma_skip_end(&self, from: int, k: int)
        requires
            self.wf(),
            0 <= from <= k <= self.at(),
            self.skipped_from(from, true, seq![]),
        ensures
            line_skip_end(self.text(), self.toks(), from, k) == self.at(),
        decreases self.at() - k,
    {
        let start_line = self.line_of(consumed_at(self.text(), self.toks(), from));
        if k < self.at() {
            assert(!self.stops_skip(k, start_line, true, seq![]));
            self.lemma_skip_end(from, k + 1);
        } else if k < self.toks().len() {
            assert(self.stops_skip(k, start_line, true, seq![]));
            assert(!seq![].contains(self.toks()[k].token));
        }
    }

    /// The token with index `k` stops skipping.
    pub open spec fn stops_skip(&self, k: int, start_line: int, sync_line: bool, sync_tokens: Seq<Token>) -> bool {
        (sync_line && self.line_of(self.tok_span(k).start as int) > start_line) || sync_tokens.contains(
            self.toks()[k].token,
        )
    }

    /// Eat tokens until we reach the next line or one of the specified synchronisation tokens. The
    /// parser itself isn't whitespace sensitive under normal conditions, but when recovering from
    /// an error, whitespace can be a good heuristic.
    fn skip_until_next_line_or_token(&mut self, sync_line: bool, sync_tokens: &[Token])
        requires
            old(self).wf(),
        ensures
            final(self).continues(old(self)),
            final(self).errs() == old(self).errs(),
            final(self).skipped_from(old(self).at(), sync_line, sync_tokens@),
    {
        proof {
            let cs = self.text();
            if self.at() > 0 {
                self.lemma_tokens();
                self.lemma_tok_span(self.at() - 1);
            } else {
                lemma_char_index(cs, 0);
                crate::text::lemma_byte_offset_zero(cs);
            }
        }
        let start_line = self.line_map.offset_to_pos(self.consumed).line;
        let ghost from = self.at();
        proof {
            let cs = self.text();
            let i = char_index(cs, self.consumed as int);
            assert(0 <= i <= cs.len() && byte_offset(cs, i) == self.consumed);
        }
        loop
            invariant
                self.wf(),
                self.text() == old(self).text(),
                self.toks() == old(self).toks(),
                self.errs() == old(self).errs(),
                from == old(self).at(),
                from <= self.at(),
                start_line as int == self.line_of(consumed_at(self.text(), self.toks(), from)),
                forall|k: int| from <= k < self.at() ==> !#[trigger] self.stops_skip(k, start_line as int, sync_line, sync_tokens@),
            ensures
                self.wf(),
                self.text() == old(self).text(),
                self.toks() == old(self).toks(),
                self.errs() == old(self).errs(),
                from <= self.at(),
                forall|k: int| from <= k < self.at() ==> !#[trigger] self.stops_skip(k, start_line as int, sync_line, sync_tokens@),
                self.at() < self.toks().len() ==> self.stops_skip(self.at(), start_line as int, sync_line, sync_tokens@),
            decreases self.toks().len() - self.at(),
        {
            let (token, span) = self.peek();
            match token {
                None => break,
                Some(token) => {
                    proof {
                        let cs = self.text();
                        let i = char_index(cs, span.start as int);
                        assert(0 <= i <= cs.len() && byte_offset(cs, i) == span.start);
                    }
                    let current_line = self.line_map.offset_to_pos(span.start).line;
                    if (sync_line && current_line > start_line) || token_in(sync_tokens, token) {
                        break;
                    } else {
                        let ghost k = self.at();
                        let ghost before = *self;
                        assert(!self.stops_skip(k, start_line as int, sync_line, sync_tokens@));
                        let _ = self.consume();
                        assert forall|j: int| from <= j < self.at() implies !#[trigger] self.stops_skip(
                            j,
                            start_line as int,
                            sync_line,
                            sync_tokens@,
                        ) by {
                            assert(!before.stops_skip(j, start_line as int, sync_line, sync_tokens@));
                        }
                    }
                },
            }
        }
    }

    /// Eat tokens until we reach the next line.
    fn skip_until_next_line(&mut self)
        requires
            old(self).wf(),
        ensures
            final(self).continues(old(self)),
            final(self).errs() == old(self).errs(),
            final(self).skipped_from(old(self).at(), true, seq![]),
    {
        let none: [Token; 0] = [];
        proof {
            assert(none@ == Seq::<Token>::empty());
        }
        self.skip_until_next_line_or_token(true, &none)
    }

    /// Parse an identifier.
    fn parse_ident(&mut self) -> (r: Parse<String>)
        requires
            old(self).wf(),
        ensures
            final(self).continues(old(self)),
            final(self).errs() == old(self).errs(),
            final(self).at() == (if old(self).at() < old(self).toks().len() {
                old(self).at() + 1
            } else {
                old(self).at()
            }),
            r is Ok <==> old(self).peek_spec().0 == Some(Token::Ident),
            r matches Ok(n) ==> n.span == old(self).tok_span(old(self).at()) && name_ok(old(self).text(), n),
            r matches Err(e) ==> e.span == old(self).peek_spec().1 && e.message@ == (match old(self).peek_spec().0 {
                Some(got) => expected_but_got_message(seq![Token::Ident], got),
                None => unexpected_eof_message(seq![Token::Ident]),
            }),
            result_spanned(old(self).text(), r),
    {
        let k = self.next;
        let node = match self.parse_expect_token(Token::Ident) {
            Ok(n) => n,
            Err(e) => return Err(e),
        };
        proof {
            self.lemma_tokens();
            self.lemma_tok_span(k as int);
        }
        let lx = self.tokens[k];
        let name = string_of(&self.chars, lx.start, lx.end);
        Ok(node.replace(name))
    }

    /// The characters of the token with index `k`.
    pub open spec fn lit_text(&self, k: int) -> Seq<char> {
        self.text().subrange(self.toks()[k].start as int, self.toks()[k].end as int)
    }

    /// The characters of the token with index `k`, without underscores if
    /// they are to be ignored.
    fn token_text(&self, k: usize, ignore_underscores: bool) -> (r: Vec<char>)
        requires
            self.wf(),
            k < self.toks().len(),
        ensures
            r@ == (if ignore_underscores { drop_underscores(self.lit_text(k as int)) } else { self.lit_text(k as int) }),
    {
        proof {
            self.lemma_tokens();
        }
        let lx = self.tokens[k];
        chars_between(&self.chars, lx.start, lx.end, ignore_underscores)
    }

    /// Consume a literal token of the given kind, giving its node and its
    /// characters, without underscores if they are to be ignored.
    fn parse_native(&mut self, token: Token, ignore_underscores: bool) -> (r: Result<(Node<()>, Vec<char>), ParseError>)
        requires
            old(self).wf(),
        ensures
            final(self).continues(old(self)),
            final(self).errs() == old(self).errs(),
            final(self).at() == (if old(self).at() < old(self).toks().len() {
                old(self).at() + 1
            } else {
                old(self).at()
            }),
            r is Ok <==> old(self).peek_spec().0 == Some(token),
            r matches Ok((n, t)) ==> n.span == old(self).tok_span(old(self).at()) && located(old(self).text(), n)
                && spanned(old(self).text(), n.span) && t@ == (if ignore_underscores {
                drop_underscores(old(self).lit_text(old(self).at()))
            } else {
                old(self).lit_text(old(self).at())
            }) && old(self).lit_text(old(self).at()) == span_text(old(self).text(), n.span),
            r matches Err(e) ==> e.span == old(self).peek_spec().1 && spanned(old(self).text(), e.span) && e.message@
                == (match old(self).peek_spec().0 {
                Some(got) => expected_but_got_message(seq![token], got),
                None => unexpected_eof_message(seq![token]),
            }),
    {
        let k = self.next;
        let node = match self.parse_expect_token(token) {
            Ok(n) => n,
            Err(e) => return Err(e),
        };
        proof {
            self.lemma_tok_span(k as int);
        }
        let text = self.token_text(k, ignore_underscores);
        Ok((node, text))
    }

    /// The leaves of the token just consumed, when the parser moved one token
    /// on from `old`.
    proof fn lemma_one_leaf(&self, old: &Parser)
        requires
            self.toks() == old.toks(),
            self.text() == old.text(),
            self.at() == old.at() + 1,
            0 <= old.at() < old.toks().len(),
        ensures
            self.consumed_since(old) == (if old.toks()[old.at()].token == Token::Comma {
                Set::<Leaf>::empty()
            } else {
                set![(old.toks()[old.at()].token, old.tok_span(old.at()))]
            }),
    {
        lemma_token_leaves_one(self.text(), self.toks(), old.at());
    }

    /// Parse an integer literal.
    fn parse_int_expr(&mut self) -> (r: Parse<Expr>)
        requires
            old(self).wf(),
            old(self).peek_spec().0 == Some(Token::LitInt),
        ensures
            r matches Ok(n) ==> expr_ordered(n),
            r matches Ok(n) ==> n.span == old(self).tok_span(old(self).at()),
            final(self).continues(old(self)),
            final(self).errs() == old(self).errs(),
            final(self).at() == old(self).at() + 1,
            result_spanned(final(self).text(), r),
            r is Ok <==> parse_i64_spec(drop_underscores(old(self).lit_text(old(self).at()))) is Ok,
            r matches Ok(n) ==> expr_ok(final(self).text(), n) && expr_leaves(n) == final(self).consumed_since(
                old(self),
            ) && level(n.data) == 8,
            r matches Err(e) ==> e.span == old(self).tok_span(old(self).at()) && (parse_i64_spec(
                drop_underscores(old(self).lit_text(old(self).at())),
            ) matches Err(kind) ==> e.message@ == int_error_message(kind)),
    {
        let ghost old_self = *self;
        let (node, text) = match self.parse_native(Token::LitInt, true) {
            Ok(x) => x,
            Err(e) => return Err(e),
        };
        proof {
            self.lemma_one_leaf(&old_self);
        }
        match parse_i64(&text) {
            Ok(v) => Ok(node.replace(Expr::Int(v))),
            Err(kind) => Err(self.make_error(node.span, int_error_text(kind))),
        }
    }

    /// Parse a ratio literal.
    fn parse_ratio_expr(&mut self) -> (r: Parse<Expr>)
        requires
            old(self).wf(),
            old(self).peek_spec().0 == Some(Token::LitRatio),
        ensures
            r matches Ok(n) ==> expr_ordered(n),
            r matches Ok(n) ==> n.span == old(self).tok_span(old(self).at()),
            final(self).continues(old(self)),
            final(self).errs() == old(self).errs(),
            final(self).at() == old(self).at() + 1,
            result_spanned(final(self).text(), r),
            r is Ok <==> fraction_parts_spec(drop_underscores(old(self).lit_text(old(self).at()))) is Ok,
            r matches Ok(n) ==> expr_ok(final(self).text(), n) && expr_leaves(n) == final(self).consumed_since(
                old(self),
            ) && level(n.data) == 8,
            r matches Err(e) ==> e.span == old(self).tok_span(old(self).at()) && (fraction_parts_spec(
                drop_underscores(old(self).lit_text(old(self).at())),
            ) matches Err(kind) ==> e.message@ == rational_error_message(kind)),
    {
        let ghost old_self = *self;
        let k = self.next;
        let (node, text) = match self.parse_native(Token::LitRatio, true) {
            Ok(x) => x,
            Err(e) => return Err(e),
        };
        proof {
            self.lemma_one_leaf(&old_self);
            assert(self.toks()[k as int].token == Token::LitRatio);
        }
        let s = string_from_chars(&text);
        match Rational::from_str(s.as_str()) {
            Ok(v) => Ok(node.replace(Expr::Ratio(v))),
            Err(e) => Err(self.make_error(node.span, e.to_string())),
        }
    }

    /// Parse a floating point literal, keeping its text.
    fn parse_float_expr(&mut self) -> (r: Parse<Expr>)
        requires
            old(self).wf(),
            old(self).peek_spec().0 == Some(Token::LitFloat),
        ensures
            r matches Ok(n) ==> expr_ordered(n),
            r matches Ok(n) ==> n.span == old(self).tok_span(old(self).at()),
            final(self).continues(old(self)),
            final(self).errs() == old(self).errs(),
            final(self).at() == old(self).at() + 1,
            result_spanned(final(self).text(), r),
            r matches Ok(n) && expr_ok(final(self).text(), n) && expr_leaves(n) == final(self).consumed_since(
                old(self),
            ) && level(n.data) == 8,
    {
        let ghost old_self = *self;
        let (node, text) = match self.parse_native(Token::LitFloat, true) {
            Ok(x) => x,
            Err(e) => return Err(e),
        };
        proof {
            self.lemma_one_leaf(&old_self);
        }
        Ok(node.replace(Expr::Float(FloatLit { text: string_from_chars(&text) })))
    }

    /// Parse a boolean literal.
    fn parse_bool_expr(&mut self) -> (r: Parse<Expr>)
        requires
            old(self).wf(),
            old(self).peek_spec().0 == Some(Token::LitBool),
        ensures
            r matches Ok(n) ==> expr_ordered(n),
            r matches Ok(n) ==> n.span == old(self).tok_span(old(self).at()),
            final(self).continues(old(self)),
            final(self).errs() == old(self).errs(),
            final(self).at() == old(self).at() + 1,
            result_spanned(final(self).text(), r),
            r is Ok <==> bool_value(old(self).lit_text(old(self).at())) is Some,
            r matches Ok(n) ==> expr_ok(final(self).text(), n) && expr_leaves(n) == final(self).consumed_since(
                old(self),
            ) && level(n.data) == 8,
            r matches Err(e) ==> e.span == old(self).tok_span(old(self).at()) && e.message@ == bool_error_message(),
    {
        let ghost old_self = *self;
        let (node, text) = match self.parse_native(Token::LitBool, false) {
            Ok(x) => x,
            Err(e) => return Err(e),
        };
        proof {
            self.lemma_one_leaf(&old_self);
        }
        if same_chars(&text, "true") {
            Ok(node.replace(Expr::Bool(true)))
        } else if same_chars(&text, "false") {
            Ok(node.replace(Expr::Bool(false)))
        } else {
            let mut m = String::new();
            push_str(&mut m, "provided string was not `true` or `false`");
            Err(self.make_error(node.span, m))
        }
    }

    /// Parse a string literal into the string it denotes.
    #[verifier::loop_isolation(false)]
    fn parse_string(&mut self) -> (r: Parse<String>)
        requires
            old(self).wf(),
            old(self).peek_spec().0 == Some(Token::LitString),
        ensures
            final(self).continues(old(self)),
            final(self).errs() == old(self).errs(),
            final(self).at() == old(self).at() + 1,
            result_spanned(final(self).text(), r),
            r is Ok <==> unescape(string_inside(old(self).lit_text(old(self).at()))) is Ok,
            r matches Ok(n) ==> n.span == old(self).tok_span(old(self).at()) && located(final(self).text(), n)
                && unescape(string_inside(span_text(final(self).text(), n.span))) == Ok::<Seq<char>, (int, bool)>(
                n.data@,
            ),
            r matches Err(e) ==> (unescape(string_inside(old(self).lit_text(old(self).at()))) matches Err((k, cut))
                && e.span == string_error_span(
                old(self).text(),
                old(self).toks()[old(self).at()].start as int + 1 + k,
                cut,
            ) && e.message@ == string_error_message(cut)),
    {
        let k = self.next;
        let node = match self.parse_expect_token(Token::LitString) {
            Ok(n) => n,
            Err(e) => return Err(e),
        };
        proof {
            self.lemma_tokens();
            self.lemma_tok_span(k as int);
            lemma_lex_from_bounds(self.text(), 0);
            assert(self.toks()[k as int].token == Token::LitString);
        }
        let lx = self.tokens[k];
        let ghost cs = self.text();
        let ghost inner = cs.subrange(lx.start + 1, lx.end - 1);
        proof {
            assert(string_inside(self.lit_text(k as int)) == inner);
        }
        let first = lx.start + 1;
        let last = lx.end - 1;
        let mut data = String::new();
        let mut i = first;
        while i < last
            invariant
                self.wf(),
                cs == self.text(),
                first == lx.start + 1,
                last == lx.end - 1,
                first <= i <= last,
                lx.end <= cs.len(),
                inner == cs.subrange(first as int, last as int),
                unescape(inner) == lift_unescaped(data@, i - first, unescape(cs.subrange(i as int, last as int))),
            decreases last + 1 - i,
        {
            let ch = self.chars[i];
            proof {
                let rest = cs.subrange(i as int, last as int);
                assert(rest[0] == ch);
                assert(rest.skip(1) == cs.subrange(i + 1, last as int));
                if i + 1 < last {
                    assert(rest.skip(2) == cs.subrange(i + 2, last as int));
                    assert(rest[1] == cs[i + 1]);
                }
            }
            if ch == '\\' {
                if i + 1 >= last {
                    proof {
                        assert(cs.subrange(i as int, last as int).len() == 1);
                        assert(self.offsets@[i as int] == byte_offset(cs, i as int));
                        assert(self.offsets@[i + 1] == byte_offset(cs, i + 1));
                        lemma_char_index(cs, i as int);
                        lemma_char_index(cs, i + 1);
                    }
                    let span = Span { start: self.offsets[i], end: self.offsets[i + 1] };
                    let mut m = String::new();
                    push_str(&mut m, "unterminated escape sequence");
                    return Err(self.make_error(span, m));
                }
                let esc = self.chars[i + 1];
                match escape_char(esc) {
                    Some(c) => {
                        proof {
                            assert(data@.push(c) + unescape(cs.subrange(i + 2, last as int))->Ok_0 == data@ + (seq![c]
                                + unescape(cs.subrange(i + 2, last as int))->Ok_0));
                        }
                        push_char(&mut data, c);
                        i = i + 2;
                    },
                    None => {
                        proof {
                            assert(self.offsets@[i as int] == byte_offset(cs, i as int));
                            assert(self.offsets@[i + 2] == byte_offset(cs, i + 2));
                            lemma_char_index(cs, i as int);
                            lemma_char_index(cs, i + 2);
                        }
                        let span = Span { start: self.offsets[i], end: self.offsets[i + 2] };
                        let mut m = String::new();
                        push_str(&mut m, "unknown escape sequence");
                        return Err(self.make_error(span, m));
                    },
                }
            } else {
                proof {
                    assert(data@.push(ch) + unescape(cs.subrange(i + 1, last as int))->Ok_0 == data@ + (seq![ch]
                        + unescape(cs.subrange(i + 1, last as int))->Ok_0));
                }
                push_char(&mut data, ch);
                i = i + 1;
            }
        }
        proof {
            assert(cs.subrange(last as int, last as int) == Seq::<char>::empty());
            assert(data@ + Seq::<char>::empty() == data@);
            assert(span_text(cs, node.span) == self.lit_text(k as int));
        }
        Ok(node.replace(data))
    }

    /// Parse a string literal expression.
    fn parse_string_expr(&mut self) -> (r: Parse<Expr>)
        requires
            old(self).wf(),
            old(self).peek_spec().0 == Some(Token::LitString),
        ensures
            r matches Ok(n) ==> expr_ordered(n),
            r matches Ok(n) ==> n.span == old(self).tok_span(old(self).at()),
            final(self).continues(old(self)),
            final(self).errs() == old(self).errs(),
            final(self).at() == old(self).at() + 1,
            result_spanned(final(self).text(), r),
            r is Ok <==> unescape(string_inside(old(self).lit_text(old(self).at()))) is Ok,
            r matches Ok(n) ==> expr_ok(final(self).text(), n) && expr_leaves(n) == final(self).consumed_since(
                old(self),
            ) && level(n.data) == 8,
            r matches Err(e) ==> (unescape(string_inside(old(self).lit_text(old(self).at()))) matches Err((k, cut))
                && e.span == string_error_span(
                old(self).text(),
                old(self).toks()[old(self).at()].start as int + 1 + k,
                cut,
            ) && e.message@ == string_error_message(cut)),
    {
        let ghost old_self = *self;
        let string = match self.parse_string() {
            Ok(n) => n,
            Err(e) => return Err(e),
        };
        proof {
            self.lemma_one_leaf(&old_self);
            old_self.lemma_tok_span(old_self.at());
        }
        let data = string.data;
        Ok(Node { span: string.span, pos: string.pos, data: Expr::String(data) })
    }

    /// What every expression parser promises: the parse continues `old`, an
    /// expression consumed at least one token and binds at least as tightly
    /// as `m`, and when no error was found on the way it is well formed and
    /// accounts for exactly the tokens consumed.
    pub open spec fn parsed_expr(&self, old: &Parser, r: Parse<Expr>, m: int) -> bool {
        &&& self.continues(old)
        &&& result_spanned(self.text(), r)
        &&& r is Ok ==> old.at() < self.at()
        &&& r matches Ok(n) ==> level(n.data) >= m
        &&& (self.clean_since(old) && r is Ok) ==> expr_ok(self.text(), r->Ok_0) && expr_leaves(r->Ok_0)
            == self.consumed_since(old)
    }

    /// Consumed leaves add up over three states.
    proof fn lemma_consumed_chain(&self, mid: &Parser, old: &Parser)
        requires
            self.text() == mid.text(),
            mid.text() == old.text(),
            self.toks() == mid.toks(),
            mid.toks() == old.toks(),
            old.at() <= mid.at() <= self.at(),
        ensures
            old.consumed_since_to(mid) + self.consumed_since(mid) == self.consumed_since(old),
    {
        lemma_token_leaves_split(self.text(), self.toks(), old.at(), mid.at(), self.at());
    }

    /// The leaves consumed from `from` up to `to`, both earlier states of
    /// the same text.
    pub open spec fn consumed_since_from(&self, from: &Parser, to: &Parser) -> Set<Leaf> {
        token_leaves(self.text(), self.toks(), from.at(), to.at())
    }

    /// The leaves consumed from `self` up to `later`.
    pub open spec fn consumed_since_to(&self, later: &Parser) -> Set<Leaf> {
        token_leaves(self.text(), self.toks(), self.at(), later.at())
    }

    /// Parse an expression.
    pub fn parse_expr(&mut self) -> (r: Parse<Expr>)
        requires
            old(self).wf(),
        ensures
            final(self).parsed_expr(old(self), r, 0),
            r is Ok ==> !continues_expr(final(self).peek_spec().0, 0),
            forall|j: int|
                #![trigger expr_chain(old(self).text(), old(self).toks(), old(self).at(), j)]
                expr_chain(old(self).text(), old(self).toks(), old(self).at(), j) && ends_chain(old(self).toks(), j, 0)
                    ==> r is Ok && final(self).at() == j && final(self).clean_since(old(self)),
            forall|j: int|
                #![trigger expr_chain(old(self).text(), old(self).toks(), old(self).at(), j)]
                expr_chain(old(self).text(), old(self).toks(), old(self).at(), j) && ends_chain(old(self).toks(), j, 0)
                    ==> (r matches Ok(n) && expr_ordered(n) && final(self).spans_consumed(old(self), n.span)),
        decreases old(self).toks().len() - old(self).at(), 10int,
    {
        self.parse_prec_expr(Prec(LOWEST))
    }

    /// Parse an expression whose operators bind at least as tightly as `min_prec`.
    fn parse_prec_expr(&mut self, min_prec: Prec) -> (r: Parse<Expr>)
        requires
            old(self).wf(),
            min_prec.value() <= 5,
        ensures
            final(self).parsed_expr(old(self), r, min_prec.value()),
            r is Ok ==> !continues_expr(final(self).peek_spec().0, min_prec.value()),
            forall|j: int|
                #![trigger expr_chain(old(self).text(), old(self).toks(), old(self).at(), j)]
                expr_chain(old(self).text(), old(self).toks(), old(self).at(), j) && ends_chain(
                    old(self).toks(),
                    j,
                    min_prec.value(),
                ) ==> r is Ok && chain_rest(final(self).text(), final(self).toks(), final(self).at(), j)
                    && final(self).clean_since(old(self)) && (r matches Ok(n) && expr_ordered(n)
                    && final(self).spans_consumed(old(self), n.span)),
            forall|b: int|
                #![trigger operand(old(self).text(), old(self).toks(), old(self).at(), b)]
                operand(old(self).text(), old(self).toks(), old(self).at(), b) && ends_chain(
                    old(self).toks(),
                    b,
                    min_prec.value(),
                ) ==> r is Ok && final(self).at() == b && final(self).clean_since(old(self)) && (r matches Ok(n)
                    && expr_ordered(n) && final(self).spans_consumed(old(self), n.span)),
        decreases old(self).toks().len() - old(self).at(), 9int,
    {
        let ghost start = *self;
        let m = min_prec.0;
        // Prefix rules
        proof {
            assert forall|b: int| #[trigger]
                operand(start.text(), start.toks(), start.at(), b) && ends_chain(start.toks(), b, min_prec.value())
                implies ends_chain(start.toks(), b, 5) by {}
            assert forall|j: int| #[trigger]
                expr_chain(start.text(), start.toks(), start.at(), j) && ends_chain(
                    start.toks(),
                    j,
                    min_prec.value(),
                ) implies operand(start.text(), start.toks(), start.at(), operand_end(start.text(), start.toks(), start.at()))
                && ends_chain(start.toks(), operand_end(start.text(), start.toks(), start.at()), 5)
                && chain_rest(start.text(), start.toks(), operand_end(start.text(), start.toks(), start.at()), j) by {}
        }
        let mut left = match self.parse_prefix_expr() {
            Ok(n) => n,
            Err(e) => return Err(e),
        };
        proof {
            assert forall|j: int| #[trigger]
                expr_chain(start.text(), start.toks(), start.at(), j) && ends_chain(
                    start.toks(),
                    j,
                    min_prec.value(),
                ) implies chain_rest(self.text(), self.toks(), self.at(), j) && self.clean_since(&start) by {
                let k = operand_end(start.text(), start.toks(), start.at());
                assert(operand(start.text(), start.toks(), start.at(), k));
                assert(ends_chain(start.toks(), k, 5));
                assert(self.at() == k);
            }
            assert forall|b: int| #[trigger]
                operand(start.text(), start.toks(), start.at(), b) && ends_chain(start.toks(), b, min_prec.value())
                implies self.at() == b && self.clean_since(&start) && expr_ordered(left) && self.spans_consumed(
                &start,
                left.span,
            ) by {
                assert(ends_chain(start.toks(), b, 5));
            }
        }
        // Infix/postfix rules
        loop
            invariant_except_break
                self.parsed_expr(&start, Ok(left), min_prec.value()),
                takes_next(level(left.data), self.peek_spec().0),
                start == *old(self),
                m == min_prec.0,
                min_prec.value() <= 5,
                forall|j: int|
                    #![trigger expr_chain(start.text(), start.toks(), start.at(), j)]
                    expr_chain(start.text(), start.toks(), start.at(), j) && ends_chain(
                        start.toks(),
                        j,
                        min_prec.value(),
                    ) ==> chain_rest(self.text(), self.toks(), self.at(), j) && self.clean_since(&start)
                        && expr_ordered(left) && self.spans_consumed(&start, left.span),
                forall|b: int|
                    #![trigger operand(start.text(), start.toks(), start.at(), b)]
                    operand(start.text(), start.toks(), start.at(), b) && ends_chain(
                        start.toks(),
                        b,
                        min_prec.value(),
                    ) ==> self.at() == b && self.clean_since(&start) && expr_ordered(left) && self.spans_consumed(
                        &start,
                        left.span,
                    ),
            ensures
                self.parsed_expr(&start, Ok(left), min_prec.value()),
                !continues_expr(self.peek_spec().0, min_prec.value()),
                start == *old(self),
                forall|j: int|
                    #![trigger expr_chain(start.text(), start.toks(), start.at(), j)]
                    expr_chain(start.text(), start.toks(), start.at(), j) && ends_chain(
                        start.toks(),
                        j,
                        min_prec.value(),
                    ) ==> chain_rest(self.text(), self.toks(), self.at(), j) && self.clean_since(&start)
                        && expr_ordered(left) && self.spans_consumed(&start, left.span),
                forall|b: int|
                    #![trigger operand(start.text(), start.toks(), start.at(), b)]
                    operand(start.text(), start.toks(), start.at(), b) && ends_chain(
                        start.toks(),
                        b,
                        min_prec.value(),
                    ) ==> self.at() == b && self.clean_since(&start) && expr_ordered(left) && self.spans_consumed(
                        &start,
                        left.span,
                    ),
            decreases self.toks().len() - self.at(),
        {
            let ghost before = *self;
            proof {
                if start.at() < self.at() && self.at() < self.toks().len() {
                    self.lemma_tok_order(self.at() - 1, self.at());
                }
            }
            // Our expression could already be complete here, so EOF is a valid possibility
            let (token, span) = self.peek();
            let token = match token {
                None => break,
                Some(t) => t,
            };
            let next = match infix_op(token, m) {
                // Infix operations
                Some((op, prec)) => {
                    let operator = self.make_node(span, op);
                    self.parse_binary_operand(left, operator, Prec(prec).succ())
                },
                // Postfix operations
                None => if token == Token::Dot && m <= DOT {
                    self.parse_accessor(left)
                } else if token == Token::LParen && m <= CALL {
                    self.parse_call(left)
                } else {
                    // any unexpected token is not consumed, this is a problem for the caller
                    break;
                },
            };
            left = match next {
                Ok(n) => n,
                Err(e) => return Err(e),
            };
            proof {
                self.lemma_consumed_chain(&before, &start);
            }
        }
        Ok(left)
    }

    /// Parse an attribute access `.name` after an expression.
    fn parse_accessor(&mut self, left: Node<Expr>) -> (r: Parse<Expr>)
        requires
            old(self).wf(),
            old(self).peek_spec().0 == Some(Token::Dot),
            spanned(old(self).text(), left.span),
        ensures
            final(self).continues(old(self)),
            result_spanned(final(self).text(), r),
            r is Ok ==> old(self).at() < final(self).at(),
            r matches Ok(n) ==> level(n.data) == 7,
            (final(self).clean_since(old(self)) && r is Ok) ==> expr_leaves(r->Ok_0) == expr_leaves(left)
                + final(self).consumed_since(old(self)) && ((expr_ok(final(self).text(), left) && level(left.data)
                >= 6) ==> expr_ok(final(self).text(), r->Ok_0)),
    {
        let ghost start = *self;
        let dot = match self.parse_expect_token(Token::Dot) {
            Ok(n) => n,
            Err(e) => return Err(e),
        };
        let ghost after_dot = *self;
        let attribute = match self.parse_ident() {
            Ok(n) => n,
            Err(e) => return Err(e),
        };
        proof {
            after_dot.lemma_one_leaf(&start);
            self.lemma_one_leaf(&after_dot);
            self.lemma_consumed_chain(&after_dot, &start);
        }
        let node = self.make_node(
            Span { start: left.span.start, end: attribute.span.end },
            Expr::Accessor { expr: Arc::new(left), dot, attribute },
        );
        proof {
            assert(expr_leaves(node) =~= expr_leaves(left) + (set![(Token::Dot, dot.span)] + set![
                (Token::Ident, attribute.span),
            ]));
        }
        Ok(node)
    }

    /// Parse the arguments of a call after an expression.
    fn parse_call(&mut self, left: Node<Expr>) -> (r: Parse<Expr>)
        requires
            old(self).wf(),
            old(self).peek_spec().0 == Some(Token::LParen),
            spanned(old(self).text(), left.span),
        ensures
            final(self).continues(old(self)),
            result_spanned(final(self).text(), r),
            r is Ok ==> old(self).at() < final(self).at(),
            r matches Ok(n) ==> level(n.data) == 6,
            (final(self).clean_since(old(self)) && r is Ok) ==> expr_leaves(r->Ok_0) == expr_leaves(left)
                + final(self).consumed_since(old(self)) && ((expr_ok(final(self).text(), left) && level(left.data)
                >= 6) ==> expr_ok(final(self).text(), r->Ok_0)),
        decreases old(self).toks().len() - old(self).at(), 8int,
    {
        let (lparen, arguments, rparen) = match self.parse_expr_list(Token::LParen, Token::RParen) {
            Ok(x) => x,
            Err(e) => return Err(e),
        };
        let node = self.make_node(
            Span { start: left.span.start, end: rparen.span.end },
            Expr::Call { callee: Arc::new(left), lparen, arguments, rparen },
        );
        Ok(node)
    }

    /// Parse the right operand of an infix operator, the next token, and
    /// combine it with the left one.
    fn parse_binary_operand(&mut self, left: Node<Expr>, operator: Node<BinaryOp>, right_prec: Prec) -> (r: Parse<Expr>)
        requires
            old(self).wf(),
            old(self).peek_spec().0 == Some(binary_token(operator.data)),
            operator.span == old(self).tok_span(old(self).at()),
            located(old(self).text(), operator),
            spanned(old(self).text(), left.span),
            right_prec.value() == binary_prec(operator.data) + 1,
        ensures
            final(self).continues(old(self)),
            result_spanned(final(self).text(), r),
            r is Ok ==> old(self).at() < final(self).at(),
            r matches Ok(n) ==> level(n.data) == binary_prec(operator.data),
            r is Ok ==> !continues_expr(final(self).peek_spec().0, right_prec.value()),
            (final(self).clean_since(old(self)) && r is Ok) ==> expr_leaves(r->Ok_0) == expr_leaves(left)
                + final(self).consumed_since(old(self)) && ((expr_ok(final(self).text(), left) && level(left.data)
                >= binary_prec(operator.data)) ==> expr_ok(final(self).text(), r->Ok_0)),
            forall|j: int|
                #![trigger expr_chain(old(self).text(), old(self).toks(), old(self).at() + 1, j)]
                expr_chain(old(self).text(), old(self).toks(), old(self).at() + 1, j) && ends_chain(
                    old(self).toks(),
                    j,
                    right_prec.value(),
                ) ==> r is Ok && chain_rest(final(self).text(), final(self).toks(), final(self).at(), j)
                    && final(self).clean_since(old(self)),
            forall|j: int|
                #![trigger expr_chain(old(self).text(), old(self).toks(), old(self).at() + 1, j)]
                expr_chain(old(self).text(), old(self).toks(), old(self).at() + 1, j) && ends_chain(
                    old(self).toks(),
                    j,
                    right_prec.value(),
                ) && expr_ordered(left) && left.span.end <= old(self).tok_span(old(self).at()).start ==> (r matches Ok(
                    n,
                ) && expr_ordered(n) && n.span.start == left.span.start && n.span.end == final(self).tok_span(
                    final(self).at() - 1,
                ).end),
        decreases old(self).toks().len() - old(self).at(), 7int,
    {
        let ghost start = *self;
        let ghost left_g = left;
        // the operator token is consumed here
        let _ = self.consume();
        let ghost mid = *self;
        let expr = match self.parse_prec_expr(right_prec) {
            Ok(n) => n,
            Err(e) => return Err(e),
        };
        proof {
            mid.lemma_one_leaf(&start);
            self.lemma_consumed_chain(&mid, &start);
        }
        let ghost expr_g = expr;
        let node = self.make_node(
            Span { start: left.span.start, end: expr.span.end },
            Expr::Binary { left: Arc::new(left), operator, right: Arc::new(expr) },
        );
        proof {
            assert(expr_leaves(node) == expr_leaves(left_g) + set![(binary_token(operator.data), operator.span)]
                + expr_leaves(expr_g));
            if mid.at() < self.at() {
                self.lemma_tok_order(start.at(), mid.at());
            }
            assert forall|j: int| #[trigger]
                expr_chain(start.text(), start.toks(), start.at() + 1, j) && ends_chain(
                    start.toks(),
                    j,
                    right_prec.value(),
                ) && expr_ordered(left_g) && left_g.span.end <= start.tok_span(start.at()).start implies expr_ordered(
                node,
            ) by {
                assert(mid.spans_consumed(&mid, expr_g.span) || self.spans_consumed(&mid, expr_g.span));
            }
        }
        Ok(node)
    }

    /// Parse a prefix operator, the next token, and its operand.
    fn parse_unary_operand(&mut self, op: UnaryOp, op_span: Span) -> (r: Parse<Expr>)
        requires
            old(self).wf(),
            old(self).peek_spec().0 == Some(unary_token(op)),
            op_span == old(self).tok_span(old(self).at()),
        ensures
            final(self).parsed_expr(old(self), r, 5),
            r matches Ok(n) ==> level(n.data) == 5 && takes_next(5, final(self).peek_spec().0),
            forall|b: int|
                #![trigger operand(old(self).text(), old(self).toks(), old(self).at() + 1, b)]
                operand(old(self).text(), old(self).toks(), old(self).at() + 1, b) && ends_chain(old(self).toks(), b, 5)
                    ==> r is Ok && final(self).at() == b && final(self).clean_since(old(self)),
            forall|b: int|
                #![trigger operand(old(self).text(), old(self).toks(), old(self).at() + 1, b)]
                operand(old(self).text(), old(self).toks(), old(self).at() + 1, b) && ends_chain(old(self).toks(), b, 5)
                    ==> (r matches Ok(n) && expr_ordered(n) && final(self).spans_consumed(old(self), n.span)),
        decreases old(self).toks().len() - old(self).at(), 7int,
    {
        let ghost start = *self;
        proof {
            self.lemma_tok_span(self.at());
        }
        // the operator token is consumed here
        let _ = self.consume();
        let ghost mid = *self;
        let expr = match self.parse_prec_expr(Prec(UNARY)) {
            Ok(n) => n,
            Err(e) => return Err(e),
        };
        proof {
            mid.lemma_one_leaf(&start);
            self.lemma_consumed_chain(&mid, &start);
        }
        let operator = self.make_node(op_span, op);
        let node = self.make_node(
            Span { start: op_span.start, end: expr.span.end },
            Expr::Unary { operator, operand: Arc::new(expr) },
        );
        proof {
            assert(expr_leaves(node) == set![(unary_token(op), op_span)] + expr_leaves(expr));
            if mid.at() < self.at() {
                self.lemma_tok_order(start.at(), mid.at());
            }
        }
        Ok(node)
    }

    /// Parse an expression in parentheses.
    #[verifier::rlimit(40)]
    fn parse_paren_expr(&mut self) -> (r: Parse<Expr>)
        requires
            old(self).wf(),
            old(self).peek_spec().0 == Some(Token::LParen),
        ensures
            final(self).parsed_expr(old(self), r, 8),
            forall|b: int|
                #![trigger expr_chain(old(self).text(), old(self).toks(), old(self).at() + 1, b - 1)]
                old(self).at() + 1 < b - 1 && b <= old(self).toks().len() && old(self).toks()[b - 1].token
                    == Token::RParen && expr_chain(old(self).text(), old(self).toks(), old(self).at() + 1, b - 1)
                    ==> r is Ok && final(self).at() == b && final(self).clean_since(old(self)),
            forall|b: int|
                #![trigger expr_chain(old(self).text(), old(self).toks(), old(self).at() + 1, b - 1)]
                old(self).at() + 1 < b - 1 && b <= old(self).toks().len() && old(self).toks()[b - 1].token
                    == Token::RParen && expr_chain(old(self).text(), old(self).toks(), old(self).at() + 1, b - 1)
                    ==> (r matches Ok(n) && expr_ordered(n) && final(self).spans_consumed(old(self), n.span)),
        decreases old(self).toks().len() - old(self).at(), 7int,
    {
        let ghost start = *self;
        let lparen = match self.parse_expect_token(Token::LParen) {
            Ok(n) => n,
            Err(e) => return Err(e),
        };
        let ghost a = *self;
        let expr = match self.parse_expr() {
            Ok(n) => n,
            Err(e) => return Err(e),
        };
        let ghost b = *self;
        let rparen = match self.parse_expect_token(Token::RParen) {
            Ok(n) => n,
            Err(e) => return Err(e),
        };
        proof {
            a.lemma_one_leaf(&start);
            self.lemma_one_leaf(&b);
            b.lemma_consumed_chain(&a, &start);
            self.lemma_consumed_chain(&b, &start);
            if start.at() < a.at() && a.at() < b.at() && b.at() < self.toks().len() {
                self.lemma_tok_order(start.at(), a.at());
                self.lemma_tok_order(b.at() - 1, b.at());
            }
        }
        let node = self.make_node(
            Span { start: lparen.span.start, end: rparen.span.end },
            Expr::Paren { lparen, expr: Arc::new(expr), rparen },
        );
        proof {
            assert(expr_leaves(node) == set![(Token::LParen, lparen.span), (Token::RParen, rparen.span)]
                + expr_leaves(expr));
            if self.clean_since(&start) {
                assert(b.clean_since(&a));
                assert(expr_leaves(expr) == b.consumed_since(&a));
                assert(a.consumed_since(&start) == set![(Token::LParen, lparen.span)]);
                assert(self.consumed_since(&b) == set![(Token::RParen, rparen.span)]);
                assert(self.consumed_since(&start) == a.consumed_since(&start) + b.consumed_since(&a) + self.consumed_since(&b));
                assert(expr_leaves(node) =~= self.consumed_since(&start));
                assert(expr_ok(self.text(), node));
            }
        }
        Ok(node)
    }

    /// Parse a parenthesized list of expressions separated by commas; a
    /// trailing comma is allowed.
    fn parse_expr_list(&mut self, start_token: Token, end_token: Token) -> (r: Result<
        (Node<()>, Vec<Node<Expr>>, Node<()>),
        ParseError,
    >)
        requires
            old(self).wf(),
            start_token == Token::LParen,
            end_token == Token::RParen,
            old(self).peek_spec().0 == Some(start_token),
        ensures
            final(self).continues(old(self)),
            r is Ok ==> old(self).at() < final(self).at(),
            r matches Ok((lp, args, rp)) ==> spanned(final(self).text(), lp.span) && spanned(final(self).text(), rp.span)
                && located(final(self).text(), lp) && located(final(self).text(), rp),
            r matches Err(e) ==> error_ok(final(self).text(), e),
            (final(self).clean_since(old(self)) && r is Ok) ==> exprs_ok(final(self).text(), r->Ok_0.1@)
                && set![(Token::LParen, r->Ok_0.0.span), (Token::RParen, r->Ok_0.2.span)] + exprs_leaves(r->Ok_0.1@)
                == final(self).consumed_since(old(self)),
        decreases old(self).toks().len() - old(self).at(), 7int,
    {
        let ghost start = *self;
        let lparen = match self.parse_expect_token(start_token) {
            Ok(n) => n,
            Err(e) => return Err(e),
        };
        let ghost after_open = *self;
        proof {
            after_open.lemma_one_leaf(&start);
        }
        let sync = [end_token, Token::Comma];
        let mut arguments: Vec<Node<Expr>> = Vec::new();
        loop
            invariant
                self.continues(&after_open),
                after_open.continues(&start),
                start == *old(self),
                after_open.at() == start.at() + 1,
                sync@ == seq![end_token, Token::Comma],
                end_token == Token::RParen,
                self.clean_since(&after_open) ==> exprs_ok(self.text(), arguments@) && exprs_leaves(arguments@)
                    == self.consumed_since(&after_open),
            decreases self.toks().len() - self.at(),
        {
            let ghost before = *self;
            match self.peek().0 {
                Some(t) => {
                    if t == end_token {
                        break;
                    }
                },
                None => {},
            }
            let expr_parse = self.parse_expr();
            let ghost parsed = *self;
            let ghost args_before = arguments@;
            match self.recover_skip(expr_parse, false, &sync) {
                Some(expr) => {
                    arguments.push(expr);
                    proof {
                        assert(arguments@.subrange(0, arguments@.len() - 1) == args_before);
                        parsed.lemma_consumed_chain(&before, &after_open);
                    }
                },
                None => {},
            }
            let ghost after_expr = *self;
            let (token, span) = self.peek();
            match token {
                Some(Token::Comma) => {
                    match self.parse_expect_token(Token::Comma) {
                        Ok(_) => {},
                        Err(e) => return Err(e),
                    }
                    proof {
                        self.lemma_one_leaf(&after_expr);
                        self.lemma_consumed_chain(&after_expr, &after_open);
                    }
                },
                Some(got) => {
                    if got == end_token {
                        break;
                    }
                    let _ = self.consume();
                    let e = self.expected_but_got(span, &sync, got);
                    self.errors.push(e);
                    self.skip_until_next_line_or_token(false, &sync);
                    // The previous recovery doesn't consume the sync token, but if it is
                    // a comma, we actually need to consume it here so that the next loop
                    // iteration can resume parsing the argument expression.
                    match self.peek().0 {
                        Some(Token::Comma) => {
                            let _ = self.consume();
                        },
                        _ => {},
                    }
                },
                None => {
                    let e = self.unexpected_eof(&sync);
                    self.errors.push(e);
                    break;
                },
            }
        }
        let ghost before_close = *self;
        let rparen_parse = self.parse_expect_token(end_token);
        let rparen = self.recover_replace(rparen_parse, ());
        proof {
            if self.clean_since(&start) {
                self.lemma_one_leaf(&before_close);
                self.lemma_consumed_chain(&before_close, &after_open);
                self.lemma_consumed_chain(&after_open, &start);
            }
        }
        Ok((lparen, arguments, rparen))
    }

    /// Parse an expression that starts with a prefix: an operator, a
    /// parenthesis, a sequence, a literal, a variable or an object.
    fn parse_prefix_expr(&mut self) -> (r: Parse<Expr>)
        requires
            old(self).wf(),
        ensures
            final(self).parsed_expr(old(self), r, 5),
            r matches Ok(n) ==> takes_next(level(n.data), final(self).peek_spec().0),
            old(self).peek_spec().0 is None ==> (r matches Err(e) && e.span == old(self).eof_span()
                && e.message@ == unexpected_str_eof_message("expression"@)),
            old(self).names_variable() ==> r is Ok && final(self).at() == old(self).at() + 1,
            old(self).names_variable() ==> final(self).clean_since(old(self)),
            forall|b: int|
                #![trigger operand(old(self).text(), old(self).toks(), old(self).at(), b)]
                operand(old(self).text(), old(self).toks(), old(self).at(), b) && ends_chain(old(self).toks(), b, 5)
                    ==> r is Ok && final(self).at() == b && final(self).clean_since(old(self)),
            forall|b: int|
                #![trigger operand(old(self).text(), old(self).toks(), old(self).at(), b)]
                operand(old(self).text(), old(self).toks(), old(self).at(), b) && ends_chain(old(self).toks(), b, 5)
                    ==> (r matches Ok(n) && expr_ordered(n) && final(self).spans_consumed(old(self), n.span)),
        decreases old(self).toks().len() - old(self).at(), 8int,
    {
        let ghost start = *self;
        let (token, span) = self.peek();
        let token = match token {
            None => return Err(self.unexpected_str_eof(span, "expression")),
            Some(t) => t,
        };
        proof {
            self.lemma_tok_span(self.at());
            assert forall|b: int| #[trigger]
                operand(start.text(), start.toks(), start.at(), b) && ends_chain(start.toks(), b, 5) implies {
                &&& is_prefix_op(token) ==> operand(start.text(), start.toks(), start.at() + 1, b)
                &&& token == Token::LParen ==> start.at() + 1 < b - 1 && b <= start.toks().len()
                    && start.toks()[b - 1].token == Token::RParen && expr_chain(
                    start.text(),
                    start.toks(),
                    start.at() + 1,
                    b - 1,
                )
                &&& !is_prefix_op(token) && token != Token::LParen ==> b == start.at() + 1 && literal_ok(
                    start.text(),
                    start.toks(),
                    start.at(),
                )
            } by {}
        }
        match token {
            Token::Plus => self.parse_unary_operand(UnaryOp::Plus, span),
            Token::Minus => self.parse_unary_operand(UnaryOp::Minus, span),
            Token::Not => self.parse_unary_operand(UnaryOp::Not, span),
            Token::LParen => self.parse_paren_expr(),
            Token::LLBracket => self.parse_sequence_expr(),
            Token::LitInt => self.parse_int_expr(),
            Token::LitFloat => self.parse_float_expr(),
            Token::LitRatio => self.parse_ratio_expr(),
            Token::LitString => self.parse_string_expr(),
            Token::LitBool => self.parse_bool_expr(),
            Token::Ident => {
                let name = match self.parse_ident() {
                    Ok(n) => n,
                    Err(e) => return Err(e),
                };
                let ghost after_name = *self;
                proof {
                    after_name.lemma_one_leaf(&start);
                }
                // Can either be an object or a normal identifier, depending on what follows
                match self.peek().0 {
                    Some(Token::LBrace) => {
                        let object = match self.parse_object_body(name, Ghost(0)) {
                            Ok(n) => n,
                            Err(e) => return Err(e),
                        };
                        proof {
                            self.lemma_consumed_chain(&after_name, &start);
                        }
                        let span = object.span;
                        let pos = object.pos;
                        Ok(Node { span, pos, data: Expr::Object(Arc::new(object)) })
                    },
                    _ => {
                        let data = name.data;
                        Ok(Node { span: name.span, pos: name.pos, data: Expr::Var(data) })
                    },
                }
            },
            _ => Err(self.expected_str_but_got(span, "expression", token)),
        }
    }

    /// Parse a sequence expression.
    fn parse_sequence_expr(&mut self) -> (r: Parse<Expr>)
        requires
            old(self).wf(),
            old(self).peek_spec().0 == Some(Token::LLBracket),
        ensures
            final(self).parsed_expr(old(self), r, 8),
        decreases old(self).toks().len() - old(self).at(), 7int,
    {
        let sequence = match self.parse_sequence_group() {
            Ok(n) => n,
            Err(e) => return Err(e),
        };
        let span = sequence.span;
        let pos = sequence.pos;
        Ok(Node { span, pos, data: Expr::Sequence(Arc::new(sequence)) })
    }

    /// Parse a sequence `[[ ... ]]` of notes, rests and nested expressions.
    fn parse_sequence_group(&mut self) -> (r: Parse<Sequence>)
        requires
            old(self).wf(),
            old(self).peek_spec().0 == Some(Token::LLBracket),
        ensures
            final(self).continues(old(self)),
            result_spanned(final(self).text(), r),
            r is Ok ==> old(self).at() < final(self).at(),
            (final(self).clean_since(old(self)) && r is Ok) ==> sequence_ok(final(self).text(), r->Ok_0)
                && sequence_leaves(r->Ok_0) == final(self).consumed_since(old(self)),
        decreases old(self).toks().len() - old(self).at(), 6int,
    {
        let ghost start = *self;
        let llbracket = match self.parse_expect_token(Token::LLBracket) {
            Ok(n) => n,
            Err(e) => return Err(e),
        };
        let ghost after_open = *self;
        proof {
            after_open.lemma_one_leaf(&start);
        }
        let mut symbols: Vec<Node<SeqSym>> = Vec::new();
        loop
            invariant
                self.continues(&after_open),
                after_open.continues(&start),
                start == *old(self),
                after_open.at() == start.at() + 1,
                self.clean_since(&after_open) ==> syms_ok(self.text(), symbols@) && syms_leaves(symbols@)
                    == self.consumed_since(&after_open),
            decreases self.toks().len() - self.at(),
        {
            let ghost before = *self;
            let ghost syms_before = symbols@;
            let (token, span) = self.peek();
            match token {
                Some(Token::Note) => {
                    let k = self.next;
                    proof {
                        self.lemma_tokens();
                        self.lemma_tok_span(k as int);
                    }
                    let _ = self.consume();
                    let lx = self.tokens[k];
                    let note_str = string_of(&self.chars, lx.start, lx.end);
                    match seq_sym_from_str(note_str.as_str()) {
                        Some(note) => {
                            let node = self.make_node(span, note);
                            symbols.push(node);
                            proof {
                                assert(symbols@.subrange(0, symbols@.len() - 1) == syms_before);
                                self.lemma_one_leaf(&before);
                                self.lemma_consumed_chain(&before, &after_open);
                                assert(span_text(self.text(), span) == note_str@);
                                assert(sym_ok(self.text(), node));
                                assert(syms_leaves(symbols@) == syms_leaves(syms_before) + sym_leaves(node));
                                assert(sym_leaves(node) == set![(Token::Note, span)]);
                                if self.clean_since(&after_open) {
                                    assert(syms_leaves(symbols@) =~= self.consumed_since(&after_open));
                                }
                            }
                        },
                        None => {
                            let mut m = String::new();
                            push_str(&mut m, "Invalid note: ");
                            push_str(&mut m, note_str.as_str());
                            let e = self.make_error(span, m);
                            self.errors.push(e);
                        },
                    }
                },
                Some(Token::RRBracket) => {
                    break;
                },
                Some(_) => {
                    let expr_start = self.next;
                    match self.parse_expr() {
                        Ok(expr) => {
                            let span = expr.span;
                            let pos = expr.pos;
                            let node = Node { span, pos, data: SeqSym::Expr(Arc::new(expr)) };
                            symbols.push(node);
                            proof {
                                assert(symbols@.subrange(0, symbols@.len() - 1) == syms_before);
                                self.lemma_consumed_chain(&before, &after_open);
                                assert(syms_leaves(symbols@) == syms_leaves(syms_before) + sym_leaves(node));
                                if self.clean_since(&after_open) {
                                    assert(self.clean_since(&before));
                                    assert(sym_ok(self.text(), node));
                                    assert(syms_leaves(symbols@) =~= self.consumed_since(&after_open));
                                }
                            }
                        },
                        Err(err) => {
                            self.errors.push(err);
                            // An expression that cannot even start is skipped, so that
                            // parsing goes on after it.
                            if self.next == expr_start {
                                let _ = self.consume();
                            }
                        },
                    }
                },
                None => {
                    break;
                },
            }
        }
        let ghost before_close = *self;
        let rrbracket_parse = self.parse_expect_token(Token::RRBracket);
        let rrbracket = self.recover_replace(rrbracket_parse, ());
        proof {
            if self.clean_since(&start) {
                self.lemma_one_leaf(&before_close);
                self.lemma_consumed_chain(&before_close, &after_open);
                self.lemma_consumed_chain(&after_open, &start);
            }
        }
        let node = self.make_node(
            Span { start: llbracket.span.start, end: rrbracket.span.end },
            Sequence { llbracket, symbols, rrbracket },
        );
        Ok(node)
    }

    /// Parse the braces of an object and what is between them; the name has
    /// been parsed already.
    #[verifier::rlimit(80)]
    fn parse_object_body(&mut self, name: Node<String>, Ghost(depth): Ghost<int>) -> (r: Parse<Object>)
        requires
            old(self).wf(),
            spanned(old(self).text(), name.span),
        ensures
            final(self).continues(old(self)),
            result_spanned(final(self).text(), r),
            r is Ok ==> old(self).at() < final(self).at(),
            r matches Ok(n) ==> n.data.name == name,
            (final(self).clean_since(old(self)) && r is Ok) ==> object_leaves(r->Ok_0) == set![(Token::Ident, name.span)]
                + final(self).consumed_since(old(self)) && (name_ok(final(self).text(), name) ==> object_ok(
                final(self).text(),
                r->Ok_0,
            )),
            old(self).opens_body(depth) ==> r is Ok && final(self).clean_since(old(self)) && object_tokens(
                final(self).text(),
                final(self).toks(),
                final(self).at(),
                depth,
            ),
            old(self).at() < old(self).toks().len() && old(self).toks()[old(self).at()].token == Token::LBrace
                ==> exists|ls: Seq<BodyLine>|
                #[trigger] body_ok(
                    old(self).text(),
                    old(self).toks(),
                    old(self).at() + 1,
                    ls,
                    final(self).errs().subrange(old(self).errs().len() as int, final(self).errs().len() as int),
                ) && body_outcome(old(self).text(), old(self).toks(), old(self).at() + 1, ls, r, final(self).at()),
            !(old(self).at() < old(self).toks().len() && old(self).toks()[old(self).at()].token == Token::LBrace)
                ==> final(self).errs() == old(self).errs() && r is Err && final(self).at() == (if old(self).at()
                < old(self).toks().len() {
                old(self).at() + 1
            } else {
                old(self).at()
            }),
            !(old(self).at() < old(self).toks().len() && old(self).toks()[old(self).at()].token == Token::LBrace)
                ==> (r matches Err(e) && if old(self).at() < old(self).toks().len() {
                got_error(
                    old(self).text(),
                    old(self).toks(),
                    e,
                    old(self).tok_span(old(self).at()),
                    seq![Token::LBrace],
                    old(self).toks()[old(self).at()].token,
                )
            } else {
                eof_error(old(self).text(), old(self).toks(), e, seq![Token::LBrace])
            }),
        decreases old(self).toks().len() - old(self).at(), 7int,
    {
        let ghost start = *self;
        let ghost flat_body = start.opens_body(depth);
        let ghost cs = start.text();
        let ghost toks = start.toks();
        let ghost p0 = start.at() + 1;
        let ghost e0 = start.errs().len() as int;
        let ghost mut lines: Seq<BodyLine> = Seq::empty();
        let ghost mut term: BodyLine = BodyLine::Close;
        let lbrace = match self.parse_expect_token(Token::LBrace) {
            Ok(n) => n,
            Err(e) => return Err(e),
        };
        let ghost after_open = *self;
        proof {
            after_open.lemma_one_leaf(&start);
        }
        let colon_or_brace = [Token::Colon, Token::LBrace];
        let ident_or_rbrace = [Token::Ident, Token::RBrace];
        let mut attrs: Vec<Node<Attribute>> = Vec::new();
        let mut children: Vec<Node<Object>> = Vec::new();
        loop
            invariant_except_break
                lines_ok(cs, toks, p0, lines, self.errs().subrange(e0, self.errs().len() as int)),
                lines_end(cs, toks, p0, lines) == self.at(),
            invariant
                start.at() < start.toks().len() && start.toks()[start.at()].token == Token::LBrace,
                colon_or_brace@ == seq![Token::Colon, Token::LBrace],
                ident_or_rbrace@ == seq![Token::Ident, Token::RBrace],
                self.continues(&after_open),
                after_open.continues(&start),
                start == *old(self),
                after_open.at() == start.at() + 1,
                self.clean_since(&after_open) ==> attrs_ok(self.text(), attrs@) && objects_ok(self.text(), children@)
                    && attrs_leaves(attrs@) + objects_leaves(children@) == self.consumed_since(&after_open),
                flat_body == start.opens_body(depth),
                flat_body ==> self.clean_since(&after_open) && object_tokens(
                    self.text(),
                    self.toks(),
                    self.at(),
                    depth + 1,
                ),
                cs == start.text(),
                toks == start.toks(),
                p0 == start.at() + 1,
                e0 == start.errs().len(),
                attrs@.len() == attr_positions(cs, toks, p0, lines).len(),
                forall|i: int|
                    0 <= i < attrs@.len() ==> #[trigger] attrs@[i].data.name.span == lexeme_span(
                        cs,
                        toks[attr_positions(cs, toks, p0, lines)[i]],
                    ),
                children@.len() == child_positions(cs, toks, p0, lines).len(),
                forall|i: int|
                    0 <= i < children@.len() ==> #[trigger] children@[i].data.name.span == lexeme_span(
                        cs,
                        toks[child_positions(cs, toks, p0, lines)[i]],
                    ),
            ensures
                flat_body ==> self.peek_spec().0 == Some(Token::RBrace),
                terminal(term) && !(term is BadChild),
                body_ok(cs, toks, p0, lines.push(term), self.errs().subrange(e0, self.errs().len() as int)),
                term is Close ==> self.peek_spec().0 == Some(Token::RBrace) && lines_end(cs, toks, p0, lines)
                    == self.at(),
                !(term is Close) ==> self.at() == toks.len(),
            decreases self.toks().len() - self.at(),
        {
            let ghost before = *self;
            let ghost attrs_before = attrs@;
            let ghost children_before = children@;
            match self.peek().0 {
                Some(Token::Ident) => {
                    let inner_name = match self.parse_ident() {
                        Ok(n) => n,
                        Err(e) => return Err(e),
                    };
                    let ghost after_name = *self;
                    proof {
                        after_name.lemma_one_leaf(&before);
                        if flat_body {
                            assert(object_tokens(before.text(), before.toks(), before.at(), depth + 1));
                            assert(before.toks()[before.at()].token == Token::Ident);
                            assert(before.at() + 1 < before.toks().len());
                        }
                    }
                    // Colon or brace
                    let (token, span) = self.peek();
                    match token {
                        Some(Token::Colon) => {
                            let colon = match self.parse_expect_token(Token::Colon) {
                                Ok(n) => n,
                                Err(e) => return Err(e),
                            };
                            let ghost after_colon = *self;
                            let ghost mut value_end: int = 0;
                            proof {
                                if flat_body {
                                    assert(self.at() == before.at() + 2);
                                    assert(before.toks()[before.at() + 1].token == Token::Colon);
                                    value_end = chain_end(before.text(), before.toks(), before.at() + 2);
                                }
                            }
                            let value_parse = self.parse_expr();
                            let ghost after_value = *self;
                            proof {
                                if flat_body {
                                    assert(value_parse is Ok);
                                    assert(self.at() == value_end);
                                    assert(self.clean_since(&after_open));
                                }
                            }
                            match self.recover_next_line(value_parse) {
                                Some(value) => {
                                    let node = self.make_node(
                                        Span { start: inner_name.span.start, end: value.span.end },
                                        Attribute { name: inner_name, colon, value: Arc::new(value) },
                                    );
                                    attrs.push(node);
                                    proof {
                                        let x = BodyLine::Attribute {
                                            next: self.at(),
                                            errors: (self.errs().len() - before.errs().len()) as nat,
                                        };
                                        let e1 = before.errs().subrange(e0, before.errs().len() as int);
                                        let e2 = self.errs().subrange(before.errs().len() as int, self.errs().len() as int);
                                        assert(self.errs().subrange(e0, self.errs().len() as int) =~= e1 + e2);
                                        assert(line_ok(cs, toks, before.at(), x, e2));
                                        lemma_lines_push(cs, toks, p0, lines, x, e1, e2);
                                        lines = lines.push(x);
                                        assert(attrs@[attrs@.len() - 1] == node);
                                    }
                                    proof {
                                        assert(attrs@.subrange(0, attrs@.len() - 1) == attrs_before);
                                        after_colon.lemma_one_leaf(&after_name);
                                        after_colon.lemma_consumed_chain(&after_name, &before);
                                        self.lemma_consumed_chain(&after_colon, &before);
                                        self.lemma_consumed_chain(&before, &after_open);
                                        assert(attr_leaves(node) == set![(Token::Ident, inner_name.span), (Token::Colon, colon.span)]
                                            + expr_leaves(value));
                                        assert(attrs_leaves(attrs@) == attrs_leaves(attrs_before) + attr_leaves(node));
                                        if self.clean_since(&after_open) {
                                            assert(self.clean_since(&after_colon));
                                            assert(before.clean_since(&after_open));
                                            assert(expr_leaves(value) == self.consumed_since(&after_colon));
                                            assert(attr_ok(self.text(), node));
                                            assert(attrs_ok(self.text(), attrs@));
                                            assert(before.consumed_since(&after_open) == self.consumed_since_from(&after_open, &before));
                                            assert(attrs_leaves(attrs@) + objects_leaves(children@) =~= self.consumed_since(&after_open));
                                        }
                                    }
                                },
                                None => {
                                    proof {
                                        let stop = after_value.at();
                                        let x = BodyLine::BadValue {
                                            stop,
                                            errors: (self.errs().len() - before.errs().len()) as nat,
                                        };
                                        self.lemma_skip_end(stop, stop);
                                        let e1 = before.errs().subrange(e0, before.errs().len() as int);
                                        let e2 = self.errs().subrange(before.errs().len() as int, self.errs().len() as int);
                                        assert(self.errs().subrange(e0, self.errs().len() as int) =~= e1 + e2);
                                        assert(line_ok(cs, toks, before.at(), x, e2));
                                        lemma_lines_push(cs, toks, p0, lines, x, e1, e2);
                                        lines = lines.push(x);
                                    }
                                },
                            }
                        },
                        Some(Token::LBrace) => {
                            let child_parse = self.parse_object_body(inner_name, Ghost(depth + 1));
                            let ghost sub = choose|ls: Seq<BodyLine>|
                                #[trigger] body_ok(
                                    cs,
                                    toks,
                                    after_name.at() + 1,
                                    ls,
                                    self.errs().subrange(after_name.errs().len() as int, self.errs().len() as int),
                                ) && body_outcome(cs, toks, after_name.at() + 1, ls, child_parse, self.at());
                            let ghost e1 = before.errs().subrange(e0, before.errs().len() as int);
                            let ghost e2 = self.errs().subrange(before.errs().len() as int, self.errs().len() as int);
                            proof {
                                assert(self.errs().subrange(e0, self.errs().len() as int) =~= e1 + e2);
                                lemma_lines_count(cs, toks, after_name.at() + 1, sub, e2);
                            }
                            let child_object = match child_parse {
                                Ok(n) => n,
                                Err(e) => {
                                    proof {
                                        let x = BodyLine::BadChild { lines: sub };
                                        assert(line_ok(cs, toks, before.at(), x, e2));
                                        lemma_body_last(cs, toks, p0, lines, x, e1, e2);
                                        assert(body_ok(cs, toks, p0, lines.push(x), self.errs().subrange(e0, self.errs().len() as int)));
                                        assert(body_outcome(cs, toks, p0, lines.push(x), Err::<Node<Object>, ParseError>(e), self.at()));
                                    }
                                    return Err(e);
                                },
                            };
                            children.push(child_object);
                            proof {
                                let x = BodyLine::Child { lines: sub };
                                assert(line_ok(cs, toks, before.at(), x, e2));
                                lemma_lines_push(cs, toks, p0, lines, x, e1, e2);
                                lines = lines.push(x);
                                assert(children@[children@.len() - 1] == child_object);
                            }
                            proof {
                                assert(children@.subrange(0, children@.len() - 1) == children_before);
                                self.lemma_consumed_chain(&after_name, &before);
                                self.lemma_consumed_chain(&before, &after_open);
                                assert(objects_leaves(children@) == objects_leaves(children_before) + object_leaves(child_object));
                                if self.clean_since(&after_open) {
                                    assert(self.clean_since(&after_name));
                                    assert(before.clean_since(&after_open));
                                    assert(object_ok(self.text(), child_object));
                                    assert(objects_ok(self.text(), children@));
                                    assert(attrs_leaves(attrs@) + objects_leaves(children@) =~= self.consumed_since(&after_open));
                                }
                            }
                        },
                        Some(other) => {
                            let e = self.expected_but_got(span, &colon_or_brace, other);
                            self.errors.push(e);
                            self.skip_until_next_line();
                            proof {
                                assert(colon_or_brace@ =~= seq![Token::Colon, Token::LBrace]);
                                let x = BodyLine::NoColon;
                                self.lemma_skip_end(after_name.at(), after_name.at());
                                let e1 = before.errs().subrange(e0, before.errs().len() as int);
                                let e2 = self.errs().subrange(before.errs().len() as int, self.errs().len() as int);
                                assert(self.errs().subrange(e0, self.errs().len() as int) =~= e1 + e2);
                                assert(e2 =~= seq![e]);
                                assert(line_ok(cs, toks, before.at(), x, e2));
                                lemma_lines_push(cs, toks, p0, lines, x, e1, e2);
                                lines = lines.push(x);
                            }
                        },
                        None => {
                            let e = self.unexpected_eof(&colon_or_brace);
                            self.errors.push(e);
                            proof {
                                assert(colon_or_brace@ =~= seq![Token::Colon, Token::LBrace]);
                                term = BodyLine::NameAtEnd;
                                let e1 = before.errs().subrange(e0, before.errs().len() as int);
                                let e2 = self.errs().subrange(before.errs().len() as int, self.errs().len() as int);
                                assert(self.errs().subrange(e0, self.errs().len() as int) =~= e1 + e2);
                                assert(e2 =~= seq![e]);
                                assert(line_ok(cs, toks, before.at(), term, e2));
                                lemma_body_last(cs, toks, p0, lines, term, e1, e2);
                            }
                            break;
                        },
                    }
                },
                Some(Token::RBrace) => {
                    proof {
                        term = BodyLine::Close;
                        let e1 = before.errs().subrange(e0, before.errs().len() as int);
                        let e2 = Seq::<ParseError>::empty();
                        assert(self.errs().subrange(e0, self.errs().len() as int) =~= e1 + e2);
                        assert(line_ok(cs, toks, before.at(), term, e2));
                        lemma_body_last(cs, toks, p0, lines, term, e1, e2);
                    }
                    break;
                },
                Some(other) => {
                    let (_, span) = match self.consume() {
                        Some(x) => x,
                        None => return Err(self.unexpected_eof(&ident_or_rbrace)),
                    };
                    let e = self.expected_but_got(span, &ident_or_rbrace, other);
                    self.errors.push(e);
                    let ghost after_stray = *self;
                    self.skip_until_next_line();
                    proof {
                        assert(ident_or_rbrace@ =~= seq![Token::Ident, Token::RBrace]);
                        let x = BodyLine::Stray;
                        self.lemma_skip_end(after_stray.at(), after_stray.at());
                        let e1 = before.errs().subrange(e0, before.errs().len() as int);
                        let e2 = self.errs().subrange(before.errs().len() as int, self.errs().len() as int);
                        assert(self.errs().subrange(e0, self.errs().len() as int) =~= e1 + e2);
                        assert(e2 =~= seq![e]);
                        assert(line_ok(cs, toks, before.at(), x, e2));
                        lemma_lines_push(cs, toks, p0, lines, x, e1, e2);
                        lines = lines.push(x);
                    }
                },
                None => {
                    let e = self.unexpected_eof(&ident_or_rbrace);
                    self.errors.push(e);
                    proof {
                        assert(ident_or_rbrace@ =~= seq![Token::Ident, Token::RBrace]);
                        term = BodyLine::End;
                        let e1 = before.errs().subrange(e0, before.errs().len() as int);
                        let e2 = self.errs().subrange(before.errs().len() as int, self.errs().len() as int);
                        assert(self.errs().subrange(e0, self.errs().len() as int) =~= e1 + e2);
                        assert(e2 =~= seq![e]);
                        assert(line_ok(cs, toks, before.at(), term, e2));
                        lemma_body_last(cs, toks, p0, lines, term, e1, e2);
                    }
                    break;
                },
            }
        }
        let ghost before_close = *self;
        proof {
            lemma_positions_terminal(cs, toks, p0, lines, term);
        }
        let rbrace = match self.parse_expect_token(Token::RBrace) {
            Ok(n) => n,
            Err(e) => {
                proof {
                    assert(body_outcome(cs, toks, p0, lines.push(term), Err::<Node<Object>, ParseError>(e), self.at()));
                }
                return Err(e);
            },
        };
        proof {
            self.lemma_one_leaf(&before_close);
            self.lemma_consumed_chain(&before_close, &after_open);
            self.lemma_consumed_chain(&after_open, &start);
        }
        let ghost attrs_g = attrs@;
        let ghost children_g = children@;
        let node = self.make_node(
            Span { start: name.span.start, end: rbrace.span.end },
            Object { name, lbrace, attrs, children, rbrace },
        );
        proof {
            assert(node.data.attrs@ == attrs_g);
            assert(node.data.children@ == children_g);
            assert(term is Close);
            assert(lines.push(term).subrange(0, lines.len() as int) =~= lines);
            assert(body_end(cs, toks, p0, lines.push(term)) == self.at());
            assert(attr_positions(cs, toks, p0, lines.push(term)) == attr_positions(cs, toks, p0, lines));
            assert(attrs_g.len() == attr_positions(cs, toks, p0, lines).len());
            assert(body_outcome(cs, toks, p0, lines.push(term), Ok::<Node<Object>, ParseError>(node), self.at()));
        }
        Ok(node)
    }

    /// Parse an object: a name followed by braces.
    fn parse_object(&mut self) -> (r: Parse<Object>)
        requires
            old(self).wf(),
        ensures
            final(self).continues(old(self)),
            result_spanned(final(self).text(), r),
            old(self).at() < old(self).toks().len() ==> old(self).at() < final(self).at(),
            (final(self).clean_since(old(self)) && r is Ok) ==> object_ok(final(self).text(), r->Ok_0)
                && object_leaves(r->Ok_0) == final(self).consumed_since(old(self)),
            object_tokens(old(self).text(), old(self).toks(), old(self).at(), 0) && old(self).at() < old(
                self,
            ).toks().len() ==> r is Ok && final(self).clean_since(old(self)) && object_tokens(
                final(self).text(),
                final(self).toks(),
                final(self).at(),
                0,
            ),
            old(self).at() < old(self).toks().len() ==> exists|line: RootLine|
                #[trigger] object_result(
                    old(self).text(),
                    old(self).toks(),
                    old(self).at(),
                    line,
                    final(self).errs().subrange(old(self).errs().len() as int, final(self).errs().len() as int),
                    r,
                    final(self).at(),
                ),
    {
        let ghost start = *self;
        let mut unknown = String::new();
        push_str(&mut unknown, "<<unknown>>");
        let name_parse = self.parse_ident();
        let ghost name_res = name_parse;
        let name = self.recover_replace(name_parse, unknown);
        let ghost after_name = *self;
        let r = self.parse_object_body(name, Ghost(0));
        proof {
            if self.clean_since(&start) && r is Ok {
                after_name.lemma_one_leaf(&start);
                self.lemma_consumed_chain(&after_name, &start);
            }
            if start.at() < start.toks().len() {
                let cs = start.text();
                let toks = start.toks();
                let p = start.at();
                let q = p + 1;
                let named = toks[p].token == Token::Ident;
                let n: int = if named { 0 } else { 1 };
                let all = self.errs().subrange(start.errs().len() as int, self.errs().len() as int);
                let name_errs = after_name.errs().subrange(start.errs().len() as int, after_name.errs().len() as int);
                let body_errs = self.errs().subrange(after_name.errs().len() as int, self.errs().len() as int);
                assert(all =~= name_errs + body_errs);
                assert(name_errs.len() == n);
                assert(name.span == lexeme_span(cs, toks[p]));
                if q < toks.len() && toks[q].token == Token::LBrace {
                    let ls = choose|ls: Seq<BodyLine>|
                        #[trigger] body_ok(cs, toks, q + 1, ls, body_errs) && body_outcome(cs, toks, q + 1, ls, r, self.at());
                    assert(all.subrange(n, all.len() as int) =~= body_errs);
                    lemma_lines_count(cs, toks, q + 1, ls, body_errs);
                    if body_end(cs, toks, q + 1, ls) > 0 {
                        let line = RootLine::Object { named, lines: ls, object: r->Ok_0 };
                        assert(object_result(cs, toks, p, line, all, r, self.at()));
                    } else {
                        let e = r->Err_0;
                        let line = RootLine::OpenObject { named, lines: ls };
                        assert(all.push(e).subrange(n, all.push(e).len() - 1) =~= body_errs);
                        assert(object_result(cs, toks, p, line, all, r, self.at()));
                    }
                } else {
                    let e = r->Err_0;
                    let line = RootLine::NoBrace { named };
                    assert(object_result(cs, toks, p, line, all, r, self.at()));
                }
            }
        }
        r
    }

    /// Parse a whole file: objects until the end.
    #[verifier::rlimit(80)]
    fn parse_root(&mut self) -> (r: Node<Root>)
        requires
            old(self).wf(),
        ensures
            final(self).continues(old(self)),
            final(self).at() == final(self).toks().len(),
            spanned(final(self).text(), r.span),
            (final(self).clean_since(old(self)) && old(self).at() == 0) ==> root_ok(final(self).text(), r)
                && root_leaves(r) == final(self).consumed_since(old(self)),
            old(self).at() == old(self).toks().len() ==> final(self).clean_since(old(self))
                && r.data.objects@.len() == 0,
            object_tokens(old(self).text(), old(self).toks(), old(self).at(), 0) ==> final(self).clean_since(
                old(self),
            ),
            exists|ls: Seq<RootLine>|
                #[trigger] root_lines_ok(
                    old(self).text(),
                    old(self).toks(),
                    old(self).at(),
                    ls,
                    final(self).errs().subrange(old(self).errs().len() as int, final(self).errs().len() as int),
                ) && root_lines_end(old(self).text(), old(self).toks(), old(self).at(), ls) == final(self).at()
                    && r.data.objects@ == kept_objects(ls),
    {
        let ghost start = *self;
        let ghost cs = start.text();
        let ghost toks = start.toks();
        let ghost e0 = start.errs().len() as int;
        let ghost mut rlines: Seq<RootLine> = Seq::empty();
        let mut objects: Vec<Node<Object>> = Vec::new();
        loop
            invariant
                self.continues(&start),
                start == *old(self),
                forall|k: int| 0 <= k < objects@.len() ==> spanned(self.text(), #[trigger] objects@[k].span),
                self.clean_since(&start) ==> objects_ok(self.text(), objects@) && objects_leaves(objects@)
                    == self.consumed_since(&start) && (objects@.len() == 0 ==> self.at() == start.at()),
                start.at() == start.toks().len() ==> self.clean_since(&start) && objects@.len() == 0,
                object_tokens(start.text(), start.toks(), start.at(), 0) ==> self.clean_since(&start)
                    && object_tokens(self.text(), self.toks(), self.at(), 0),
                cs == start.text(),
                toks == start.toks(),
                e0 == start.errs().len(),
                root_lines_ok(cs, toks, start.at(), rlines, self.errs().subrange(e0, self.errs().len() as int)),
                root_lines_end(cs, toks, start.at(), rlines) == self.at(),
                objects@ == kept_objects(rlines),
            ensures
                self.continues(&start),
                start == *old(self),
                self.at() == self.toks().len(),
                forall|k: int| 0 <= k < objects@.len() ==> spanned(self.text(), #[trigger] objects@[k].span),
                self.clean_since(&start) ==> objects_ok(self.text(), objects@) && objects_leaves(objects@)
                    == self.consumed_since(&start) && (objects@.len() == 0 ==> self.at() == start.at()),
                start.at() == start.toks().len() ==> self.clean_since(&start) && objects@.len() == 0,
                object_tokens(start.text(), start.toks(), start.at(), 0) ==> self.clean_since(&start)
                    && object_tokens(self.text(), self.toks(), self.at(), 0),
                cs == start.text(),
                toks == start.toks(),
                e0 == start.errs().len(),
                root_lines_ok(cs, toks, start.at(), rlines, self.errs().subrange(e0, self.errs().len() as int)),
                root_lines_end(cs, toks, start.at(), rlines) == self.at(),
                objects@ == kept_objects(rlines),
            decreases self.toks().len() - self.at(),
        {
            let ghost before = *self;
            let ghost objects_before = objects@;
            match self.peek().0 {
                None => break,
                Some(_) => {},
            }
            let object_parse = self.parse_object();
            let ghost after_object = *self;
            let ghost line = choose|line: RootLine|
                #[trigger] object_result(
                    cs,
                    toks,
                    before.at(),
                    line,
                    after_object.errs().subrange(before.errs().len() as int, after_object.errs().len() as int),
                    object_parse,
                    after_object.at(),
                );
            let ghost e1 = before.errs().subrange(e0, before.errs().len() as int);
            match self.recover_next_line(object_parse) {
                Some(object) => {
                    objects.push(object);
                    proof {
                        assert(objects@.subrange(0, objects@.len() - 1) == objects_before);
                        self.lemma_consumed_chain(&before, &start);
                        let e2 = self.errs().subrange(before.errs().len() as int, self.errs().len() as int);
                        assert(self.errs().subrange(e0, self.errs().len() as int) =~= e1 + e2);
                        assert(line is Object);
                        lemma_root_push(cs, toks, start.at(), rlines, line, e1, e2);
                        rlines = rlines.push(line);
                        assert(objects@ =~= kept_objects(rlines));
                    }
                },
                None => {
                    proof {
                        let e2 = self.errs().subrange(before.errs().len() as int, self.errs().len() as int);
                        assert(self.errs().subrange(e0, self.errs().len() as int) =~= e1 + e2);
                        assert(!(line is Object));
                        assert(e2 =~= after_object.errs().subrange(before.errs().len() as int, after_object.errs().len() as int).push(object_parse->Err_0));
                        let stop = after_object.at();
                        self.lemma_skip_end(stop, stop);
                        lemma_root_push(cs, toks, start.at(), rlines, line, e1, e2);
                        rlines = rlines.push(line);
                        assert(objects@ =~= kept_objects(rlines));
                    }
                },
            }
        }
        let span = if objects.len() == 0 {
            Span { start: 0, end: self.consumed }
        } else {
            Span { start: objects[0].span.start, end: objects[objects.len() - 1].span.end }
        };
        proof {
            let cs = self.text();
            if objects.len() == 0 {
                crate::text::lemma_byte_offset_zero(cs);
                lemma_char_index(cs, 0);
                if self.at() > 0 {
                    self.lemma_tokens();
                    self.lemma_tok_span(self.at() - 1);
                }
            }
        }
        let ghost objects_g = objects@;
        let root = self.make_node(span, Root { objects });
        proof {
            assert(root.data.objects@ == objects_g);
        }
        root
    }

    /// Parse a source text into its syntax tree. The result is `Ok` when no
    /// error was found; otherwise it holds the tree that error recovery built
    /// and the errors, in the order they were found.
    #[verifier::rlimit(100)]
    #[verifier::spinoff_prover]
    pub fn parse(source: &'a str) -> (r: Result<Node<Root>, (Node<Root>, Vec<ParseError>)>)
        requires
            parsable(source@),
        ensures
            match r {
                Ok(root) => root_ok(source@, root) && root_leaves(root) == token_leaves(
                    source@,
                    lex_from(source@, 0),
                    0,
                    lex_from(source@, 0).len() as int,
                ),
                Err((_, errors)) => errors.len() > 0 && forall|k: int| 0 <= k < errors.len() ==> error_ok(
                    source@,
                    #[trigger] errors@[k],
                ),
            },
            (exists|k: int| 0 <= k < lex_from(source@, 0).len() && #[trigger] lex_from(source@, 0)[k].token
                == Token::Error) ==> r is Err,
            lex_from(source@, 0).len() == 0 ==> (r matches Ok(root) && root.data.objects@.len() == 0),
            object_tokens(source@, lex_from(source@, 0), 0, 0) ==> r is Ok,
            r is Err ==> exists|ls: Seq<RootLine>|
                #[trigger] root_lines_ok(source@, lex_from(source@, 0), 0, ls, r->Err_0.1@) && root_lines_end(
                    source@,
                    lex_from(source@, 0),
                    0,
                    ls,
                ) == lex_from(source@, 0).len() && r->Err_0.0.data.objects@ == kept_objects(ls),
            r matches Ok(root) ==> exists|ls: Seq<RootLine>|
                #[trigger] root_lines_ok(source@, lex_from(source@, 0), 0, ls, seq![]) && root_lines_end(
                    source@,
                    lex_from(source@, 0),
                    0,
                    ls,
                ) == lex_from(source@, 0).len() && root.data.objects@ == kept_objects(ls),
    {
        let mut parser = Parser::new(source);
        let ghost fresh = parser;
        let root = parser.parse_root();
        let ghost ls = choose|ls: Seq<RootLine>|
            #[trigger] root_lines_ok(
                fresh.text(),
                fresh.toks(),
                fresh.at(),
                ls,
                parser.errs().subrange(fresh.errs().len() as int, parser.errs().len() as int),
            ) && root_lines_end(fresh.text(), fresh.toks(), fresh.at(), ls) == parser.at()
                && root.data.objects@ == kept_objects(ls);
        proof {
            assert(parser.errs().subrange(fresh.errs().len() as int, parser.errs().len() as int) =~= parser.errs());
            assert(fresh.toks() == lex_from(source@, 0));
            assert(root_lines_ok(source@, lex_from(source@, 0), 0, ls, parser.errs()));
        }
        if parser.errors.len() == 0 {
            proof {
                if exists|k: int| 0 <= k < lex_from(source@, 0).len() && #[trigger] lex_from(source@, 0)[k].token
                    == Token::Error {
                    let k = choose|k: int| 0 <= k < lex_from(source@, 0).len() && #[trigger] lex_from(source@, 0)[k].token
                        == Token::Error;
                    law_error_token_has_no_tree(source@, root, k);
                }
                assert(parser.errs() =~= Seq::<ParseError>::empty());
            }
            Ok(root)
        } else {
            let ghost es = parser.errs();
            proof {
                assert(fresh.text() == source@ && fresh.at() == 0);
                assert(root_lines_end(source@, lex_from(source@, 0), 0, ls) == lex_from(source@, 0).len());
                assert(root_lines_ok(source@, lex_from(source@, 0), 0, ls, es));
            }
            let errors = parser.errors;
            proof {
                assert(errors@ == es);
                assert(root_lines_ok(source@, lex_from(source@, 0), 0, ls, errors@) && root_lines_end(
                    source@,
                    lex_from(source@, 0),
                    0,
                    ls,
                ) == lex_from(source@, 0).len() && root.data.objects@ == kept_objects(ls));
            }
            let result: Result<Node<Root>, (Node<Root>, Vec<ParseError>)> = Err((root, errors));
            proof {
                assert(result->Err_0.1@ == es);
                assert(root_lines_ok(source@, lex_from(source@, 0), 0, ls, result->Err_0.1@));
                assert(result->Err_0.0.data.objects@ == kept_objects(ls));
            }
            result
        }
    }
}

} // verus!
