//! What a syntax tree says about the text it was read from: which tokens it
//! accounts for, where its nodes lie, and what its literals hold.
use vstd::prelude::*;
use crate::ast::{
    Attribute, BinaryOp, Expr, Node, Object, PosRange, Root, SeqSym, Sequence, UnaryOp,
};
use crate::lexer::{lex_from, Lexeme, Span, Token};
use crate::line_map::{pos_of, Pos};
use crate::text::{byte_offset, parse_i64_spec};
use crate::rational::fraction_parts_spec;
use crate::notation::seq_sym_denotes;

verus! {

/// A token kind together with the bytes it covers.
pub type Leaf = (Token, Span);

/// The bytes covered by a lexeme of the text `cs`.
pub open spec fn lexeme_span(cs: Seq<char>, lx: Lexeme) -> Span {
    Span { start: byte_offset(cs, lx.start as int) as usize, end: byte_offset(cs, lx.end as int) as usize }
}

/// `b` is the byte offset of a character of `cs`, or of its end.
pub open spec fn boundary(cs: Seq<char>, b: int) -> bool {
    exists|i: int| 0 <= i <= cs.len() && byte_offset(cs, i) == b
}

/// The index of the character that starts at byte offset `b`.
pub open spec fn char_index(cs: Seq<char>, b: int) -> int {
    choose|i: int| 0 <= i <= cs.len() && byte_offset(cs, i) == b
}

/// Line and column of byte offset `b`.
pub open spec fn pos_at(cs: Seq<char>, b: int) -> Pos {
    pos_of(cs, char_index(cs, b))
}

/// The characters covered by a span.
pub open spec fn span_text(cs: Seq<char>, sp: Span) -> Seq<char> {
    cs.subrange(char_index(cs, sp.start as int), char_index(cs, sp.end as int))
}

/// The span runs from `start` to `end`.
pub open spec fn spans(sp: Span, start: Span, end: Span) -> bool {
    sp.start == start.start && sp.end == end.end
}

/// The positions of a node are those of its span.
pub open spec fn located<T>(cs: Seq<char>, n: Node<T>) -> bool {
    n.pos == PosRange { start: pos_at(cs, n.span.start as int), end: pos_at(cs, n.span.end as int) }
}

/// The token of the tokens `toks` at index `k`, as a leaf.
pub open spec fn token_leaf(cs: Seq<char>, toks: Seq<Lexeme>, k: int) -> Leaf {
    (toks[k].token, lexeme_span(cs, toks[k]))
}

/// The leaves of the tokens with indices in `[i, j)`, leaving out commas:
/// a syntax tree does not record where the commas of an argument list stood.
pub open spec fn token_leaves(cs: Seq<char>, toks: Seq<Lexeme>, i: int, j: int) -> Set<Leaf>
    decreases j - i,
{
    if j <= i {
        Set::empty()
    } else if toks[j - 1].token == Token::Comma {
        token_leaves(cs, toks, i, j - 1)
    } else {
        token_leaves(cs, toks, i, j - 1).insert(token_leaf(cs, toks, j - 1))
    }
}

/// How tightly an operator binds.
pub open spec fn binary_prec(op: BinaryOp) -> int {
    match op {
        BinaryOp::Or => 1,
        BinaryOp::And => 2,
        BinaryOp::Add => 3,
        BinaryOp::Sub => 3,
        BinaryOp::Mult => 4,
        BinaryOp::Div => 4,
    }
}

/// The binding strength of an expression's outermost construct: an operand
/// of an operator must bind at least as tightly as the operator demands.
pub open spec fn level(e: Expr) -> int {
    match e {
        Expr::Binary { operator, .. } => binary_prec(operator.data),
        Expr::Unary { .. } => 5,
        Expr::Call { .. } => 6,
        Expr::Accessor { .. } => 7,
        _ => 8,
    }
}

/// The token of a prefix operator.
pub open spec fn unary_token(op: UnaryOp) -> Token {
    match op {
        UnaryOp::Plus => Token::Plus,
        UnaryOp::Minus => Token::Minus,
        UnaryOp::Not => Token::Not,
    }
}

/// The token of an infix operator.
pub open spec fn binary_token(op: BinaryOp) -> Token {
    match op {
        BinaryOp::Add => Token::Plus,
        BinaryOp::Sub => Token::Minus,
        BinaryOp::Mult => Token::Star,
        BinaryOp::Div => Token::Slash,
        BinaryOp::And => Token::And,
        BinaryOp::Or => Token::Or,
    }
}

/// The token a literal or variable is written as.
pub open spec fn atom_token(e: Expr) -> Token {
    match e {
        Expr::String(_) => Token::LitString,
        Expr::Int(_) => Token::LitInt,
        Expr::Ratio(_) => Token::LitRatio,
        Expr::Float(_) => Token::LitFloat,
        Expr::Bool(_) => Token::LitBool,
        _ => Token::Ident,
    }
}

/// The leaves (tokens with their spans) that an expression accounts for.
pub open spec fn expr_leaves(e: Node<Expr>) -> Set<Leaf>
    decreases e,
{
    match e.data {
        Expr::Unary { operator, operand } => set![(unary_token(operator.data), operator.span)]
            + expr_leaves(*operand),
        Expr::Binary { left, operator, right } => expr_leaves(*left) + set![
            (binary_token(operator.data), operator.span),
        ] + expr_leaves(*right),
        Expr::Paren { lparen, expr, rparen } => set![(Token::LParen, lparen.span), (Token::RParen, rparen.span)]
            + expr_leaves(*expr),
        Expr::Object(o) => object_leaves(*o),
        Expr::Accessor { expr, dot, attribute } => expr_leaves(*expr) + set![
            (Token::Dot, dot.span),
            (Token::Ident, attribute.span),
        ],
        Expr::Call { callee, lparen, arguments, rparen } => expr_leaves(*callee) + set![
            (Token::LParen, lparen.span),
            (Token::RParen, rparen.span),
        ] + exprs_leaves(arguments@),
        Expr::Sequence(s) => sequence_leaves(*s),
        _ => set![(atom_token(e.data), e.span)],
    }
}

/// The leaves of a list of expressions.
pub open spec fn exprs_leaves(es: Seq<Node<Expr>>) -> Set<Leaf>
    decreases es,
{
    if es.len() == 0 {
        Set::empty()
    } else {
        exprs_leaves(es.subrange(0, es.len() - 1)) + expr_leaves(es[es.len() - 1])
    }
}

/// The leaves of an object.
pub open spec fn object_leaves(o: Node<Object>) -> Set<Leaf>
    decreases o,
{
    set![
        (Token::Ident, o.data.name.span),
        (Token::LBrace, o.data.lbrace.span),
        (Token::RBrace, o.data.rbrace.span),
    ] + attrs_leaves(o.data.attrs@) + objects_leaves(o.data.children@)
}

/// The leaves of a list of objects.
pub open spec fn objects_leaves(os: Seq<Node<Object>>) -> Set<Leaf>
    decreases os,
{
    if os.len() == 0 {
        Set::empty()
    } else {
        objects_leaves(os.subrange(0, os.len() - 1)) + object_leaves(os[os.len() - 1])
    }
}

/// The leaves of an attribute.
pub open spec fn attr_leaves(a: Node<Attribute>) -> Set<Leaf>
    decreases a,
{
    set![(Token::Ident, a.data.name.span), (Token::Colon, a.data.colon.span)] + expr_leaves(*a.data.value)
}

/// The leaves of a list of attributes.
pub open spec fn attrs_leaves(attrs: Seq<Node<Attribute>>) -> Set<Leaf>
    decreases attrs,
{
    if attrs.len() == 0 {
        Set::empty()
    } else {
        attrs_leaves(attrs.subrange(0, attrs.len() - 1)) + attr_leaves(attrs[attrs.len() - 1])
    }
}

/// The leaves of a sequence.
pub open spec fn sequence_leaves(s: Node<Sequence>) -> Set<Leaf>
    decreases s,
{
    set![(Token::LLBracket, s.data.llbracket.span), (Token::RRBracket, s.data.rrbracket.span)]
        + syms_leaves(s.data.symbols@)
}

/// The leaves of a symbol of a sequence.
pub open spec fn sym_leaves(s: Node<SeqSym>) -> Set<Leaf>
    decreases s,
{
    match s.data {
        SeqSym::Expr(e) => expr_leaves(*e),
        _ => set![(Token::Note, s.span)],
    }
}

/// The leaves of a list of symbols.
pub open spec fn syms_leaves(ss: Seq<Node<SeqSym>>) -> Set<Leaf>
    decreases ss,
{
    if ss.len() == 0 {
        Set::empty()
    } else {
        syms_leaves(ss.subrange(0, ss.len() - 1)) + sym_leaves(ss[ss.len() - 1])
    }
}

/// The leaves of a whole file.
pub open spec fn root_leaves(r: Node<Root>) -> Set<Leaf> {
    objects_leaves(r.data.objects@)
}


/// The characters of `s` without underscores, which literals may hold to
/// group digits.
pub open spec fn drop_underscores(s: Seq<char>) -> Seq<char>
    decreases s.len(),
{
    if s.len() == 0 {
        s
    } else if s.last() == '_' {
        drop_underscores(s.drop_last())
    } else {
        drop_underscores(s.drop_last()).push(s.last())
    }
}

/// The character an escape sequence `\c` stands for.
pub open spec fn escaped(c: char) -> Option<char> {
    if c == 'n' {
        Some('\n')
    } else if c == 't' {
        Some('\t')
    } else if c == 'r' {
        Some('\r')
    } else if c == '\\' {
        Some('\\')
    } else {
        None
    }
}

/// The contents of a string literal with its escape sequences replaced, or
/// the index of the first bad escape sequence, and whether it is cut off by
/// the end.
pub open spec fn unescape(s: Seq<char>) -> Result<Seq<char>, (int, bool)>
    decreases s.len(),
{
    if s.len() == 0 {
        Ok(s)
    } else if s[0] == '\\' {
        if s.len() == 1 {
            Err((0, true))
        } else {
            match escaped(s[1]) {
                None => Err((0, false)),
                Some(c) => match unescape(s.skip(2)) {
                    Ok(rest) => Ok(seq![c] + rest),
                    Err((k, cut)) => Err((k + 2, cut)),
                },
            }
        }
    } else {
        match unescape(s.skip(1)) {
            Ok(rest) => Ok(seq![s[0]] + rest),
            Err((k, cut)) => Err((k + 1, cut)),
        }
    }
}

/// The value of a boolean literal.
pub open spec fn bool_value(s: Seq<char>) -> Option<bool> {
    if s == "true"@ {
        Some(true)
    } else if s == "false"@ {
        Some(false)
    } else {
        None
    }
}

/// The characters between the quotes of a string literal.
pub open spec fn string_inside(s: Seq<char>) -> Seq<char> {
    s.subrange(1, s.len() - 1)
}

/// A name node holds the text of its span.
pub open spec fn name_ok(cs: Seq<char>, n: Node<String>) -> bool {
    located(cs, n) && n.data@ == span_text(cs, n.span)
}

/// An expression node is located where its parts are, holds the values its
/// literals spell, and its operands bind as tightly as their operators demand.
pub open spec fn expr_ok(cs: Seq<char>, e: Node<Expr>) -> bool
    decreases e,
{
    let text = span_text(cs, e.span);
    located(cs, e) && match e.data {
        Expr::String(v) => unescape(string_inside(text)) == Ok::<Seq<char>, (int, bool)>(v@),
        Expr::Int(v) => parse_i64_spec(drop_underscores(text)) == Ok::<i64, crate::text::IntErrorKind>(v),
        Expr::Ratio(v) => fraction_parts_spec(drop_underscores(text)) matches Ok((n, d)) && v.wf() && v.denotes(
            n as int,
            d as int,
        ),
        Expr::Float(f) => f.text@ == drop_underscores(text),
        Expr::Bool(b) => bool_value(text) == Some(b),
        Expr::Var(name) => name@ == text,
        Expr::Unary { operator, operand } => {
            &&& located(cs, operator)
            &&& spans(e.span, operator.span, operand.span)
            &&& level(operand.data) >= 5
            &&& expr_ok(cs, *operand)
        },
        Expr::Binary { left, operator, right } => {
            &&& located(cs, operator)
            &&& spans(e.span, left.span, right.span)
            &&& level(left.data) >= binary_prec(operator.data)
            &&& level(right.data) > binary_prec(operator.data)
            &&& expr_ok(cs, *left)
            &&& expr_ok(cs, *right)
        },
        Expr::Paren { lparen, expr, rparen } => {
            &&& located(cs, lparen)
            &&& located(cs, rparen)
            &&& spans(e.span, lparen.span, rparen.span)
            &&& expr_ok(cs, *expr)
        },
        Expr::Object(o) => o.span == e.span && o.pos == e.pos && object_ok(cs, *o),
        Expr::Accessor { expr, dot, attribute } => {
            &&& located(cs, dot)
            &&& name_ok(cs, attribute)
            &&& spans(e.span, expr.span, attribute.span)
            &&& level(expr.data) >= 6
            &&& expr_ok(cs, *expr)
        },
        Expr::Call { callee, lparen, arguments, rparen } => {
            &&& located(cs, lparen)
            &&& located(cs, rparen)
            &&& spans(e.span, callee.span, rparen.span)
            &&& level(callee.data) >= 6
            &&& expr_ok(cs, *callee)
            &&& exprs_ok(cs, arguments@)
        },
        Expr::Sequence(sq) => sq.span == e.span && sq.pos == e.pos && sequence_ok(cs, *sq),
    }
}

/// Every expression of the list is well formed.
pub open spec fn exprs_ok(cs: Seq<char>, es: Seq<Node<Expr>>) -> bool
    decreases es,
{
    es.len() == 0 || (exprs_ok(cs, es.subrange(0, es.len() - 1)) && expr_ok(cs, es[es.len() - 1]))
}

/// An object node spans from its name to its closing brace, and its parts
/// are well formed.
pub open spec fn object_ok(cs: Seq<char>, o: Node<Object>) -> bool
    decreases o,
{
    &&& located(cs, o)
    &&& name_ok(cs, o.data.name)
    &&& located(cs, o.data.lbrace)
    &&& located(cs, o.data.rbrace)
    &&& spans(o.span, o.data.name.span, o.data.rbrace.span)
    &&& attrs_ok(cs, o.data.attrs@)
    &&& objects_ok(cs, o.data.children@)
}

/// Every object of the list is well formed.
pub open spec fn objects_ok(cs: Seq<char>, os: Seq<Node<Object>>) -> bool
    decreases os,
{
    os.len() == 0 || (objects_ok(cs, os.subrange(0, os.len() - 1)) && object_ok(cs, os[os.len() - 1]))
}

/// An attribute spans from its name to its value.
pub open spec fn attr_ok(cs: Seq<char>, a: Node<Attribute>) -> bool
    decreases a,
{
    &&& located(cs, a)
    &&& name_ok(cs, a.data.name)
    &&& located(cs, a.data.colon)
    &&& spans(a.span, a.data.name.span, a.data.value.span)
    &&& expr_ok(cs, *a.data.value)
}

/// Every attribute of the list is well formed.
pub open spec fn attrs_ok(cs: Seq<char>, attrs: Seq<Node<Attribute>>) -> bool
    decreases attrs,
{
    attrs.len() == 0 || (attrs_ok(cs, attrs.subrange(0, attrs.len() - 1)) && attr_ok(cs, attrs[attrs.len() - 1]))
}

/// A sequence spans its brackets, and its symbols are well formed.
pub open spec fn sequence_ok(cs: Seq<char>, sq: Node<Sequence>) -> bool
    decreases sq,
{
    &&& located(cs, sq)
    &&& located(cs, sq.data.llbracket)
    &&& located(cs, sq.data.rrbracket)
    &&& spans(sq.span, sq.data.llbracket.span, sq.data.rrbracket.span)
    &&& syms_ok(cs, sq.data.symbols@)
}

/// A note or rest is what its text denotes; a nested expression is well formed.
pub open spec fn sym_ok(cs: Seq<char>, sy: Node<SeqSym>) -> bool
    decreases sy,
{
    located(cs, sy) && match sy.data {
        SeqSym::Expr(e) => e.span == sy.span && e.pos == sy.pos && expr_ok(cs, *e),
        _ => seq_sym_denotes(span_text(cs, sy.span), Some(sy.data)),
    }
}

/// Every symbol of the list is well formed.
pub open spec fn syms_ok(cs: Seq<char>, ss: Seq<Node<SeqSym>>) -> bool
    decreases ss,
{
    ss.len() == 0 || (syms_ok(cs, ss.subrange(0, ss.len() - 1)) && sym_ok(cs, ss[ss.len() - 1]))
}

/// The root spans from its first to its last object, and they are well formed.
pub open spec fn root_ok(cs: Seq<char>, r: Node<Root>) -> bool {
    let os = r.data.objects@;
    &&& located(cs, r)
    &&& objects_ok(cs, os)
    &&& if os.len() == 0 {
        r.span == Span { start: 0, end: 0 }
    } else {
        spans(r.span, os[0].span, os[os.len() - 1].span)
    }
}

/// Byte offsets tell characters apart: the offset of index `i` is a
/// boundary, and `char_index` finds `i` again.
pub proof fn lemma_char_index(cs: Seq<char>, i: int)
    requires
        0 <= i <= cs.len(),
    ensures
        boundary(cs, byte_offset(cs, i)),
        char_index(cs, byte_offset(cs, i)) == i,
        pos_at(cs, byte_offset(cs, i)) == pos_of(cs, i),
{
    assert(boundary(cs, byte_offset(cs, i)));
    let j = char_index(cs, byte_offset(cs, i));
    if j < i {
        crate::text::lemma_byte_offset_mono(cs, j, i);
    } else if j > i {
        crate::text::lemma_byte_offset_mono(cs, i, j);
    }
}

/// The leaves of consecutive ranges of tokens add up.
pub proof fn lemma_token_leaves_split(cs: Seq<char>, toks: Seq<Lexeme>, i: int, j: int, k: int)
    requires
        i <= j <= k,
    ensures
        token_leaves(cs, toks, i, j) + token_leaves(cs, toks, j, k) == token_leaves(cs, toks, i, k),
    decreases k - j,
{
    if j < k {
        lemma_token_leaves_split(cs, toks, i, j, k - 1);
    } else {
        assert(token_leaves(cs, toks, j, k) == Set::<Leaf>::empty());
        assert(token_leaves(cs, toks, i, j) + Set::<Leaf>::empty() == token_leaves(cs, toks, i, j));
    }
}

/// The leaves of a single token.
pub proof fn lemma_token_leaves_one(cs: Seq<char>, toks: Seq<Lexeme>, i: int)
    ensures
        token_leaves(cs, toks, i, i + 1) == (if toks[i].token == Token::Comma {
            Set::<Leaf>::empty()
        } else {
            set![token_leaf(cs, toks, i)]
        }),
{
    assert(token_leaves(cs, toks, i, i) == Set::<Leaf>::empty());
}

/// No leaf of an expression is an error token.
proof fn lemma_expr_no_error(e: &Node<Expr>)
    ensures
        forall|sp: Span| !expr_leaves(*e).contains((Token::Error, sp)),
    decreases e,
{
    match &e.data {
        Expr::Unary { operator, operand } => {
            lemma_expr_no_error(operand);
            assert forall|sp: Span| !expr_leaves(*e).contains((Token::Error, sp)) by {
                let a = set![(unary_token(operator.data), operator.span)];
                assert(!a.contains((Token::Error, sp)));
                assert(!expr_leaves(**operand).contains((Token::Error, sp)));
            }
        },
        Expr::Binary { left, operator, right } => {
            lemma_expr_no_error(left);
            lemma_expr_no_error(right);
            assert forall|sp: Span| !expr_leaves(*e).contains((Token::Error, sp)) by {
                let a = set![(binary_token(operator.data), operator.span)];
                assert(!a.contains((Token::Error, sp)));
                assert(!expr_leaves(**left).contains((Token::Error, sp)));
                assert(!expr_leaves(**right).contains((Token::Error, sp)));
            }
        },
        Expr::Paren { lparen, expr, rparen } => {
            lemma_expr_no_error(expr);
            assert forall|sp: Span| !expr_leaves(*e).contains((Token::Error, sp)) by {
                let a = set![(Token::LParen, lparen.span), (Token::RParen, rparen.span)];
                assert(!a.contains((Token::Error, sp)));
                assert(!expr_leaves(**expr).contains((Token::Error, sp)));
            }
        },
        Expr::Object(o) => {
            lemma_object_no_error(o);
            assert forall|sp: Span| !expr_leaves(*e).contains((Token::Error, sp)) by {
                assert(!object_leaves(**o).contains((Token::Error, sp)));
            }
        },
        Expr::Accessor { expr, dot, attribute } => {
            lemma_expr_no_error(expr);
            assert forall|sp: Span| !expr_leaves(*e).contains((Token::Error, sp)) by {
                let a = set![(Token::Dot, dot.span), (Token::Ident, attribute.span)];
                assert(!a.contains((Token::Error, sp)));
                assert(!expr_leaves(**expr).contains((Token::Error, sp)));
            }
        },
        Expr::Call { callee, lparen, arguments, rparen } => {
            lemma_expr_no_error(callee);
            lemma_exprs_no_error(arguments@);
            assert forall|sp: Span| !expr_leaves(*e).contains((Token::Error, sp)) by {
                let a = set![(Token::LParen, lparen.span), (Token::RParen, rparen.span)];
                assert(!a.contains((Token::Error, sp)));
                assert(!expr_leaves(**callee).contains((Token::Error, sp)));
                assert(!exprs_leaves(arguments@).contains((Token::Error, sp)));
            }
        },
        Expr::Sequence(sq) => {
            lemma_sequence_no_error(sq);
            assert forall|sp: Span| !expr_leaves(*e).contains((Token::Error, sp)) by {
                assert(!sequence_leaves(**sq).contains((Token::Error, sp)));
            }
        },
        _ => {
            assert forall|sp: Span| !expr_leaves(*e).contains((Token::Error, sp)) by {
                assert(atom_token(e.data) != Token::Error);
                assert(expr_leaves(*e) == set![(atom_token(e.data), e.span)]);
            }
        },
    }
}

/// No leaf of a list of expressions is an error token.
proof fn lemma_exprs_no_error(es: Seq<Node<Expr>>)
    ensures
        forall|sp: Span| !exprs_leaves(es).contains((Token::Error, sp)),
    decreases es,
{
    if es.len() > 0 {
        let init = es.subrange(0, es.len() - 1);
        lemma_exprs_no_error(init);
        lemma_expr_no_error(&es[es.len() - 1]);
        assert forall|sp: Span| !exprs_leaves(es).contains((Token::Error, sp)) by {
            assert(!exprs_leaves(init).contains((Token::Error, sp)));
            assert(!expr_leaves(es[es.len() - 1]).contains((Token::Error, sp)));
        }
    }
}

/// No leaf of an object is an error token.
proof fn lemma_object_no_error(o: &Node<Object>)
    ensures
        forall|sp: Span| !object_leaves(*o).contains((Token::Error, sp)),
    decreases o,
{
    lemma_attrs_no_error(o.data.attrs@);
    lemma_objects_no_error(o.data.children@);
    assert forall|sp: Span| !object_leaves(*o).contains((Token::Error, sp)) by {
        let a = set![
            (Token::Ident, o.data.name.span),
            (Token::LBrace, o.data.lbrace.span),
            (Token::RBrace, o.data.rbrace.span),
        ];
        assert(!a.contains((Token::Error, sp)));
        assert(!attrs_leaves(o.data.attrs@).contains((Token::Error, sp)));
        assert(!objects_leaves(o.data.children@).contains((Token::Error, sp)));
    }
}

/// No leaf of a list of objects is an error token.
proof fn lemma_objects_no_error(os: Seq<Node<Object>>)
    ensures
        forall|sp: Span| !objects_leaves(os).contains((Token::Error, sp)),
    decreases os,
{
    if os.len() > 0 {
        let init = os.subrange(0, os.len() - 1);
        lemma_objects_no_error(init);
        lemma_object_no_error(&os[os.len() - 1]);
        assert forall|sp: Span| !objects_leaves(os).contains((Token::Error, sp)) by {
            assert(!objects_leaves(init).contains((Token::Error, sp)));
            assert(!object_leaves(os[os.len() - 1]).contains((Token::Error, sp)));
        }
    }
}

/// No leaf of a list of attributes is an error token.
proof fn lemma_attrs_no_error(attrs: Seq<Node<Attribute>>)
    ensures
        forall|sp: Span| !attrs_leaves(attrs).contains((Token::Error, sp)),
    decreases attrs,
{
    if attrs.len() > 0 {
        let init = attrs.subrange(0, attrs.len() - 1);
        let a = attrs[attrs.len() - 1];
        lemma_attrs_no_error(init);
        lemma_expr_no_error(&a.data.value);
        assert forall|sp: Span| !attrs_leaves(attrs).contains((Token::Error, sp)) by {
            let s = set![(Token::Ident, a.data.name.span), (Token::Colon, a.data.colon.span)];
            assert(!s.contains((Token::Error, sp)));
            assert(!expr_leaves(*a.data.value).contains((Token::Error, sp)));
            assert(!attr_leaves(a).contains((Token::Error, sp)));
            assert(!attrs_leaves(init).contains((Token::Error, sp)));
        }
    }
}

/// No leaf of a sequence is an error token.
proof fn lemma_sequence_no_error(sq: &Node<Sequence>)
    ensures
        forall|sp: Span| !sequence_leaves(*sq).contains((Token::Error, sp)),
    decreases sq,
{
    lemma_syms_no_error(sq.data.symbols@);
    assert forall|sp: Span| !sequence_leaves(*sq).contains((Token::Error, sp)) by {
        let a = set![(Token::LLBracket, sq.data.llbracket.span), (Token::RRBracket, sq.data.rrbracket.span)];
        assert(!a.contains((Token::Error, sp)));
        assert(!syms_leaves(sq.data.symbols@).contains((Token::Error, sp)));
        assert(sequence_leaves(*sq) == a + syms_leaves(sq.data.symbols@));
    }
}

/// No leaf of a list of sequence symbols is an error token.
proof fn lemma_syms_no_error(ss: Seq<Node<SeqSym>>)
    ensures
        forall|sp: Span| !syms_leaves(ss).contains((Token::Error, sp)),
    decreases ss,
{
    if ss.len() > 0 {
        let init = ss.subrange(0, ss.len() - 1);
        let last = ss[ss.len() - 1];
        lemma_syms_no_error(init);
        match &last.data {
            SeqSym::Expr(e) => lemma_expr_no_error(e),
            _ => {},
        }
        assert forall|sp: Span| !syms_leaves(ss).contains((Token::Error, sp)) by {
            assert(!syms_leaves(init).contains((Token::Error, sp)));
            match last.data {
                SeqSym::Expr(e) => assert(!expr_leaves(*e).contains((Token::Error, sp))),
                _ => assert(!set![(Token::Note, last.span)].contains((Token::Error, sp))),
            }
            assert(!sym_leaves(last).contains((Token::Error, sp)));
        }
    }
}

/// The leaves of tokens `[i, j)` hold every token in that range but commas.
proof fn lemma_token_leaves_contain(cs: Seq<char>, toks: Seq<Lexeme>, i: int, j: int, k: int)
    requires
        i <= k < j,
        toks[k].token != Token::Comma,
    ensures
        token_leaves(cs, toks, i, j).contains(token_leaf(cs, toks, k)),
    decreases j - i,
{
    if k < j - 1 {
        lemma_token_leaves_contain(cs, toks, i, j - 1, k);
    }
}

/// A text in which the lexer finds input that no token matches has no
/// syntax tree: no tree accounts for an error token. So such a text never
/// parses without errors.
pub proof fn law_error_token_has_no_tree(cs: Seq<char>, root: Node<Root>, k: int)
    requires
        0 <= k < lex_from(cs, 0).len(),
        lex_from(cs, 0)[k].token == Token::Error,
    ensures
        root_leaves(root) != token_leaves(cs, lex_from(cs, 0), 0, lex_from(cs, 0).len() as int),
{
    let toks = lex_from(cs, 0);
    lemma_token_leaves_contain(cs, toks, 0, toks.len() as int, k);
    lemma_objects_no_error(root.data.objects@);
    assert(token_leaf(cs, toks, k).0 == Token::Error);
}

} // verus!
