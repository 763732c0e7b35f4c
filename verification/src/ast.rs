//! The syntax tree of the syn.txt language.
use vstd::prelude::*;
use std::sync::Arc;
use crate::lexer::Span;
use crate::line_map::Pos;
use crate::note::Note;
use crate::rational::Rational;

verus! {

/// Another pointer to the node behind `p`, made by `Arc::clone`; std
/// documents it as pointing to the same allocation, so it holds the same node.
#[verifier::external_body]
pub(crate) fn share<T>(p: &NodePtr<T>) -> (r: NodePtr<T>)
    ensures
        r == *p,
{
    Arc::clone(p)
}

/// A range of positions, end exclusive.
#[derive(Debug, Clone, Copy, PartialEq, Eq, Structural)]
pub struct PosRange {
    pub start: Pos,
    pub end: Pos,
}

/// A piece of syntax with the bytes and positions of the source it stems from.
#[derive(Debug, Clone, PartialEq, Eq)]
pub struct Node<T> {
    pub span: Span,
    pub pos: PosRange,
    pub data: T,
}

pub type NodePtr<T> = Arc<Node<T>>;

impl<T> Node<T> {
    /// Transform the data of the node, keeping its location.
    pub fn map<U, F: FnOnce(T) -> U>(self, f: F) -> (r: Node<U>)
        requires
            f.requires((self.data,)),
        ensures
            r.span == self.span,
            r.pos == self.pos,
            f.ensures((self.data,), r.data),
    {
        Node { span: self.span, pos: self.pos, data: f(self.data) }
    }

    /// Wrap the node into a new node at the same location.
    pub fn nest<U, F: FnOnce(NodePtr<T>) -> U>(self, f: F) -> (r: Node<U>)
        requires
            f.requires((Arc::new(self),)),
        ensures
            r.span == self.span,
            r.pos == self.pos,
            f.ensures((Arc::new(self),), r.data),
    {
        let span = self.span;
        let pos = self.pos;
        Node { span, pos, data: f(Arc::new(self)) }
    }

    /// A node with other data at the same location.
    pub fn replace<U>(&self, data: U) -> (r: Node<U>)
        ensures
            r.span == self.span,
            r.pos == self.pos,
            r.data == data,
    {
        Node { span: self.span, pos: self.pos, data }
    }
}

/// The whole file: a list of objects.
#[derive(Debug, PartialEq, Eq)]
pub struct Root {
    pub objects: Vec<Node<Object>>,
}

/// An object: a name, attributes and nested objects.
#[derive(Debug, PartialEq, Eq)]
pub struct Object {
    pub name: Node<String>,
    pub lbrace: Node<()>,
    pub attrs: Vec<Node<Attribute>>,
    pub children: Vec<Node<Object>>,
    pub rbrace: Node<()>,
}

/// An attribute `name: value` of an object.
#[derive(Debug, PartialEq, Eq)]
pub struct Attribute {
    pub name: Node<String>,
    pub colon: Node<()>,
    pub value: NodePtr<Expr>,
}

/// A floating point literal, kept as the decimal text it was written as
/// (sign, digits, a dot and digits, without underscores).
#[derive(Debug, Clone, PartialEq, Eq)]
pub struct FloatLit {
    pub text: String,
}

/// Expressions.
#[derive(Debug, PartialEq, Eq)]
pub enum Expr {
    String(String),
    Int(i64),
    Ratio(Rational),
    Float(FloatLit),
    Bool(bool),
    Unary { operator: Node<UnaryOp>, operand: NodePtr<Expr> },
    Binary { left: NodePtr<Expr>, operator: Node<BinaryOp>, right: NodePtr<Expr> },
    Paren { lparen: Node<()>, expr: NodePtr<Expr>, rparen: Node<()> },
    Object(NodePtr<Object>),
    Var(String),
    Accessor { expr: NodePtr<Expr>, dot: Node<()>, attribute: Node<String> },
    Call { callee: NodePtr<Expr>, lparen: Node<()>, arguments: Vec<Node<Expr>>, rparen: Node<()> },
    Sequence(NodePtr<Sequence>),
}

/// A sequence of notes `[[ ... ]]`.
#[derive(Debug, PartialEq, Eq)]
pub struct Sequence {
    pub llbracket: Node<()>,
    pub symbols: Vec<Node<SeqSym>>,
    pub rrbracket: Node<()>,
}

/// A symbol of a sequence.
#[derive(Debug, PartialEq, Eq)]
pub enum SeqSym {
    Note { note: Note, duration: Rational },
    Rest { duration: Rational },
    /// A nested expression evaluating to a sequence again that is spliced in its place
    Expr(NodePtr<Expr>),
}

/// Prefix operators.
#[derive(Debug, Clone, Copy, PartialEq, Eq, Structural)]
pub enum UnaryOp {
    Plus,
    Minus,
    Not,
}

/// Infix operators.
#[derive(Debug, Clone, Copy, PartialEq, Eq, Structural)]
pub enum BinaryOp {
    Add,
    Sub,
    Mult,
    Div,
    And,
    Or,
}


/// A callback of a visitor, with the node that it is handed.
pub enum Callback {
    Root(Node<Root>),
    Object(Node<Object>),
    Attribute(Node<Attribute>),
    Expr(Node<Expr>),
    Sequence(Node<Sequence>),
    SeqSym(Node<SeqSym>),
}

/// Handling callback `c` takes the visitor from `a` to `b`: as its
/// `handles` allows, or leaving it as it was, which is what a callback that
/// is not overridden does.
pub open spec fn steps<V: Visitor>(a: V, c: Callback, b: V) -> bool {
    a.handles(c, b) || a == b
}

/// Callbacks for the nodes of a syntax tree, each doing nothing unless
/// overridden. A visitor says in `handles` what its callbacks do to it.
pub trait Visitor: Sized {
    /// Handling callback `c` can take the visitor from `self` to `next`.
    spec fn handles(&self, c: Callback, next: Self) -> bool;

    fn root(&mut self, node: &Node<Root>)
        ensures
            old(self).handles(Callback::Root(*node), *final(self)) || *final(self) == *old(self),
    {
    }

    fn object(&mut self, node: &Node<Object>)
        ensures
            old(self).handles(Callback::Object(*node), *final(self)) || *final(self) == *old(self),
    {
    }

    fn attribute(&mut self, node: &Node<Attribute>)
        ensures
            old(self).handles(Callback::Attribute(*node), *final(self)) || *final(self) == *old(self),
    {
    }

    fn expr(&mut self, node: &Node<Expr>)
        ensures
            old(self).handles(Callback::Expr(*node), *final(self)) || *final(self) == *old(self),
    {
    }

    fn sequence(&mut self, node: &Node<Sequence>)
        ensures
            old(self).handles(Callback::Sequence(*node), *final(self)) || *final(self) == *old(self),
    {
    }

    fn seq_sym(&mut self, node: &Node<SeqSym>)
        ensures
            old(self).handles(Callback::SeqSym(*node), *final(self)) || *final(self) == *old(self),
    {
    }
}

/// The visitor goes from `a` to `b` by handling the callbacks `cs`, one
/// after the other.
pub open spec fn handled<V: Visitor>(a: V, cs: Seq<Callback>, b: V) -> bool
    decreases cs.len(),
{
    if cs.len() == 0 {
        a == b
    } else {
        exists|m: V| handled(a, cs.drop_last(), m) && #[trigger] steps(m, cs.last(), b)
    }
}

/// Handling one more callback extends what was handled.
pub proof fn lemma_handled_push<V: Visitor>(a: V, cs: Seq<Callback>, m: V, c: Callback, b: V)
    requires
        handled(a, cs, m),
        steps(m, c, b),
    ensures
        handled(a, cs.push(c), b),
{
    assert(cs.push(c).drop_last() =~= cs);
    assert(cs.push(c).last() == c);
}

/// Handling two runs of callbacks one after the other handles both.
pub proof fn lemma_handled_concat<V: Visitor>(a: V, s1: Seq<Callback>, m: V, s2: Seq<Callback>, b: V)
    requires
        handled(a, s1, m),
        handled(m, s2, b),
    ensures
        handled(a, s1 + s2, b),
    decreases s2.len(),
{
    if s2.len() == 0 {
        assert(s1 + s2 =~= s1);
    } else {
        let w = choose|w: V| handled(m, s2.drop_last(), w) && #[trigger] steps(w, s2.last(), b);
        lemma_handled_concat(a, s1, m, s2.drop_last(), w);
        assert((s1 + s2.drop_last()).push(s2.last()) =~= s1 + s2);
        lemma_handled_push(a, s1 + s2.drop_last(), w, s2.last(), b);
    }
}

/// Handling a single callback.
pub proof fn lemma_handled_one<V: Visitor>(a: V, c: Callback, b: V)
    requires
        steps(a, c, b),
    ensures
        handled(a, seq![c], b),
{
    assert(handled(a, Seq::<Callback>::empty(), a));
    lemma_handled_push(a, Seq::<Callback>::empty(), a, c, b);
    assert(Seq::<Callback>::empty().push(c) =~= seq![c]);
}

/// A part of a syntax tree that hands itself to the callback for its kind.
pub trait Visit {
    /// The callbacks that visiting makes, in order.
    spec fn visit_calls(&self) -> Seq<Callback>;

    fn visit<V: Visitor>(&self, visitor: &mut V)
        ensures
            handled(*old(visitor), self.visit_calls(), *final(visitor)),
    ;
}

/// A part of a syntax tree that visits its direct parts, in source order.
pub trait Walk {
    /// The callbacks that walking makes, in order: one visit of each direct part.
    spec fn walk_calls(&self) -> Seq<Callback>;

    fn walk<V: Visitor>(&self, visitor: &mut V)
        ensures
            handled(*old(visitor), self.walk_calls(), *final(visitor)),
    ;
}

/// The callbacks of visiting the items one after the other.
pub open spec fn calls_of<T: Visit>(items: Seq<T>) -> Seq<Callback>
    decreases items.len(),
{
    if items.len() == 0 {
        seq![]
    } else {
        calls_of(items.drop_last()) + items.last().visit_calls()
    }
}

impl<T: Visit> Visit for Vec<T> {
    open spec fn visit_calls(&self) -> Seq<Callback> {
        calls_of(self@)
    }

    fn visit<V: Visitor>(&self, visitor: &mut V) {
        let ghost start = *visitor;
        let mut i: usize = 0;
        proof {
            assert(self@.take(0) =~= Seq::<T>::empty());
            assert(handled(start, Seq::<Callback>::empty(), start));
        }
        while i < self.len()
            invariant
                i <= self.len(),
                start == *old(visitor),
                handled(start, calls_of(self@.take(i as int)), *visitor),
            decreases self.len() - i,
        {
            let ghost before = *visitor;
            self[i].visit(visitor);
            proof {
                lemma_handled_concat(start, calls_of(self@.take(i as int)), before, self@[i as int].visit_calls(), *visitor);
                assert(self@.take(i + 1).drop_last() =~= self@.take(i as int));
                assert(self@.take(i + 1).last() == self@[i as int]);
            }
            i = i + 1;
        }
        proof {
            assert(self@.take(self.len() as int) =~= self@);
        }
    }
}

impl<T: Walk> Walk for Arc<T> {
    open spec fn walk_calls(&self) -> Seq<Callback> {
        (**self).walk_calls()
    }

    fn walk<V: Visitor>(&self, visitor: &mut V) {
        (**self).walk(visitor)
    }
}

impl<T: Visit> Visit for Arc<T> {
    open spec fn visit_calls(&self) -> Seq<Callback> {
        (**self).visit_calls()
    }

    fn visit<V: Visitor>(&self, visitor: &mut V) {
        (**self).visit(visitor)
    }
}

impl Visit for Node<Root> {
    open spec fn visit_calls(&self) -> Seq<Callback> {
        seq![Callback::Root(*self)]
    }

    fn visit<V: Visitor>(&self, visitor: &mut V) {
        let ghost start = *visitor;
        visitor.root(self);
        proof {
            lemma_handled_one(start, Callback::Root(*self), *visitor);
        }
    }
}

impl Visit for Node<Object> {
    open spec fn visit_calls(&self) -> Seq<Callback> {
        seq![Callback::Object(*self)]
    }

    fn visit<V: Visitor>(&self, visitor: &mut V) {
        let ghost start = *visitor;
        visitor.object(self);
        proof {
            lemma_handled_one(start, Callback::Object(*self), *visitor);
        }
    }
}

impl Visit for Node<Attribute> {
    open spec fn visit_calls(&self) -> Seq<Callback> {
        seq![Callback::Attribute(*self)]
    }

    fn visit<V: Visitor>(&self, visitor: &mut V) {
        let ghost start = *visitor;
        visitor.attribute(self);
        proof {
            lemma_handled_one(start, Callback::Attribute(*self), *visitor);
        }
    }
}

impl Visit for Node<Expr> {
    open spec fn visit_calls(&self) -> Seq<Callback> {
        seq![Callback::Expr(*self)]
    }

    fn visit<V: Visitor>(&self, visitor: &mut V) {
        let ghost start = *visitor;
        visitor.expr(self);
        proof {
            lemma_handled_one(start, Callback::Expr(*self), *visitor);
        }
    }
}

impl Visit for Node<Sequence> {
    open spec fn visit_calls(&self) -> Seq<Callback> {
        seq![Callback::Sequence(*self)]
    }

    fn visit<V: Visitor>(&self, visitor: &mut V) {
        let ghost start = *visitor;
        visitor.sequence(self);
        proof {
            lemma_handled_one(start, Callback::Sequence(*self), *visitor);
        }
    }
}

impl Visit for Node<SeqSym> {
    open spec fn visit_calls(&self) -> Seq<Callback> {
        seq![Callback::SeqSym(*self)]
    }

    fn visit<V: Visitor>(&self, visitor: &mut V) {
        let ghost start = *visitor;
        visitor.seq_sym(self);
        proof {
            lemma_handled_one(start, Callback::SeqSym(*self), *visitor);
        }
    }
}

impl<T: Walk> Walk for Node<T> {
    open spec fn walk_calls(&self) -> Seq<Callback> {
        self.data.walk_calls()
    }

    fn walk<V: Visitor>(&self, visitor: &mut V) {
        self.data.walk(visitor);
    }
}

impl Walk for Root {
    open spec fn walk_calls(&self) -> Seq<Callback> {
        self.objects.visit_calls()
    }

    fn walk<V: Visitor>(&self, visitor: &mut V) {
        self.objects.visit(visitor)
    }
}

impl Walk for Object {
    open spec fn walk_calls(&self) -> Seq<Callback> {
        self.attrs.visit_calls() + self.children.visit_calls()
    }

    fn walk<V: Visitor>(&self, visitor: &mut V) {
        let ghost start = *visitor;
        self.attrs.visit(visitor);
        let ghost mid = *visitor;
        self.children.visit(visitor);
        proof {
            lemma_handled_concat(start, self.attrs.visit_calls(), mid, self.children.visit_calls(), *visitor);
        }
    }
}

impl Walk for Attribute {
    open spec fn walk_calls(&self) -> Seq<Callback> {
        self.value.visit_calls()
    }

    fn walk<V: Visitor>(&self, visitor: &mut V) {
        self.value.visit(visitor);
    }
}

impl Walk for Expr {
    open spec fn walk_calls(&self) -> Seq<Callback> {
        match self {
            Expr::Unary { operand, .. } => operand.visit_calls(),
            Expr::Binary { left, right, .. } => left.visit_calls() + right.visit_calls(),
            Expr::Paren { expr, .. } => expr.visit_calls(),
            Expr::Object(obj) => obj.visit_calls(),
            Expr::Accessor { expr, .. } => expr.visit_calls(),
            Expr::Call { callee, arguments, .. } => callee.visit_calls() + arguments.visit_calls(),
            Expr::Sequence(seq) => seq.visit_calls(),
            _ => seq![],
        }
    }

    fn walk<V: Visitor>(&self, visitor: &mut V) {
        let ghost start = *visitor;
        match self {
            Expr::String(_) => {},
            Expr::Int(_) => {},
            Expr::Ratio(_) => {},
            Expr::Float(_) => {},
            Expr::Bool(_) => {},
            Expr::Var(_) => {},
            Expr::Unary { operand, .. } => {
                operand.visit(visitor);
            },
            Expr::Binary { left, right, .. } => {
                left.visit(visitor);
                let ghost mid = *visitor;
                right.visit(visitor);
                proof {
                    lemma_handled_concat(start, left.visit_calls(), mid, right.visit_calls(), *visitor);
                }
            },
            Expr::Paren { expr, .. } => {
                expr.visit(visitor);
            },
            Expr::Object(obj) => {
                obj.visit(visitor);
            },
            Expr::Accessor { expr, .. } => {
                expr.visit(visitor);
            },
            Expr::Call { callee, arguments, .. } => {
                callee.visit(visitor);
                let ghost mid = *visitor;
                arguments.visit(visitor);
                proof {
                    lemma_handled_concat(start, callee.visit_calls(), mid, arguments.visit_calls(), *visitor);
                }
            },
            Expr::Sequence(seq) => {
                seq.visit(visitor);
            },
        }
    }
}

impl Walk for Sequence {
    open spec fn walk_calls(&self) -> Seq<Callback> {
        self.symbols.visit_calls()
    }

    fn walk<V: Visitor>(&self, visitor: &mut V) {
        self.symbols.visit(visitor);
    }
}

impl Walk for SeqSym {
    open spec fn walk_calls(&self) -> Seq<Callback> {
        match self {
            SeqSym::Expr(expr) => expr.visit_calls(),
            _ => seq![],
        }
    }

    fn walk<V: Visitor>(&self, visitor: &mut V) {
        match self {
            // These are leaves that cannot be walked further
            SeqSym::Note { .. } => {},
            SeqSym::Rest { .. } => {},
            // Visit the nested parts
            SeqSym::Expr(expr) => {
                expr.visit(visitor);
            },
        }
    }
}

} // verus!
