//! Evaluating the syntax tree into a more concrete description of the song:
//! objects with attributes, whose values are computed lazily by thunks.
use vstd::prelude::*;
use crate::ast::{share, Attribute, BinaryOp, Expr, FloatLit, Node, NodePtr, Object as AstObject, PosRange, Root, SeqSym, Sequence, UnaryOp};
use crate::lexer::Span;
use crate::rational::Rational;
use crate::text::{chars_of, nat_digits, push_nat_digits, push_str};

verus! {

/// Index of an object in a context.
#[derive(Debug, Copy, Clone, PartialEq, Eq, Structural)]
pub struct ObjectId(usize);

/// Index of a thunk in a context.
#[derive(Debug, Copy, Clone, PartialEq, Eq, Structural)]
pub struct ThunkId(usize);

/// Index of a scope in a context.
#[derive(Debug, Copy, Clone, PartialEq, Eq, Structural)]
pub struct ScopeId(usize);

impl ObjectId {
    /// The index.
    pub closed spec fn index(self) -> int {
        self.0 as int
    }
}

impl ThunkId {
    /// The index.
    pub closed spec fn index(self) -> int {
        self.0 as int
    }
}

impl ScopeId {
    /// The index.
    pub closed spec fn index(self) -> int {
        self.0 as int
    }
}

/// The value of an expression.
#[derive(Debug, Clone, PartialEq, Eq)]
pub enum Value {
    Int(i64),
    /// A floating point number, kept as the decimal text it was written as.
    Float(FloatLit),
    Ratio(Rational),
    String(String),
    Bool(bool),
    Object(ObjectId),
}

impl Value {
    /// The boolean, if the value is one.
    pub fn as_bool(&self) -> (r: Option<bool>)
        ensures
            r == (match *self {
                Value::Bool(b) => Some(b),
                _ => None,
            }),
    {
        if let Value::Bool(v) = self {
            Some(*v)
        } else {
            None
        }
    }

    /// The object, if the value is one.
    pub fn as_object(&self) -> (r: Option<ObjectId>)
        ensures
            r == (match *self {
                Value::Object(o) => Some(o),
                _ => None,
            }),
    {
        if let Value::Object(v) = self {
            Some(*v)
        } else {
            None
        }
    }

    /// The boolean, if the value is one.
    pub open spec fn as_bool_spec(self) -> Option<bool> {
        match self {
            Value::Bool(b) => Some(b),
            _ => None,
        }
    }

    /// A copy of the value.
    pub fn duplicate(&self) -> (r: Value)
        ensures
            r == *self,
    {
        match self {
            Value::Int(x) => Value::Int(*x),
            Value::Float(f) => Value::Float(FloatLit { text: f.text.clone() }),
            Value::Ratio(x) => Value::Ratio(*x),
            Value::String(s) => Value::String(s.clone()),
            Value::Bool(b) => Value::Bool(*b),
            Value::Object(o) => Value::Object(*o),
        }
    }
}

/// A named binding or attribute: the name and the thunk it refers to.
/// Scopes and objects keep these in a list whose names are unique: vstd
/// specifies `HashMap` only for keys that obey its key model, which it
/// establishes for integer and boolean keys and not for `String`.
pub type Entry = (String, ThunkId);

/// The thunk that the last entry with the given name refers to.
pub open spec fn find_entry(es: Seq<Entry>, name: Seq<char>) -> Option<ThunkId>
    decreases es.len(),
{
    if es.len() == 0 {
        None
    } else if es.last().0@ == name {
        Some(es.last().1)
    } else {
        find_entry(es.drop_last(), name)
    }
}

/// No name occurs twice among the entries.
pub open spec fn unique_names(es: Seq<Entry>) -> bool {
    forall|i: int, j: int| 0 <= i < j < es.len() ==> es[i].0@ != es[j].0@
}

/// Every entry refers to one of the first `n` thunks.
pub open spec fn entries_below(es: Seq<Entry>, n: int) -> bool {
    forall|i: int| 0 <= i < es.len() ==> (#[trigger] es[i]).1.index() < n
}

/// An object of the song description: its kind (the name it was written
/// with), its optional id, its attributes and its nested objects.
#[derive(Debug, PartialEq, Eq)]
pub struct Object {
    kind: String,
    id: Option<String>,
    attrs: Vec<Entry>,
    children: Vec<ObjectId>,
}

impl Object {
    /// The kind of the object.
    pub closed spec fn kind_view(&self) -> Seq<char> {
        self.kind@
    }

    /// The id of the object, if it has one.
    pub closed spec fn id_view(&self) -> Option<Seq<char>> {
        match self.id {
            Some(s) => Some(s@),
            None => None,
        }
    }

    /// The attributes of the object.
    pub closed spec fn attrs_view(&self) -> Seq<Entry> {
        self.attrs@
    }

    /// The nested objects.
    pub closed spec fn children_view(&self) -> Seq<ObjectId> {
        self.children@
    }

    /// The kind of the object.
    pub fn kind(&self) -> (r: &str)
        ensures
            r@ == self.kind_view(),
    {
        self.kind.as_str()
    }

    /// The thunk of the attribute with the given name.
    pub fn attr(&self, name: &str) -> (r: Option<ThunkId>)
        ensures
            r == find_entry(self.attrs_view(), name@),
    {
        find_in(&self.attrs, name)
    }

    /// The nested objects.
    pub fn children(&self) -> (r: &[ObjectId])
        ensures
            r@ == self.children_view(),
    {
        self.children.as_slice()
    }
}

/// A lazily computed value: an expression with the scope it is evaluated
/// in, the same while it is being evaluated, or its value.
#[derive(Debug)]
pub enum Thunk {
    Unevaluated { scope: ScopeId, expr: NodePtr<Expr> },
    Evaluating { expr: NodePtr<Expr> },
    Evaluated(Value),
}

/// The names visible at some place, and the scope around it.
#[derive(Debug)]
pub struct Scope {
    parent: Option<ScopeId>,
    bindings: Vec<Entry>,
}

impl Scope {
    /// The enclosing scope.
    pub closed spec fn parent_view(&self) -> Option<ScopeId> {
        self.parent
    }

    /// The names bound in this scope.
    pub closed spec fn bindings_view(&self) -> Seq<Entry> {
        self.bindings@
    }

    /// An empty scope inside `parent`.
    pub fn new(parent: Option<ScopeId>) -> (s: Scope)
        ensures
            s.parent_view() == parent,
            s.bindings_view().len() == 0,
    {
        Self { parent, bindings: Vec::new() }
    }
}

/// An error found while evaluating, with the place it was found at.
#[derive(Debug)]
pub struct EvalError {
    pub span: Span,
    pub pos: PosRange,
    pub message: String,
}

/// Whether two texts are the same.
fn same_text(a: &str, b: &str) -> (r: bool)
    ensures
        r == (a@ == b@),
{
    let x = chars_of(a);
    let y = chars_of(b);
    if x.len() != y.len() {
        return false;
    }
    let mut i: usize = 0;
    while i < x.len()
        invariant
            i <= x.len() == y.len(),
            x@ == a@,
            y@ == b@,
            forall|j: int| 0 <= j < i ==> x@[j] == y@[j],
        decreases x.len() - i,
    {
        if x[i] != y[i] {
            return false;
        }
        i = i + 1;
    }
    proof {
        assert(x@ == y@);
    }
    true
}

/// The thunk that the last entry named `name` refers to.
fn find_in(es: &Vec<Entry>, name: &str) -> (r: Option<ThunkId>)
    ensures
        r == find_entry(es@, name@),
{
    let mut i = es.len();
    proof {
        assert(es@.subrange(0, i as int) == es@);
    }
    while i > 0
        invariant
            i <= es.len(),
            find_entry(es@, name@) == find_entry(es@.subrange(0, i as int), name@),
        decreases i,
    {
        proof {
            assert(es@.subrange(0, i as int).drop_last() == es@.subrange(0, i - 1));
        }
        if same_text(es[i - 1].0.as_str(), name) {
            return Some(es[i - 1].1);
        }
        i = i - 1;
    }
    None
}

/// The index of the entry named `name`, if there is one.
fn position_in(es: &Vec<Entry>, name: &str) -> (r: Option<usize>)
    ensures
        match r {
            Some(i) => i < es@.len() && es@[i as int].0@ == name@,
            None => forall|i: int| 0 <= i < es@.len() ==> es@[i].0@ != name@,
        },
{
    let mut i: usize = 0;
    while i < es.len()
        invariant
            i <= es.len(),
            forall|j: int| 0 <= j < i ==> es@[j].0@ != name@,
        decreases es.len() - i,
    {
        if same_text(es[i].0.as_str(), name) {
            return Some(i);
        }
        i = i + 1;
    }
    None
}

/// Without a duplicate name, the entry found for a name is the one at its position.
proof fn lemma_find_unique(es: Seq<Entry>, i: int)
    requires
        unique_names(es),
        0 <= i < es.len(),
    ensures
        find_entry(es, es[i].0@) == Some(es[i].1),
    decreases es.len(),
{
    if i < es.len() - 1 {
        assert(es.drop_last()[i] == es[i]);
        lemma_find_unique(es.drop_last(), i);
    }
}

/// A name at no position is not found.
proof fn lemma_find_absent(es: Seq<Entry>, name: Seq<char>)
    requires
        forall|i: int| 0 <= i < es.len() ==> es[i].0@ != name,
    ensures
        find_entry(es, name) is None,
    decreases es.len(),
{
    if es.len() > 0 {
        lemma_find_absent(es.drop_last(), name);
    }
}

/// Insert an entry, replacing the thunk of an entry of the same name; the
/// result tells whether there was one.
fn insert_entry(es: &mut Vec<Entry>, name: String, value: ThunkId) -> (replaced: bool)
    requires
        unique_names(old(es)@),
    ensures
        unique_names(final(es)@),
        replaced == find_entry(old(es)@, name@) is Some,
        find_entry(final(es)@, name@) == Some(value),
        forall|other: Seq<char>| other != name@ ==> find_entry(final(es)@, other) == find_entry(old(es)@, other),
        forall|i: int| 0 <= i < final(es)@.len() ==> (#[trigger] final(es)@[i]).1 == value || exists|j: int|
            0 <= j < old(es)@.len() && final(es)@[i] == old(es)@[j],
        forall|i: int| 0 <= i < old(es)@.len() ==> exists|j: int| 0 <= j < final(es)@.len() && (#[trigger] final(es)@[j]).0@
            == (#[trigger] old(es)@[i]).0@,
{
    match position_in(es, name.as_str()) {
        Some(i) => {
            proof {
                lemma_find_unique(old(es)@, i as int);
            }
            es.set(i, (name, value));
            proof {
                let o = old(es)@;
                let n = es@;
                assert forall|x: int, y: int| 0 <= x < y < n.len() implies n[x].0@ != n[y].0@ by {
                    if x != i && y != i {
                        assert(n[x] == o[x] && n[y] == o[y]);
                    }
                }
                lemma_find_unique(n, i as int);
                assert forall|other: Seq<char>| other != name@ implies find_entry(n, other) == find_entry(o, other) by {
                    lemma_find_update(o, i as int, (name, value), other);
                }
                assert forall|k: int| 0 <= k < o.len() implies exists|j: int| 0 <= j < n.len() && (#[trigger] n[j]).0@
                    == (#[trigger] o[k]).0@ by {
                    assert(n[k].0@ == o[k].0@);
                }
            }
            true
        },
        None => {
            proof {
                lemma_find_absent(old(es)@, name@);
            }
            es.push((name, value));
            proof {
                let o = old(es)@;
                let n = es@;
                assert(n.drop_last() == o);
                assert forall|k: int| 0 <= k < o.len() implies exists|j: int| 0 <= j < n.len() && (#[trigger] n[j]).0@
                    == (#[trigger] o[k]).0@ by {
                    assert(n[k] == o[k]);
                }
            }
            false
        },
    }
}

/// Replacing an entry by one of the same name leaves what other names find.
proof fn lemma_find_update(es: Seq<Entry>, i: int, e: Entry, other: Seq<char>)
    requires
        0 <= i < es.len(),
        e.0@ == es[i].0@,
        other != e.0@,
    ensures
        find_entry(es.update(i, e), other) == find_entry(es, other),
    decreases es.len(),
{
    let n = es.update(i, e);
    if i < es.len() - 1 {
        assert(n.drop_last() == es.drop_last().update(i, e));
        lemma_find_update(es.drop_last(), i, e, other);
    } else {
        assert(n.drop_last() == es.drop_last());
    }
}


/// The cost bound of evaluating an expression: its number of nodes, where
/// an object literal counts each attribute once more for its thunk.
pub open spec fn expr_size(e: Node<Expr>) -> nat
    decreases e,
{
    match e.data {
        Expr::Unary { operand, .. } => 1 + expr_size(*operand),
        Expr::Binary { left, right, .. } => 1 + expr_size(*left) + expr_size(*right),
        Expr::Paren { expr, .. } => 1 + expr_size(*expr),
        Expr::Object(o) => 1 + object_size(*o),
        Expr::Accessor { expr, .. } => 1 + expr_size(*expr),
        Expr::Call { callee, .. } => 1 + expr_size(*callee),
        _ => 1,
    }
}

/// The size of an object literal: its attributes with a thunk each, and its
/// nested objects.
pub open spec fn object_size(o: Node<AstObject>) -> nat
    decreases o,
{
    1 + attrs_size(o.data.attrs@) + objects_size(o.data.children@)
}

/// The sizes of the attributes, one more each for its thunk.
pub open spec fn attrs_size(attrs: Seq<Node<Attribute>>) -> nat
    decreases attrs,
{
    if attrs.len() == 0 {
        0
    } else {
        attrs_size(attrs.subrange(0, attrs.len() - 1)) + expr_size(*attrs[attrs.len() - 1].data.value) + 1
    }
}

/// The sizes of nested objects.
pub open spec fn objects_size(os: Seq<Node<AstObject>>) -> nat
    decreases os,
{
    if os.len() == 0 {
        0
    } else {
        objects_size(os.subrange(0, os.len() - 1)) + object_size(os[os.len() - 1])
    }
}

/// What a thunk still has to evaluate.
pub open spec fn thunk_weight(t: Thunk) -> nat {
    match t {
        Thunk::Unevaluated { expr, .. } => expr_size(*expr) + 1,
        _ => 0,
    }
}

/// What all thunks still have to evaluate; evaluation only ever lowers it,
/// apart from the thunks of new object literals.
pub open spec fn pending(ts: Seq<Thunk>) -> nat
    decreases ts.len(),
{
    if ts.len() == 0 {
        0
    } else {
        pending(ts.drop_last()) + thunk_weight(ts.last())
    }
}

/// A value refers to one of the first `n` objects, if it refers to one.
pub open spec fn value_ok(v: Value, n: int) -> bool {
    v matches Value::Object(o) ==> o.index() < n
}

/// A thunk refers to existing scopes and objects.
pub open spec fn thunk_ok(t: Thunk, scopes: int, objects: int) -> bool {
    match t {
        Thunk::Unevaluated { scope, .. } => scope.index() < scopes,
        Thunk::Evaluated(v) => value_ok(v, objects),
        _ => true,
    }
}

/// The scope with index `i` lies inside an earlier one, binds each name
/// once, and refers to existing thunks.
pub open spec fn scope_ok(s: Scope, i: int, thunks: int) -> bool {
    &&& s.parent_view() matches Some(p) ==> p.index() < i
    &&& unique_names(s.bindings_view())
    &&& entries_below(s.bindings_view(), thunks)
}

/// An object has each attribute once and refers to existing thunks and objects.
pub open spec fn object_ok(o: Object, thunks: int, objects: int) -> bool {
    &&& unique_names(o.attrs_view())
    &&& entries_below(o.attrs_view(), thunks)
    &&& forall|k: int| 0 <= k < o.children_view().len() ==> (#[trigger] o.children_view()[k]).index() < objects
}

/// The thunk a name refers to, looked up from scope `s` outwards.
pub open spec fn lookup_from(ss: Seq<Scope>, s: int, name: Seq<char>) -> Option<ThunkId>
    decreases s,
{
    if !(0 <= s < ss.len()) {
        None
    } else {
        match find_entry(ss[s].bindings_view(), name) {
            Some(t) => Some(t),
            None => match ss[s].parent_view() {
                Some(p) => if 0 <= p.index() < s {
                    lookup_from(ss, p.index(), name)
                } else {
                    None
                },
                None => None,
            },
        }
    }
}

/// The value of a thunk, once evaluated.
pub open spec fn thunk_value(ts: Seq<Thunk>, t: ThunkId) -> Option<Value> {
    if 0 <= t.index() < ts.len() {
        match ts[t.index()] {
            Thunk::Evaluated(v) => Some(v),
            _ => None,
        }
    } else {
        None
    }
}

/// The expression holds no object literal, whose evaluation creates objects.
pub open spec fn object_free(e: Node<Expr>) -> bool
    decreases e,
{
    match e.data {
        Expr::Unary { operand, .. } => object_free(*operand),
        Expr::Binary { left, right, .. } => object_free(*left) && object_free(*right),
        Expr::Paren { expr, .. } => object_free(*expr),
        Expr::Object(_) => false,
        Expr::Accessor { expr, .. } => object_free(*expr),
        _ => true,
    }
}

/// The expression behind a reference holds no object literal.
pub open spec fn object_free_at(e: &Node<Expr>) -> bool {
    object_free(*e)
}

/// The value of an object-free expression in scope `s`, given the thunks,
/// objects and scopes of a context: literals stand for themselves, `not`,
/// `and` and `or` work on booleans (`and` and `or` look at their right side
/// only when the left does not decide), a variable and an attribute have the
/// value their thunk was evaluated to, and everything else has no value.
pub open spec fn value_in(ts: Seq<Thunk>, os: Seq<Object>, ss: Seq<Scope>, e: Node<Expr>, s: int) -> Option<Value>
    decreases e,
{
    match e.data {
        Expr::String(x) => Some(Value::String(x)),
        Expr::Int(x) => Some(Value::Int(x)),
        Expr::Ratio(x) => Some(Value::Ratio(x)),
        Expr::Float(x) => Some(Value::Float(x)),
        Expr::Bool(x) => Some(Value::Bool(x)),
        Expr::Unary { operator, operand } => match operator.data {
            UnaryOp::Not => match value_in(ts, os, ss, *operand, s) {
                Some(Value::Bool(b)) => Some(Value::Bool(!b)),
                _ => None,
            },
            _ => None,
        },
        Expr::Binary { left, operator, right } => match operator.data {
            BinaryOp::And => match value_in(ts, os, ss, *left, s) {
                Some(Value::Bool(false)) => Some(Value::Bool(false)),
                Some(Value::Bool(true)) => match value_in(ts, os, ss, *right, s) {
                    Some(Value::Bool(b)) => Some(Value::Bool(b)),
                    _ => None,
                },
                _ => None,
            },
            BinaryOp::Or => match value_in(ts, os, ss, *left, s) {
                Some(Value::Bool(true)) => Some(Value::Bool(true)),
                Some(Value::Bool(false)) => match value_in(ts, os, ss, *right, s) {
                    Some(Value::Bool(b)) => Some(Value::Bool(b)),
                    _ => None,
                },
                _ => None,
            },
            _ => None,
        },
        Expr::Paren { expr, .. } => value_in(ts, os, ss, *expr, s),
        Expr::Var(name) => match lookup_from(ss, s, name@) {
            Some(t) => thunk_value(ts, t),
            None => None,
        },
        Expr::Accessor { expr, attribute, .. } => match value_in(ts, os, ss, *expr, s) {
            Some(Value::Object(o)) => if 0 <= o.index() < os.len() {
                match find_entry(os[o.index()].attrs_view(), attribute.data@) {
                    Some(t) => thunk_value(ts, t),
                    None => None,
                }
            } else {
                None
            },
            _ => None,
        },
        _ => None,
    }
}

/// The value is a boolean, or there is none.
pub open spec fn bool_or_none(v: Option<Value>) -> bool {
    match v {
        Some(Value::Bool(_)) => true,
        None => true,
        _ => false,
    }
}

/// The value of an expression that evaluation reaches without reading any
/// variable, attribute or object: literals, `not`, the operands of `and` and
/// `or` that are evaluated (the right one only where the left one does not
/// decide), and parentheses; the operators that have no value yet give none.
pub open spec fn quiet_value(e: Node<Expr>) -> Option<Value>
    decreases e,
{
    match e.data {
        Expr::String(x) => Some(Value::String(x)),
        Expr::Int(x) => Some(Value::Int(x)),
        Expr::Ratio(x) => Some(Value::Ratio(x)),
        Expr::Float(x) => Some(Value::Float(x)),
        Expr::Bool(x) => Some(Value::Bool(x)),
        Expr::Unary { operator, operand } => match operator.data {
            UnaryOp::Not => match quiet_value(*operand) {
                Some(Value::Bool(b)) => Some(Value::Bool(!b)),
                _ => None,
            },
            _ => None,
        },
        Expr::Binary { left, operator, right } => match operator.data {
            BinaryOp::And => match quiet_value(*left) {
                Some(Value::Bool(false)) => Some(Value::Bool(false)),
                Some(Value::Bool(true)) => match quiet_value(*right) {
                    Some(Value::Bool(b)) => Some(Value::Bool(b)),
                    _ => None,
                },
                _ => None,
            },
            BinaryOp::Or => match quiet_value(*left) {
                Some(Value::Bool(true)) => Some(Value::Bool(true)),
                Some(Value::Bool(false)) => match quiet_value(*right) {
                    Some(Value::Bool(b)) => Some(Value::Bool(b)),
                    _ => None,
                },
                _ => None,
            },
            _ => None,
        },
        Expr::Paren { expr, .. } => quiet_value(*expr),
        _ => None,
    }
}

/// Evaluating the expression reads no variable, attribute or object and
/// reports no error: every part that evaluation reaches is a literal, `not`,
/// `and`, `or`, parentheses or an operator that has no value yet, and every
/// operand that must be a boolean is one or has no value. A right operand
/// that the left one decides is not reached.
pub open spec fn quiet(e: Node<Expr>) -> bool
    decreases e,
{
    match e.data {
        Expr::String(_) => true,
        Expr::Int(_) => true,
        Expr::Ratio(_) => true,
        Expr::Float(_) => true,
        Expr::Bool(_) => true,
        Expr::Unary { operator, operand } => match operator.data {
            UnaryOp::Not => quiet(*operand) && bool_or_none(quiet_value(*operand)),
            _ => true,
        },
        Expr::Binary { left, operator, right } => match operator.data {
            BinaryOp::And => quiet(*left) && match quiet_value(*left) {
                None => true,
                Some(Value::Bool(false)) => true,
                Some(Value::Bool(true)) => quiet(*right) && bool_or_none(quiet_value(*right)),
                _ => false,
            },
            BinaryOp::Or => quiet(*left) && match quiet_value(*left) {
                None => true,
                Some(Value::Bool(true)) => true,
                Some(Value::Bool(false)) => quiet(*right) && bool_or_none(quiet_value(*right)),
                _ => false,
            },
            _ => true,
        },
        Expr::Paren { expr, .. } => quiet(*expr),
        Expr::Call { .. } => true,
        Expr::Sequence(_) => true,
        _ => false,
    }
}

/// A thunk stays as it is, or an unevaluated one moves on to being evaluated
/// or to its value: the thunks being evaluated stay so until the evaluation
/// that started them ends, and an evaluated thunk keeps its value.
pub open spec fn progressed(a: Thunk, b: Thunk) -> bool {
    b == a || (a is Unevaluated && !(b is Unevaluated))
}

/// The state of an evaluation: thunks, objects, scopes and the errors found.
#[derive(Debug)]
pub struct Context {
    thunks: Vec<Thunk>,
    objects: Vec<Object>,
    scopes: Vec<Scope>,
    errors: Vec<EvalError>,
}

impl Context {
    /// The thunks.
    pub closed spec fn thunks_view(&self) -> Seq<Thunk> {
        self.thunks@
    }

    /// The objects.
    pub closed spec fn objects_view(&self) -> Seq<Object> {
        self.objects@
    }

    /// The scopes.
    pub closed spec fn scopes_view(&self) -> Seq<Scope> {
        self.scopes@
    }

    /// The errors found so far.
    pub closed spec fn errors_view(&self) -> Seq<EvalError> {
        self.errors@
    }

    /// Every thunk, scope and object refers only to existing ones.
    pub open spec fn wf(&self) -> bool {
        let ts = self.thunks_view();
        let os = self.objects_view();
        let ss = self.scopes_view();
        &&& forall|t: int| 0 <= t < ts.len() ==> thunk_ok(#[trigger] ts[t], ss.len() as int, os.len() as int)
        &&& forall|s: int| 0 <= s < ss.len() ==> scope_ok(#[trigger] ss[s], s, ts.len() as int)
        &&& forall|o: int| 0 <= o < os.len() ==> object_ok(#[trigger] os[o], ts.len() as int, os.len() as int)
    }

    /// `self` grew from `old`: thunks only moved on, objects and errors were
    /// only added, and scopes were only added, apart from new bindings in
    /// scope `changed`.
    pub open spec fn extends(&self, old: &Context, changed: int) -> bool {
        &&& old.thunks_view().len() <= self.thunks_view().len()
        &&& forall|t: int| 0 <= t < old.thunks_view().len() ==> progressed(
            #[trigger] old.thunks_view()[t],
            self.thunks_view()[t],
        )
        &&& old.objects_view().len() <= self.objects_view().len()
        &&& forall|o: int| 0 <= o < old.objects_view().len() ==> #[trigger] self.objects_view()[o] == old.objects_view()[o]
        &&& old.scopes_view().len() <= self.scopes_view().len()
        &&& forall|s: int| 0 <= s < old.scopes_view().len() && s != changed ==> #[trigger] self.scopes_view()[s]
            == old.scopes_view()[s]
        &&& old.errors_view().len() <= self.errors_view().len()
        &&& forall|k: int| 0 <= k < old.errors_view().len() ==> #[trigger] self.errors_view()[k] == old.errors_view()[k]
    }

    /// `self` keeps what `old` had computed: its evaluated thunks, its
    /// objects and its scopes.
    pub open spec fn keeps(&self, old: &Context) -> bool {
        &&& old.thunks_view().len() <= self.thunks_view().len()
        &&& forall|t: int| 0 <= t < old.thunks_view().len() && (#[trigger] old.thunks_view()[t]) is Evaluated
            ==> self.thunks_view()[t] == old.thunks_view()[t]
        &&& old.objects_view().len() <= self.objects_view().len()
        &&& forall|o: int| 0 <= o < old.objects_view().len() ==> #[trigger] self.objects_view()[o] == old.objects_view()[o]
        &&& old.scopes_view().len() <= self.scopes_view().len()
        &&& forall|s: int| 0 <= s < old.scopes_view().len() ==> #[trigger] self.scopes_view()[s] == old.scopes_view()[s]
    }

    /// Evaluation went right since `old`: every thunk that was unevaluated
    /// in `old`, with an object-free expression, and has a value now, has the
    /// value of its expression; and a thunk left being evaluated that was not
    /// so in `old` has failed, with an error reported since.
    pub open spec fn sound_since(&self, old: &Context) -> bool {
        &&& forall|t: int|
            0 <= t < old.thunks_view().len() ==> match #[trigger] old.thunks_view()[t] {
                Thunk::Unevaluated { scope, expr } => object_free(*expr) ==> (self.thunks_view()[t] matches Thunk::Evaluated(
                    v,
                ) ==> self.value_of(*expr, scope.index()) == Some(v)),
                _ => true,
            }
        &&& forall|t: int|
            0 <= t < self.thunks_view().len() && #[trigger] self.thunks_view()[t] is Evaluating && !(t
                < old.thunks_view().len() && old.thunks_view()[t] is Evaluating) ==> old.errors_view().len()
                < self.errors_view().len()
    }

    /// Scope `s` binds `v` to a thunk that holds the object `o`.
    pub open spec fn binds_object(&self, s: int, v: Seq<char>, o: ObjectId) -> bool {
        find_entry(self.scopes_view()[s].bindings_view(), v) matches Some(t) && self.thunks_view()[t.index()]
            == Thunk::Evaluated(Value::Object(o))
    }

    /// Attribute `name` of object `o` has a thunk, and if it was evaluated
    /// its value is that of the expression `e` in scope `s`.
    pub open spec fn attr_evaluated(&self, o: Object, name: Seq<char>, e: Node<Expr>, s: int) -> bool {
        find_entry(o.attrs_view(), name) matches Some(t) && (self.thunks_view()[t.index()] matches Thunk::Evaluated(v)
            ==> self.value_of(e, s) == Some(v))
    }

    /// The value of an object-free expression in scope `s` of this context.
    pub open spec fn value_of(&self, e: Node<Expr>, s: int) -> Option<Value> {
        value_in(self.thunks_view(), self.objects_view(), self.scopes_view(), e, s)
    }

    /// The value of an object-free expression behind a reference.
    pub open spec fn value_at(&self, e: &Node<Expr>, s: int) -> Option<Value> {
        self.value_of(*e, s)
    }

    /// What the thunks still have to evaluate.
    pub open spec fn pending_work(&self) -> nat {
        pending(self.thunks_view())
    }

    /// An empty context.
    pub fn new() -> (c: Context)
        ensures
            c.wf(),
            c.thunks_view().len() == 0,
            c.objects_view().len() == 0,
            c.scopes_view().len() == 0,
            c.errors_view().len() == 0,
    {
        Self { thunks: Vec::new(), objects: Vec::new(), scopes: Vec::new(), errors: Vec::new() }
    }

    /// A new object of the given kind, without id, attributes or nested objects.
    pub fn create_object(&mut self, kind: String) -> (id: ObjectId)
        ensures
            id.index() == old(self).objects_view().len(),
            final(self).objects_view().len() == old(self).objects_view().len() + 1,
            final(self).objects_view().drop_last() == old(self).objects_view(),
            final(self).objects_view().last().kind_view() == kind@,
            final(self).objects_view().last().id_view() is None,
            final(self).objects_view().last().attrs_view().len() == 0,
            final(self).objects_view().last().children_view().len() == 0,
            final(self).thunks_view() == old(self).thunks_view(),
            final(self).scopes_view() == old(self).scopes_view(),
            final(self).errors_view() == old(self).errors_view(),
            old(self).wf() ==> final(self).wf(),
    {
        let id = ObjectId(self.objects.len());
        self.objects.push(Object { kind, id: None, attrs: Vec::new(), children: Vec::new() });
        proof {
            assert(self.objects_view().drop_last() == old(self).objects_view());
        }
        id
    }

    /// The object with the given id, to change it.
    pub fn object_mut(&mut self, id: ObjectId) -> (r: &mut Object)
        requires
            id.index() < old(self).objects_view().len(),
        ensures
            *r == old(self).objects_view()[id.index()],
            final(self).objects_view() == old(self).objects_view().update(id.index(), *final(r)),
            final(self).thunks_view() == old(self).thunks_view(),
            final(self).scopes_view() == old(self).scopes_view(),
            final(self).errors_view() == old(self).errors_view(),
    {
        &mut self.objects[id.0]
    }

    /// A new thunk.
    pub fn create_thunk(&mut self, thunk: Thunk) -> (id: ThunkId)
        ensures
            id.index() == old(self).thunks_view().len(),
            final(self).thunks_view() == old(self).thunks_view().push(thunk),
            final(self).objects_view() == old(self).objects_view(),
            final(self).scopes_view() == old(self).scopes_view(),
            final(self).errors_view() == old(self).errors_view(),
            old(self).wf() && thunk_ok(thunk, old(self).scopes_view().len() as int, old(self).objects_view().len() as int)
                ==> final(self).wf(),
    {
        let id = ThunkId(self.thunks.len());
        self.thunks.push(thunk);
        id
    }

    /// A new empty scope inside `parent`.
    pub fn create_scope(&mut self, parent: Option<ScopeId>) -> (id: ScopeId)
        ensures
            id.index() == old(self).scopes_view().len(),
            final(self).scopes_view().len() == old(self).scopes_view().len() + 1,
            final(self).scopes_view().drop_last() == old(self).scopes_view(),
            final(self).scopes_view().last().parent_view() == parent,
            final(self).scopes_view().last().bindings_view().len() == 0,
            final(self).thunks_view() == old(self).thunks_view(),
            final(self).objects_view() == old(self).objects_view(),
            final(self).errors_view() == old(self).errors_view(),
            old(self).wf() && (parent matches Some(p) ==> p.index() < old(self).scopes_view().len()) ==> final(self).wf(),
    {
        let id = ScopeId(self.scopes.len());
        self.scopes.push(Scope::new(parent));
        proof {
            assert(self.scopes_view().drop_last() == old(self).scopes_view());
        }
        id
    }

    /// Record an error at the place of a node.
    pub fn error<T>(&mut self, source: &Node<T>, message: String)
        ensures
            final(self).errors_view() == old(self).errors_view().push(
                EvalError { span: source.span, pos: source.pos, message },
            ),
            final(self).thunks_view() == old(self).thunks_view(),
            final(self).objects_view() == old(self).objects_view(),
            final(self).scopes_view() == old(self).scopes_view(),
    {
        self.errors.push(EvalError { span: source.span, pos: source.pos, message });
    }

    /// The object with the given id.
    pub fn object(&self, id: ObjectId) -> (r: &Object)
        requires
            id.index() < self.objects_view().len(),
        ensures
            *r == self.objects_view()[id.index()],
    {
        &self.objects[id.0]
    }

    /// The thunk with the given id.
    pub fn thunk(&self, id: ThunkId) -> (r: &Thunk)
        requires
            id.index() < self.thunks_view().len(),
        ensures
            *r == self.thunks_view()[id.index()],
    {
        &self.thunks[id.0]
    }

    /// The errors found so far.
    pub fn errors(&self) -> (r: &[EvalError])
        ensures
            r@ == self.errors_view(),
    {
        self.errors.as_slice()
    }

    /// Bind a name in a scope to a thunk. A name bound before is reported,
    /// and then refers to the new thunk.
    pub fn bind(&mut self, scope: ScopeId, var: &Node<String>, value: ThunkId)
        requires
            scope.index() < old(self).scopes_view().len(),
            unique_names(old(self).scopes_view()[scope.index()].bindings_view()),
        ensures
            final(self).thunks_view() == old(self).thunks_view(),
            final(self).objects_view() == old(self).objects_view(),
            final(self).scopes_view().len() == old(self).scopes_view().len(),
            forall|s: int| 0 <= s < old(self).scopes_view().len() && s != scope.index() ==> #[trigger] final(self).scopes_view()[s]
                == old(self).scopes_view()[s],
            final(self).scopes_view()[scope.index()].parent_view() == old(self).scopes_view()[scope.index()].parent_view(),
            find_entry(final(self).scopes_view()[scope.index()].bindings_view(), var.data@) == Some(value),
            forall|other: Seq<char>| other != var.data@ ==> find_entry(
                final(self).scopes_view()[scope.index()].bindings_view(),
                other,
            ) == find_entry(old(self).scopes_view()[scope.index()].bindings_view(), other),
            if find_entry(old(self).scopes_view()[scope.index()].bindings_view(), var.data@) is Some {
                final(self).errors_view() == old(self).errors_view().push(
                    EvalError { span: var.span, pos: var.pos, message: final(self).errors_view().last().message },
                ) && final(self).errors_view().last().message@ == "'"@ + var.data@ + "' defined more than once in scope "@
                    + nat_digits(scope.index() as nat)
            } else {
                final(self).errors_view() == old(self).errors_view()
            },
            old(self).wf() && value.index() < old(self).thunks_view().len() ==> final(self).wf(),
    {
        let ghost old_bindings = self.scopes@[scope.0 as int].bindings@;
        let replaced = insert_entry(&mut self.scopes[scope.0].bindings, var.data.clone(), value);
        proof {
            if old(self).wf() && value.index() < old(self).thunks_view().len() {
                let nb = self.scopes@[scope.0 as int].bindings@;
                assert forall|i: int| 0 <= i < nb.len() implies (#[trigger] nb[i]).1.index() < self.thunks@.len() by {
                    if nb[i].1 != value {
                        let j = choose|j: int| 0 <= j < old_bindings.len() && nb[i] == old_bindings[j];
                        assert(old(self).scopes_view()[scope.index()].bindings_view()[j] == old_bindings[j]);
                    }
                }
                assert(scope_ok(self.scopes_view()[scope.index()], scope.index(), self.thunks_view().len() as int));
                assert forall|s: int| 0 <= s < self.scopes_view().len() implies scope_ok(
                    #[trigger] self.scopes_view()[s],
                    s,
                    self.thunks_view().len() as int,
                ) by {
                    if s != scope.index() {
                        assert(self.scopes_view()[s] == old(self).scopes_view()[s]);
                    }
                }
                assert(self.thunks_view() == old(self).thunks_view());
                assert(self.objects_view() == old(self).objects_view());
                assert(self.scopes_view().len() == old(self).scopes_view().len());
                assert forall|t: int| 0 <= t < self.thunks_view().len() implies thunk_ok(
                    #[trigger] self.thunks_view()[t],
                    self.scopes_view().len() as int,
                    self.objects_view().len() as int,
                ) by {
                    assert(thunk_ok(old(self).thunks_view()[t], old(self).scopes_view().len() as int, old(self).objects_view().len() as int));
                }
                assert forall|o: int| 0 <= o < self.objects_view().len() implies object_ok(
                    #[trigger] self.objects_view()[o],
                    self.thunks_view().len() as int,
                    self.objects_view().len() as int,
                ) by {
                    assert(object_ok(old(self).objects_view()[o], old(self).thunks_view().len() as int, old(self).objects_view().len() as int));
                }
            }
        }
        if replaced {
            let mut m = String::new();
            push_str(&mut m, "'");
            push_str(&mut m, var.data.as_str());
            push_str(&mut m, "' defined more than once in scope ");
            push_nat_digits(&mut m, scope.0 as u64);
            self.error(var, m);
        }
    }

    /// Look a variable up from a scope outwards, reporting it when it is
    /// not bound.
    pub fn lookup(&mut self, scope: ScopeId, var: &Node<&str>) -> (r: Option<ThunkId>)
        requires
            old(self).wf(),
            scope.index() < old(self).scopes_view().len(),
        ensures
            r == lookup_from(old(self).scopes_view(), scope.index(), var.data@),
            final(self).thunks_view() == old(self).thunks_view(),
            final(self).objects_view() == old(self).objects_view(),
            final(self).scopes_view() == old(self).scopes_view(),
            if r is None {
                final(self).errors_view() == old(self).errors_view().push(
                    EvalError { span: var.span, pos: var.pos, message: final(self).errors_view().last().message },
                ) && final(self).errors_view().last().message@ == "Variable "@ + var.data@ + " not defined"@
            } else {
                final(self).errors_view() == old(self).errors_view()
            },
    {
        let mut here = scope;
        loop
            invariant
                self.wf(),
                *self == *old(self),
                here.index() < self.scopes_view().len(),
                lookup_from(self.scopes_view(), scope.index(), var.data@) == lookup_from(
                    self.scopes_view(),
                    here.index(),
                    var.data@,
                ),
            ensures
                *self == *old(self),
                lookup_from(self.scopes_view(), scope.index(), var.data@) is None,
            decreases here.index(),
        {
            let ghost ss = self.scopes_view();
            proof {
                assert(scope_ok(ss[here.index()], here.index(), self.thunks_view().len() as int));
            }
            match find_in(&self.scopes[here.0].bindings, var.data) {
                Some(value) => return Some(value),
                None => {},
            }
            match self.scopes[here.0].parent {
                Some(p) => {
                    here = p;
                },
                None => break,
            }
        }
        let mut m = String::new();
        push_str(&mut m, "Variable ");
        push_str(&mut m, var.data);
        push_str(&mut m, " not defined");
        self.error(var, m);
        None
    }
}


/// Adding a thunk adds its weight to what is pending.
proof fn lemma_pending_push(ts: Seq<Thunk>, t: Thunk)
    ensures
        pending(ts.push(t)) == pending(ts) + thunk_weight(t),
{
    assert(ts.push(t).drop_last() == ts);
}

/// Replacing a thunk trades its weight for that of the new one.
proof fn lemma_pending_update(ts: Seq<Thunk>, i: int, t: Thunk)
    requires
        0 <= i < ts.len(),
    ensures
        pending(ts.update(i, t)) + thunk_weight(ts[i]) == pending(ts) + thunk_weight(t),
    decreases ts.len(),
{
    let n = ts.update(i, t);
    if i < ts.len() - 1 {
        assert(n.drop_last() == ts.drop_last().update(i, t));
        lemma_pending_update(ts.drop_last(), i, t);
    } else {
        assert(n.drop_last() == ts.drop_last());
    }
}

/// An entry found by name lies among the entries.
proof fn lemma_find_entry_in(es: Seq<Entry>, name: Seq<char>)
    ensures
        find_entry(es, name) matches Some(t) ==> exists|i: int| 0 <= i < es.len() && es[i].1 == t,
    decreases es.len(),
{
    if es.len() > 0 && es.last().0@ != name {
        lemma_find_entry_in(es.drop_last(), name);
        if let Some(t) = find_entry(es, name) {
            let i = choose|i: int| 0 <= i < es.drop_last().len() && es.drop_last()[i].1 == t;
            assert(es[i] == es.drop_last()[i]);
        }
    }
}

/// Looking up a name gives a thunk that exists.
proof fn lemma_lookup_below(ss: Seq<Scope>, s: int, name: Seq<char>, n: int)
    requires
        forall|k: int| 0 <= k < ss.len() ==> scope_ok(#[trigger] ss[k], k, n),
    ensures
        lookup_from(ss, s, name) matches Some(t) ==> t.index() < n,
    decreases s,
{
    if 0 <= s < ss.len() {
        assert(scope_ok(ss[s], s, n));
        lemma_find_entry_in(ss[s].bindings_view(), name);
        if let Some(p) = ss[s].parent_view() {
            if 0 <= p.index() < s {
                lemma_lookup_below(ss, p.index(), name, n);
            }
        }
    }
}

/// Lookups only look at the scope and the scopes around it, which lie before it.
proof fn lemma_lookup_stable(ss1: Seq<Scope>, ss2: Seq<Scope>, s: int, name: Seq<char>)
    requires
        ss1.len() <= ss2.len(),
        forall|k: int| 0 <= k < ss1.len() ==> #[trigger] ss2[k] == ss1[k],
        s < ss1.len(),
    ensures
        lookup_from(ss2, s, name) == lookup_from(ss1, s, name),
    decreases s,
{
    if 0 <= s {
        assert(ss2[s] == ss1[s]);
        if let Some(p) = ss1[s].parent_view() {
            if 0 <= p.index() < s {
                lemma_lookup_stable(ss1, ss2, p.index(), name);
            }
        }
    }
}

impl Context {
    /// The value of an expression refers to an existing object.
    proof fn lemma_value_ok(&self, e: &Node<Expr>, s: int)
        requires
            self.wf(),
        ensures
            self.value_of(*e, s) matches Some(v) ==> value_ok(v, self.objects_view().len() as int),
        decreases e,
    {
        let ts = self.thunks_view();
        let os = self.objects_view();
        let ss = self.scopes_view();
        match &e.data {
            Expr::Unary { operand, .. } => self.lemma_value_ok(operand, s),
            Expr::Binary { left, right, .. } => {
                self.lemma_value_ok(left, s);
                self.lemma_value_ok(right, s);
            },
            Expr::Paren { expr, .. } => self.lemma_value_ok(expr, s),
            Expr::Var(name) => {
                if let Some(t) = lookup_from(ss, s, name@) {
                    lemma_lookup_below(ss, s, name@, ts.len() as int);
                    assert(thunk_ok(ts[t.index()], ss.len() as int, os.len() as int));
                }
            },
            Expr::Accessor { expr, attribute, .. } => {
                self.lemma_value_ok(expr, s);
                if let Some(Value::Object(o)) = self.value_at(expr, s) {
                    if 0 <= o.index() < os.len() {
                        assert(object_ok(os[o.index()], ts.len() as int, os.len() as int));
                        lemma_find_entry_in(os[o.index()].attrs_view(), attribute.data@);
                        if let Some(t) = find_entry(os[o.index()].attrs_view(), attribute.data@) {
                            let i = choose|i: int| 0 <= i < os[o.index()].attrs_view().len() && os[o.index()].attrs_view()[i].1 == t;
                            assert(entries_below(os[o.index()].attrs_view(), ts.len() as int));
                            assert(os[o.index()].attrs_view()[i].1.index() < ts.len());
                            assert(thunk_ok(ts[t.index()], ss.len() as int, os.len() as int));
                        }
                    }
                }
            },
            _ => {},
        }
    }

    /// Growing by evaluation keeps what was computed.
    proof fn lemma_extends_keeps(&self, old: &Context)
        requires
            self.extends(old, -1),
        ensures
            self.keeps(old),
    {
        assert forall|t: int| 0 <= t < old.thunks_view().len() && (#[trigger] old.thunks_view()[t]) is Evaluated implies self.thunks_view()[t]
            == old.thunks_view()[t] by {
            assert(progressed(old.thunks_view()[t], self.thunks_view()[t]));
        }
    }

    /// Nothing has been evaluated since the context itself.
    proof fn lemma_sound_refl(&self)
        ensures
            self.sound_since(self),
    {
    }

    /// Soundness depends only on the thunks, objects and scopes.
    proof fn lemma_sound_views(&self, mid: &Context, last: &Context)
        requires
            mid.sound_since(self),
            last.thunks_view() == mid.thunks_view(),
            last.objects_view() == mid.objects_view(),
            last.scopes_view() == mid.scopes_view(),
            mid.errors_view().len() <= last.errors_view().len(),
        ensures
            last.sound_since(self),
    {
    }

    /// Soundness holds while no thunk changed.
    proof fn lemma_sound_unchanged(&self, last: &Context)
        requires
            forall|t: int| 0 <= t < self.thunks_view().len() ==> #[trigger] last.thunks_view()[t] == self.thunks_view()[t],
            forall|t: int| self.thunks_view().len() <= t < last.thunks_view().len() ==> !(#[trigger] last.thunks_view()[t] is Evaluating),
        ensures
            last.sound_since(self),
    {
        assert forall|t: int| 0 <= t < self.thunks_view().len() implies match #[trigger] self.thunks_view()[t] {
            Thunk::Unevaluated { scope, expr } => object_free(*expr) ==> (last.thunks_view()[t] matches Thunk::Evaluated(
                v,
            ) ==> last.value_of(*expr, scope.index()) == Some(v)),
            _ => true,
        } by {
            assert(last.thunks_view()[t] == self.thunks_view()[t]);
        }
    }

    /// Soundness since a context is soundness since one with the same thunks.
    proof fn lemma_sound_same_start(&self, mid: &Context, last: &Context)
        requires
            last.sound_since(mid),
            mid.thunks_view() == self.thunks_view(),
            self.errors_view().len() <= mid.errors_view().len(),
        ensures
            last.sound_since(self),
    {
    }

    /// Soundness carries over two steps of evaluation.
    proof fn lemma_sound_chain(&self, mid: &Context, last: &Context)
        requires
            self.wf(),
            mid.wf(),
            mid.extends(self, -1),
            mid.sound_since(self),
            last.extends(mid, -1),
            last.sound_since(mid),
        ensures
            last.sound_since(self),
    {
        last.lemma_extends_keeps(mid);
        assert forall|t: int| 0 <= t < self.thunks_view().len() implies match #[trigger] self.thunks_view()[t] {
            Thunk::Unevaluated { scope, expr } => object_free(*expr) ==> (last.thunks_view()[t] matches Thunk::Evaluated(
                v,
            ) ==> last.value_of(*expr, scope.index()) == Some(v)),
            _ => true,
        } by {
            if let Thunk::Unevaluated { scope, expr } = self.thunks_view()[t] {
                assert(progressed(self.thunks_view()[t], mid.thunks_view()[t]));
                assert(thunk_ok(self.thunks_view()[t], self.scopes_view().len() as int, self.objects_view().len() as int));
                if mid.thunks_view()[t] is Unevaluated {
                    assert(mid.thunks_view()[t] == self.thunks_view()[t]);
                } else if object_free(*expr) {
                    assert(progressed(mid.thunks_view()[t], last.thunks_view()[t]));
                    if let Thunk::Evaluated(v) = mid.thunks_view()[t] {
                        mid.lemma_value_stable(last, &*expr, scope.index());
                    }
                }
            }
        }
    }

    /// Once an expression has a value, it keeps it as evaluation goes on.
    proof fn lemma_value_stable(&self, later: &Context, e: &Node<Expr>, s: int)
        requires
            self.wf(),
            later.keeps(self),
            0 <= s < self.scopes_view().len(),
            self.value_of(*e, s) is Some,
        ensures
            later.value_of(*e, s) == self.value_of(*e, s),
        decreases e,
    {
        let ts = self.thunks_view();
        let os = self.objects_view();
        let ss = self.scopes_view();
        match &e.data {
            Expr::Unary { operand, .. } => self.lemma_value_stable(later, operand, s),
            Expr::Binary { left, operator, right } => {
                self.lemma_value_stable(later, left, s);
                if self.value_at(right, s) is Some {
                    self.lemma_value_stable(later, right, s);
                }
            },
            Expr::Paren { expr, .. } => self.lemma_value_stable(later, expr, s),
            Expr::Var(name) => {
                lemma_lookup_stable(ss, later.scopes_view(), s, name@);
                lemma_lookup_below(ss, s, name@, ts.len() as int);
            },
            Expr::Accessor { expr, attribute, .. } => {
                self.lemma_value_stable(later, expr, s);
                self.lemma_value_ok(expr, s);
                if let Some(Value::Object(o)) = self.value_at(expr, s) {
                    assert(later.objects_view()[o.index()] == os[o.index()]);
                    assert(object_ok(os[o.index()], ts.len() as int, os.len() as int));
                    lemma_find_entry_in(os[o.index()].attrs_view(), attribute.data@);
                    if let Some(t) = find_entry(os[o.index()].attrs_view(), attribute.data@) {
                        let i = choose|i: int| 0 <= i < os[o.index()].attrs_view().len() && os[o.index()].attrs_view()[i].1 == t;
                        assert(entries_below(os[o.index()].attrs_view(), ts.len() as int));
                        assert(os[o.index()].attrs_view()[i].1.index() < ts.len());
                    }
                }
            },
            _ => {},
        }
    }
}


/// The name of the attribute that gives an object its id.
pub open spec fn id_name() -> Seq<char> {
    seq!['i', 'd']
}

/// The identifier that the first `id` attribute written as a variable names.
pub open spec fn declared_id(attrs: Seq<Node<Attribute>>) -> Option<Seq<char>>
    decreases attrs.len(),
{
    if attrs.len() == 0 {
        None
    } else {
        match declared_id(attrs.drop_last()) {
            Some(v) => Some(v),
            None => {
                let a = attrs.last();
                if a.data.name.data@ == id_name() {
                    match a.data.value.data {
                        Expr::Var(v) => Some(v@),
                        _ => None,
                    }
                } else {
                    None
                }
            },
        }
    }
}

/// The value of the last attribute called `name`.
pub open spec fn last_value(attrs: Seq<Node<Attribute>>, name: Seq<char>) -> Option<NodePtr<Expr>>
    decreases attrs.len(),
{
    if attrs.len() == 0 {
        None
    } else if attrs.last().data.name.data@ == name {
        Some(attrs.last().data.value)
    } else {
        last_value(attrs.drop_last(), name)
    }
}

/// The attribute entries `es` hold, for each name other than `id`, a thunk of
/// the value of the last attribute of that name, to be evaluated in `scope`.
pub open spec fn attrs_built(
    es: Seq<Entry>,
    attrs: Seq<Node<Attribute>>,
    thunks: Seq<Thunk>,
    scope: ScopeId,
) -> bool {
    &&& find_entry(es, id_name()) is None
    &&& forall|name: Seq<char>|
        name != id_name() ==> match #[trigger] last_value(attrs, name) {
            None => find_entry(es, name) is None,
            Some(e) => find_entry(es, name) matches Some(t) && t.index() < thunks.len() && thunks[t.index()]
                == (Thunk::Unevaluated { scope, expr: e }),
        }
}

/// The object `node` or one nested in it declares the id `v`.
pub open spec fn subtree_declares(node: Node<AstObject>, v: Seq<char>) -> bool
    decreases node,
{
    declared_id(node.data.attrs@) == Some(v) || declared_in(node.data.children@, v)
}

/// One of the objects `nodes`, or one nested in them, declares the id `v`.
pub open spec fn declared_in(nodes: Seq<Node<AstObject>>, v: Seq<char>) -> bool
    decreases nodes,
{
    if nodes.len() == 0 {
        false
    } else {
        declared_in(nodes.subrange(0, nodes.len() - 1), v) || subtree_declares(nodes[nodes.len() - 1], v)
    }
}

/// The attributes set each name at most once, and `id` at most once and to
/// an identifier.
pub open spec fn attrs_clean(attrs: Seq<Node<Attribute>>) -> bool
    decreases attrs.len(),
{
    if attrs.len() == 0 {
        true
    } else {
        let a = attrs.last();
        &&& attrs_clean(attrs.drop_last())
        &&& if a.data.name.data@ == id_name() {
            a.data.value.data is Var && declared_id(attrs.drop_last()) is None
        } else {
            last_value(attrs.drop_last(), a.data.name.data@) is None
        }
    }
}

/// The names bound by the entries `es`.
pub open spec fn entry_names(es: Seq<Entry>) -> Set<Seq<char>> {
    Set::new(|v: Seq<char>| find_entry(es, v) is Some)
}

/// Building the object `node` in a scope that binds the names `bound`
/// reports no error: each object sets its attributes cleanly, and no id is
/// declared that is bound already or declared before it.
pub open spec fn builds_cleanly(node: Node<AstObject>, bound: Set<Seq<char>>) -> bool
    decreases node, 1int,
{
    &&& attrs_clean(node.data.attrs@)
    &&& match declared_id(node.data.attrs@) {
        Some(v) => !bound.contains(v) && all_build_cleanly(node.data.children@, bound.insert(v)),
        None => all_build_cleanly(node.data.children@, bound),
    }
}

/// The objects `nodes`, built in turn in a scope that binds `bound`, report
/// no error.
pub open spec fn all_build_cleanly(nodes: Seq<Node<AstObject>>, bound: Set<Seq<char>>) -> bool
    decreases nodes, 0int,
{
    if nodes.len() == 0 {
        true
    } else {
        let prefix = nodes.subrange(0, nodes.len() - 1);
        &&& all_build_cleanly(prefix, bound)
        &&& builds_cleanly(nodes[nodes.len() - 1], bound + Set::new(|v: Seq<char>| declared_in(prefix, v)))
    }
}

/// Clean attributes have clean prefixes.
proof fn lemma_attrs_clean_prefix(attrs: Seq<Node<Attribute>>, n: int)
    requires
        attrs_clean(attrs),
        0 <= n <= attrs.len(),
    ensures
        attrs_clean(attrs.subrange(0, n)),
    decreases attrs.len(),
{
    if n < attrs.len() {
        lemma_attrs_clean_prefix(attrs.drop_last(), n);
        assert(attrs.drop_last().subrange(0, n) =~= attrs.subrange(0, n));
    } else {
        assert(attrs.subrange(0, n) =~= attrs);
    }
}

/// Each of objects that build cleanly in turn builds cleanly where the ones
/// before it have declared their ids.
proof fn lemma_all_build_cleanly_at(nodes: Seq<Node<AstObject>>, bound: Set<Seq<char>>, j: int)
    requires
        all_build_cleanly(nodes, bound),
        0 <= j < nodes.len(),
    ensures
        builds_cleanly(nodes[j], bound + Set::new(|v: Seq<char>| declared_in(nodes.take(j), v))),
    decreases nodes.len(),
{
    let prefix = nodes.subrange(0, nodes.len() - 1);
    if j == nodes.len() - 1 {
        assert(prefix =~= nodes.take(j));
    } else {
        lemma_all_build_cleanly_at(prefix, bound, j);
        assert(prefix.take(j) =~= nodes.take(j));
        assert(prefix[j] == nodes[j]);
    }
}

/// An object declares `v` itself or through its nested objects.
proof fn lemma_subtree_declares(node: Node<AstObject>, v: Seq<char>)
    ensures
        subtree_declares(node, v) == (declared_id(node.data.attrs@) == Some(v) || declared_in(node.data.children@, v)),
{
}

/// Declaring among the first `j + 1` objects is declaring among the first
/// `j` or in object `j`.
proof fn lemma_declared_in_take(nodes: Seq<Node<AstObject>>, j: int, v: Seq<char>)
    requires
        0 <= j < nodes.len(),
    ensures
        declared_in(nodes.take(j + 1), v) == (declared_in(nodes.take(j), v) || subtree_declares(nodes[j], v)),
{
    let a = nodes.take(j + 1);
    assert(a.subrange(0, a.len() - 1) =~= nodes.take(j));
    assert(a[a.len() - 1] == nodes[j]);
}

/// The attribute entries `es` hold exactly the attributes other than `id`.
pub open spec fn attr_names_match(es: Seq<Entry>, attrs: Seq<Node<Attribute>>) -> bool {
    &&& find_entry(es, id_name()) is None
    &&& forall|name: Seq<char>|
        name != id_name() ==> (find_entry(es, name) is Some <==> #[trigger] last_value(attrs, name) is Some)
}

impl Context {
    /// Object `o` was built from `node` in scope `s`: it has the node's kind,
    /// id and attributes, and its nested objects, made after it, were built
    /// from the nested nodes in the same way.
    pub open spec fn built_from(&self, o: int, node: Node<AstObject>, s: ScopeId) -> bool
        decreases node,
    {
        &&& 0 <= o < self.objects_view().len()
        &&& self.objects_view()[o].kind_view() == node.data.name.data@
        &&& self.objects_view()[o].id_view() == declared_id(node.data.attrs@)
        &&& attrs_built(self.objects_view()[o].attrs_view(), node.data.attrs@, self.thunks_view(), s)
        &&& self.objects_view()[o].children_view().len() == node.data.children@.len()
        &&& forall|k: int|
            0 <= k < node.data.children@.len() ==> {
                let c = #[trigger] self.objects_view()[o].children_view()[k].index();
                o < c && self.built_from(c, node.data.children@[k], s)
            }
    }

    /// Object `o` and, recursively, its nested objects built from `node`
    /// hold the values of their attributes' object-free expressions in scope
    /// `s`, where those were evaluated.
    pub open spec fn attrs_evaluated(&self, o: int, node: Node<AstObject>, s: int) -> bool
        decreases node,
    {
        &&& 0 <= o < self.objects_view().len()
        &&& forall|name: Seq<char>|
            name != id_name() ==> match #[trigger] last_value(node.data.attrs@, name) {
                Some(e) => object_free(*e) ==> self.attr_evaluated(self.objects_view()[o], name, *e, s),
                None => true,
            }
        &&& self.objects_view()[o].children_view().len() == node.data.children@.len()
        &&& forall|k: int|
            0 <= k < node.data.children@.len() ==> self.attrs_evaluated(
                #[trigger] self.objects_view()[o].children_view()[k].index(),
                node.data.children@[k],
                s,
            )
    }

    /// What was built stays built while the objects from `o` on and the
    /// existing thunks stay as they are.
    proof fn lemma_built_stable(&self, later: &Context, o: int, node: Node<AstObject>, s: ScopeId)
        requires
            self.built_from(o, node, s),
            self.objects_view().len() <= later.objects_view().len(),
            forall|i: int| o <= i < self.objects_view().len() ==> #[trigger] later.objects_view()[i] == self.objects_view()[i],
            self.thunks_view().len() <= later.thunks_view().len(),
            forall|t: int| 0 <= t < self.thunks_view().len() ==> #[trigger] later.thunks_view()[t] == self.thunks_view()[t],
        ensures
            later.built_from(o, node, s),
        decreases node,
    {
        let ob = self.objects_view()[o];
        assert(later.objects_view()[o] == ob);
        lemma_attrs_built_grow(ob.attrs_view(), node.data.attrs@, self.thunks_view(), later.thunks_view(), s);
        assert forall|k: int| 0 <= k < node.data.children@.len() implies {
            let c = #[trigger] later.objects_view()[o].children_view()[k].index();
            o < c && later.built_from(c, node.data.children@[k], s)
        } by {
            let c = ob.children_view()[k].index();
            assert(o < c && self.built_from(c, node.data.children@[k], s));
            self.lemma_built_stable(later, c, node.data.children@[k], s);
        }
    }

    /// After evaluation that went right, every built object holds the values
    /// of its attributes.
    proof fn lemma_built_evaluated(&self, later: &Context, o: int, node: Node<AstObject>, s: ScopeId)
        requires
            self.built_from(o, node, s),
            later.sound_since(self),
            self.objects_view().len() <= later.objects_view().len(),
            forall|i: int| 0 <= i < self.objects_view().len() ==> #[trigger] later.objects_view()[i] == self.objects_view()[i],
        ensures
            later.attrs_evaluated(o, node, s.index()),
        decreases node,
    {
        let ob = self.objects_view()[o];
        assert(later.objects_view()[o] == ob);
        assert forall|name: Seq<char>| name != id_name() implies match #[trigger] last_value(node.data.attrs@, name) {
            Some(e) => object_free(*e) ==> later.attr_evaluated(later.objects_view()[o], name, *e, s.index()),
            None => true,
        } by {
            if let Some(e) = last_value(node.data.attrs@, name) {
                let t = find_entry(ob.attrs_view(), name)->0;
                assert(self.thunks_view()[t.index()] == (Thunk::Unevaluated { scope: s, expr: e }));
            }
        }
        assert forall|k: int| 0 <= k < node.data.children@.len() implies later.attrs_evaluated(
            #[trigger] later.objects_view()[o].children_view()[k].index(),
            node.data.children@[k],
            s.index(),
        ) by {
            let c = ob.children_view()[k].index();
            assert(o < c && self.built_from(c, node.data.children@[k], s));
            self.lemma_built_evaluated(later, c, node.data.children@[k], s);
        }
    }
}

/// Attribute thunks stay what they were while thunks are only added.
proof fn lemma_attrs_built_grow(
    es: Seq<Entry>,
    attrs: Seq<Node<Attribute>>,
    th1: Seq<Thunk>,
    th2: Seq<Thunk>,
    scope: ScopeId,
)
    requires
        attrs_built(es, attrs, th1, scope),
        th1.len() <= th2.len(),
        forall|t: int| 0 <= t < th1.len() ==> #[trigger] th2[t] == th1[t],
    ensures
        attrs_built(es, attrs, th2, scope),
{
    assert forall|name: Seq<char>| name != id_name() implies match #[trigger] last_value(attrs, name) {
        None => find_entry(es, name) is None,
        Some(e) => find_entry(es, name) matches Some(t) && t.index() < th2.len() && th2[t.index()]
            == (Thunk::Unevaluated { scope, expr: e }),
    } by {
        match last_value(attrs, name) {
            None => {},
            Some(e) => {
                let t = find_entry(es, name)->0;
                assert(th2[t.index()] == th1[t.index()]);
            },
        }
    }
}

impl Context {
    /// Traverse the object tree and register all id'd objects in the given
    /// scope: every object gets its kind, its id, a thunk for each of its
    /// other attributes, to be evaluated in `scope`, and its nested objects.
    fn build_hierarchy(&mut self, node: &Node<AstObject>, scope: ScopeId) -> (r: ObjectId)
        requires
            old(self).wf(),
            scope.index() < old(self).scopes_view().len(),
        ensures
            final(self).wf(),
            final(self).extends(old(self), scope.index()),
            forall|t: int| 0 <= t < old(self).thunks_view().len() ==> #[trigger] final(self).thunks_view()[t]
                == old(self).thunks_view()[t],
            forall|t: int| old(self).thunks_view().len() <= t < final(self).thunks_view().len() ==> !(
            #[trigger] final(self).thunks_view()[t] is Evaluating),
            final(self).scopes_view().len() == old(self).scopes_view().len(),
            final(self).scopes_view()[scope.index()].parent_view() == old(self).scopes_view()[scope.index()].parent_view(),
            final(self).pending_work() < old(self).pending_work() + object_size(*node),
            r.index() == old(self).objects_view().len(),
            r.index() < final(self).objects_view().len(),
            final(self).objects_view()[r.index()].kind_view() == node.data.name.data@,
            final(self).objects_view()[r.index()].children_view().len() == node.data.children@.len(),
            forall|k: int| 0 <= k < node.data.children@.len() ==> {
                let c = #[trigger] final(self).objects_view()[r.index()].children_view()[k];
                c.index() < final(self).objects_view().len() && final(self).objects_view()[c.index()].kind_view()
                    == node.data.children@[k].data.name.data@
            },
            final(self).objects_view()[r.index()].id_view() == declared_id(node.data.attrs@),
            attrs_built(
                final(self).objects_view()[r.index()].attrs_view(),
                node.data.attrs@,
                final(self).thunks_view(),
                scope,
            ),
            final(self).built_from(r.index(), *node, scope),
            forall|v: Seq<char>|
                !subtree_declares(*node, v) ==> #[trigger] find_entry(
                    final(self).scopes_view()[scope.index()].bindings_view(),
                    v,
                ) == find_entry(old(self).scopes_view()[scope.index()].bindings_view(), v),
            match declared_id(node.data.attrs@) {
                Some(v) => !declared_in(node.data.children@, v) ==> final(self).binds_object(scope.index(), v, r),
                None => true,
            },
            forall|v: Seq<char>|
                subtree_declares(*node, v) ==> #[trigger] find_entry(
                    final(self).scopes_view()[scope.index()].bindings_view(),
                    v,
                ) is Some,
            builds_cleanly(*node, entry_names(old(self).scopes_view()[scope.index()].bindings_view()))
                ==> final(self).errors_view() == old(self).errors_view(),
        decreases node,
    {
        let ghost start = *self;
        let ghost clean = builds_cleanly(*node, entry_names(start.scopes_view()[scope.index()].bindings_view()));
        let obj = self.create_object(node.data.name.data.clone());
        let mut id: Option<Node<String>> = None;
        let mut attrs: Vec<Entry> = Vec::new();
        let mut i: usize = 0;
        while i < node.data.attrs.len()
            invariant
                start == *old(self),
                self.wf(),
                self.extends(&start, -1),
                forall|t: int| 0 <= t < start.thunks_view().len() ==> #[trigger] self.thunks_view()[t]
                    == start.thunks_view()[t],
                forall|t: int| start.thunks_view().len() <= t < self.thunks_view().len() ==> !(
                #[trigger] self.thunks_view()[t] is Evaluating),
                self.scopes_view() == start.scopes_view(),
                scope.index() < self.scopes_view().len(),
                obj.index() == start.objects_view().len(),
                self.objects_view().len() == start.objects_view().len() + 1,
                self.objects_view()[obj.index()].kind_view() == node.data.name.data@,
                i <= node.data.attrs@.len(),
                unique_names(attrs@),
                entries_below(attrs@, self.thunks_view().len() as int),
                self.pending_work() <= start.pending_work() + attrs_size(node.data.attrs@.subrange(0, i as int)),
                (match id {
                    Some(n) => Some(n.data@),
                    None => None,
                }) == declared_id(node.data.attrs@.subrange(0, i as int)),
                attrs_built(attrs@, node.data.attrs@.subrange(0, i as int), self.thunks_view(), scope),
                clean == builds_cleanly(*node, entry_names(start.scopes_view()[scope.index()].bindings_view())),
                clean ==> self.errors_view() == start.errors_view(),
            decreases node.data.attrs@.len() - i,
        {
            let attr = &node.data.attrs[i];
            let ghost before = *self;
            let ghost id_before = id;
            let ghost attrs_start = attrs@;
            let ghost sub_i = node.data.attrs@.subrange(0, i as int);
            let ghost sub_next = node.data.attrs@.subrange(0, i + 1);
            proof {
                assert(sub_next.subrange(0, i as int) == sub_i);
                assert(sub_next.drop_last() == sub_i);
                assert(sub_next.last() == *attr);
                reveal_strlit("id");
                assert("id"@ == id_name());
                if clean {
                    lemma_attrs_clean_prefix(node.data.attrs@, i + 1);
                    assert(attrs_clean(sub_next));
                }
            }
            if same_text(attr.data.name.data.as_str(), "id") {
                match &attr.data.value.data {
                    Expr::Var(var) => {
                        if id.is_none() {
                            id = Some(Node { span: attr.data.value.span, pos: attr.data.value.pos, data: var.clone() });
                        } else {
                            let mut m = String::new();
                            push_str(&mut m, "'id' set more than once");
                            self.error(attr, m);
                        }
                    },
                    _ => {
                        let mut m = String::new();
                        push_str(&mut m, "'id' attribute must be an identifier");
                        self.error(attr, m);
                    },
                }
                proof {
                    assert forall|name: Seq<char>| name != id_name() implies #[trigger] last_value(sub_next, name)
                        == last_value(sub_i, name) by {}
                }
            } else {
                let thunk = Thunk::Unevaluated { scope, expr: share(&attr.data.value) };
                proof {
                    lemma_pending_push(self.thunks_view(), thunk);
                }
                proof {
                    if clean {
                        assert(last_value(sub_i, attr.data.name.data@) is None);
                        assert(find_entry(attrs@, attr.data.name.data@) is None);
                    }
                }
                let value = self.create_thunk(thunk);
                let ghost attrs_before = attrs@;
                let replaced = insert_entry(&mut attrs, attr.data.name.data.clone(), value);
                proof {
                    let na = attrs@;
                    assert forall|k: int| 0 <= k < na.len() implies (#[trigger] na[k]).1.index() < self.thunks_view().len() by {
                        if na[k].1 != value {
                            let j = choose|j: int| 0 <= j < attrs_before.len() && na[k] == attrs_before[j];
                            assert(attrs_before[j].1.index() < before.thunks_view().len());
                        }
                    }
                }
                if replaced {
                    let mut m = String::new();
                    push_str(&mut m, "'");
                    push_str(&mut m, attr.data.name.data.as_str());
                    push_str(&mut m, "' set more than once");
                    self.error(attr, m);
                }
                proof {
                    let th = self.thunks_view();
                    assert(find_entry(attrs@, id_name()) is None) by {
                        assert(find_entry(attrs_start, id_name()) is None);
                    }
                    assert forall|name: Seq<char>| name != id_name() implies match #[trigger] last_value(
                        sub_next,
                        name,
                    ) {
                        None => find_entry(attrs@, name) is None,
                        Some(e) => find_entry(attrs@, name) matches Some(t) && t.index() < th.len()
                            && th[t.index()] == (Thunk::Unevaluated { scope, expr: e }),
                    } by {
                        if name != attr.data.name.data@ {
                            assert(last_value(sub_next, name) == last_value(sub_i, name));
                            assert(find_entry(attrs@, name) == find_entry(attrs_start, name));
                            match last_value(sub_i, name) {
                                None => {},
                                Some(e) => {
                                    let t = find_entry(attrs_start, name)->0;
                                    assert(th[t.index()] == before.thunks_view()[t.index()]);
                                },
                            }
                        }
                    }
                }
            }
            i = i + 1;
        }
        proof {
            assert(node.data.attrs@.subrange(0, node.data.attrs@.len() as int) == node.data.attrs@);
        }
        let ghost after_attrs = *self;
        match &id {
            Some(id_node) => {
                proof {
                    lemma_pending_push(self.thunks_view(), Thunk::Evaluated(Value::Object(obj)));
                }
                let object_value = self.create_thunk(Thunk::Evaluated(Value::Object(obj)));
                self.bind(scope, id_node, object_value);
            },
            None => {},
        }
        let ghost bound = *self;
        proof {
            lemma_attrs_built_grow(attrs@, node.data.attrs@, after_attrs.thunks_view(), self.thunks_view(), scope);
            assert(node.data.children@.take(0) =~= Seq::<Node<AstObject>>::empty());
        }
        let mut children: Vec<ObjectId> = Vec::new();
        let mut j: usize = 0;
        while j < node.data.children.len()
            invariant
                start == *old(self),
                self.wf(),
                self.extends(&start, scope.index()),
                forall|t: int| 0 <= t < start.thunks_view().len() ==> #[trigger] self.thunks_view()[t]
                    == start.thunks_view()[t],
                forall|t: int| start.thunks_view().len() <= t < self.thunks_view().len() ==> !(
                #[trigger] self.thunks_view()[t] is Evaluating),
                self.scopes_view().len() == start.scopes_view().len(),
                self.scopes_view()[scope.index()].parent_view() == start.scopes_view()[scope.index()].parent_view(),
                scope.index() < self.scopes_view().len(),
                obj.index() == start.objects_view().len(),
                obj.index() < self.objects_view().len(),
                self.objects_view()[obj.index()].kind_view() == node.data.name.data@,
                j <= node.data.children@.len(),
                children@.len() == j,
                forall|k: int| 0 <= k < children@.len() ==> (#[trigger] children@[k]).index() < self.objects_view().len(),
                unique_names(attrs@),
                entries_below(attrs@, self.thunks_view().len() as int),
                self.pending_work() <= start.pending_work() + attrs_size(node.data.attrs@) + objects_size(
                    node.data.children@.subrange(0, j as int),
                ),
                attrs_built(attrs@, node.data.attrs@, self.thunks_view(), scope),
                (match id {
                    Some(n) => Some(n.data@),
                    None => None,
                }) == declared_id(node.data.attrs@),
                forall|k: int| 0 <= k < j ==> {
                    let c = #[trigger] children@[k];
                    obj.index() < c.index() < self.objects_view().len() && self.objects_view()[c.index()].kind_view()
                        == node.data.children@[k].data.name.data@ && self.built_from(
                        c.index(),
                        node.data.children@[k],
                        scope,
                    )
                },
                forall|t: int| 0 <= t < bound.thunks_view().len() ==> #[trigger] self.thunks_view()[t]
                    == bound.thunks_view()[t],
                bound.thunks_view().len() <= self.thunks_view().len(),
                forall|v: Seq<char>|
                    !declared_in(node.data.children@.take(j as int), v) ==> #[trigger] find_entry(
                        self.scopes_view()[scope.index()].bindings_view(),
                        v,
                    ) == find_entry(bound.scopes_view()[scope.index()].bindings_view(), v),
                forall|v: Seq<char>|
                    declared_in(node.data.children@.take(j as int), v) ==> #[trigger] find_entry(
                        self.scopes_view()[scope.index()].bindings_view(),
                        v,
                    ) is Some,
                forall|v: Seq<char>|
                    declared_id(node.data.attrs@) != Some(v) ==> #[trigger] find_entry(
                        bound.scopes_view()[scope.index()].bindings_view(),
                        v,
                    ) == find_entry(start.scopes_view()[scope.index()].bindings_view(), v),
                match declared_id(node.data.attrs@) {
                    Some(v) => find_entry(self.scopes_view()[scope.index()].bindings_view(), v) is Some
                        && find_entry(bound.scopes_view()[scope.index()].bindings_view(), v) is Some,
                    None => true,
                },
                clean == builds_cleanly(*node, entry_names(start.scopes_view()[scope.index()].bindings_view())),
                clean ==> self.errors_view() == start.errors_view(),
            decreases node.data.children@.len() - j,
        {
            proof {
                assert(node.data.children@.subrange(0, j + 1).subrange(0, j as int) == node.data.children@.subrange(0, j as int));
            }
            let ghost before_child = *self;
            proof {
                if clean {
                    let s0 = entry_names(start.scopes_view()[scope.index()].bindings_view());
                    let s1 = match declared_id(node.data.attrs@) {
                        Some(v) => s0.insert(v),
                        None => s0,
                    };
                    assert(all_build_cleanly(node.data.children@, s1));
                    lemma_all_build_cleanly_at(node.data.children@, s1, j as int);
                    let names = s1 + Set::new(|v: Seq<char>| declared_in(node.data.children@.take(j as int), v));
                    assert(entry_names(self.scopes_view()[scope.index()].bindings_view()) =~= names) by {
                        assert forall|v: Seq<char>| #[trigger] names.contains(v) == (find_entry(
                            self.scopes_view()[scope.index()].bindings_view(),
                            v,
                        ) is Some) by {
                            if !declared_in(node.data.children@.take(j as int), v) {
                                assert(find_entry(self.scopes_view()[scope.index()].bindings_view(), v) == find_entry(
                                    bound.scopes_view()[scope.index()].bindings_view(),
                                    v,
                                ));
                                if declared_id(node.data.attrs@) != Some(v) {
                                    assert(find_entry(bound.scopes_view()[scope.index()].bindings_view(), v)
                                        == find_entry(start.scopes_view()[scope.index()].bindings_view(), v));
                                }
                            }
                        }
                    }
                }
            }
            let child = self.build_hierarchy(&node.data.children[j], scope);
            proof {
                assert forall|v: Seq<char>|
                    declared_in(node.data.children@.take(j + 1), v) implies #[trigger] find_entry(
                        self.scopes_view()[scope.index()].bindings_view(),
                        v,
                    ) is Some by {
                    lemma_declared_in_take(node.data.children@, j as int, v);
                    if !subtree_declares(node.data.children@[j as int], v) {
                        assert(find_entry(self.scopes_view()[scope.index()].bindings_view(), v) == find_entry(
                            before_child.scopes_view()[scope.index()].bindings_view(),
                            v,
                        ));
                    }
                }
                match declared_id(node.data.attrs@) {
                    Some(v) => {
                        if !subtree_declares(node.data.children@[j as int], v) {
                            assert(find_entry(self.scopes_view()[scope.index()].bindings_view(), v) == find_entry(
                                before_child.scopes_view()[scope.index()].bindings_view(),
                                v,
                            ));
                        }
                    },
                    None => {},
                }
                assert forall|v: Seq<char>|
                    !declared_in(node.data.children@.take(j + 1), v) implies #[trigger] find_entry(
                        self.scopes_view()[scope.index()].bindings_view(),
                        v,
                    ) == find_entry(bound.scopes_view()[scope.index()].bindings_view(), v) by {
                    lemma_declared_in_take(node.data.children@, j as int, v);
                }
                lemma_attrs_built_grow(attrs@, node.data.attrs@, before_child.thunks_view(), self.thunks_view(), scope);
                assert forall|k: int| 0 <= k < j implies #[trigger] self.objects_view()[children@[k].index()]
                    == before_child.objects_view()[children@[k].index()] by {}
                assert forall|k: int| 0 <= k < j implies self.built_from(
                    (#[trigger] children@[k]).index(),
                    node.data.children@[k],
                    scope,
                ) by {
                    before_child.lemma_built_stable(self, children@[k].index(), node.data.children@[k], scope);
                }
            }
            children.push(child);
            j = j + 1;
        }
        proof {
            assert(node.data.attrs@.subrange(0, node.data.attrs@.len() as int) == node.data.attrs@);
            assert(node.data.children@.subrange(0, node.data.children@.len() as int) == node.data.children@);
        }
        let ghost before_set = *self;
        let mut_object = self.object_mut(obj);
        mut_object.id = match id {
            Some(n) => Some(n.data),
            None => None,
        };
        mut_object.attrs = attrs;
        mut_object.children = children;
        proof {
            assert(object_ok(self.objects_view()[obj.index()], self.thunks_view().len() as int, self.objects_view().len() as int));
            assert forall|o: int| 0 <= o < self.objects_view().len() implies object_ok(
                #[trigger] self.objects_view()[o],
                self.thunks_view().len() as int,
                self.objects_view().len() as int,
            ) by {
                if o != obj.index() {
                    assert(self.objects_view()[o] == before_set.objects_view()[o]);
                }
            }
            assert(node.data.children@.take(node.data.children@.len() as int) =~= node.data.children@);
            assert forall|v: Seq<char>| !subtree_declares(*node, v) implies #[trigger] find_entry(
                self.scopes_view()[scope.index()].bindings_view(),
                v,
            ) == find_entry(start.scopes_view()[scope.index()].bindings_view(), v) by {
                lemma_subtree_declares(*node, v);
                assert(!declared_in(node.data.children@, v));
                assert(!declared_in(node.data.children@.take(node.data.children@.len() as int), v));
                assert(find_entry(before_set.scopes_view()[scope.index()].bindings_view(), v) == find_entry(
                    bound.scopes_view()[scope.index()].bindings_view(),
                    v,
                ));
                assert(declared_id(node.data.attrs@) != Some(v));
                assert(find_entry(bound.scopes_view()[scope.index()].bindings_view(), v) == find_entry(
                    after_attrs.scopes_view()[scope.index()].bindings_view(),
                    v,
                ));
            }
            assert forall|k: int| 0 <= k < node.data.children@.len() implies {
                let c = #[trigger] self.objects_view()[obj.index()].children_view()[k].index();
                obj.index() < c && self.built_from(c, node.data.children@[k], scope)
            } by {
                let c = children@[k].index();
                assert(self.objects_view()[obj.index()].children_view()[k] == children@[k]);
                assert(before_set.built_from(c, node.data.children@[k], scope));
                before_set.lemma_built_stable(self, c, node.data.children@[k], scope);
            }
        }
        obj
    }
}


impl Context {
    /// Report a value that is not a boolean.
    fn expect_bool<T>(&mut self, source: &Node<T>, value: Value) -> (r: Option<bool>)
        ensures
            r == value.as_bool_spec(),
            r is Some ==> *final(self) == *old(self),
            final(self).thunks_view() == old(self).thunks_view(),
            final(self).objects_view() == old(self).objects_view(),
            final(self).scopes_view() == old(self).scopes_view(),
            old(self).errors_view().len() <= final(self).errors_view().len(),
            forall|k: int| 0 <= k < old(self).errors_view().len() ==> #[trigger] final(self).errors_view()[k]
                == old(self).errors_view()[k],
    {
        let result = value.as_bool();
        if result.is_none() {
            let mut m = String::new();
            push_str(&mut m, "expected bool");
            self.error(source, m);
        }
        result
    }

    /// Evaluate a thunk, at most once: an evaluated thunk gives its value,
    /// and one that is being evaluated is reported as endless recursion.
    fn force_thunk(&mut self, thunk_id: ThunkId) -> (r: Option<Value>)
        requires
            old(self).wf(),
            thunk_id.index() < old(self).thunks_view().len(),
        ensures
            final(self).wf(),
            final(self).extends(old(self), -1),
            final(self).pending_work() <= old(self).pending_work(),
            old(self).thunks_view()[thunk_id.index()] is Unevaluated ==> final(self).pending_work()
                < old(self).pending_work(),
            !(old(self).thunks_view()[thunk_id.index()] is Unevaluated) ==> final(self).thunks_view()
                == old(self).thunks_view() && final(self).objects_view() == old(self).objects_view()
                && final(self).scopes_view() == old(self).scopes_view(),
            old(self).thunks_view()[thunk_id.index()] is Evaluated ==> final(self).errors_view()
                == old(self).errors_view(),
            !(final(self).thunks_view()[thunk_id.index()] is Unevaluated),
            r == thunk_value(final(self).thunks_view(), thunk_id),
            r matches Some(v) ==> value_ok(v, final(self).objects_view().len() as int),
            old(self).thunks_view()[thunk_id.index()] matches Thunk::Unevaluated { scope, expr } ==> (object_free(
                *expr,
            ) ==> r == final(self).value_of(*expr, scope.index())),
            final(self).sound_since(old(self)),
        decreases old(self).pending_work(), 2int,
    {
        let i = thunk_id.0;
        let ghost start = *self;
        proof {
            assert(thunk_ok(self.thunks_view()[i as int], self.scopes_view().len() as int, self.objects_view().len() as int));
        }
        match &self.thunks[i] {
            Thunk::Unevaluated { scope, expr } => {
                let expr = share(expr);
                let scope = *scope;
                let marker = Thunk::Evaluating { expr: share(&expr) };
                proof {
                    lemma_pending_update(self.thunks_view(), i as int, marker);
                }
                self.thunks.set(i, marker);
                let ghost marked = *self;
                match self.eval_expr(&expr, scope) {
                    Some(result) => {
                        let done = Thunk::Evaluated(result.duplicate());
                        proof {
                            lemma_pending_update(self.thunks_view(), i as int, done);
                        }
                        let ghost evaluated = *self;
                        self.thunks.set(i, done);
                        proof {
                            assert(progressed(marked.thunks_view()[i as int], evaluated.thunks_view()[i as int]));
                            assert(self.keeps(&evaluated));
                            assert forall|t: int| 0 <= t < start.thunks_view().len() implies progressed(
                                #[trigger] start.thunks_view()[t],
                                self.thunks_view()[t],
                            ) by {
                                if t != i {
                                    assert(marked.thunks_view()[t] == start.thunks_view()[t]);
                                    assert(progressed(marked.thunks_view()[t], evaluated.thunks_view()[t]));
                                }
                            }
                            if object_free_at(&expr) {
                                evaluated.lemma_value_stable(self, &*expr, scope.index());
                            }
                            assert forall|t: int| 0 <= t < start.thunks_view().len() implies match #[trigger] start.thunks_view()[t] {
                                Thunk::Unevaluated { scope, expr } => object_free(*expr) ==> (self.thunks_view()[t] matches Thunk::Evaluated(
                                    v,
                                ) ==> self.value_of(*expr, scope.index()) == Some(v)),
                                _ => true,
                            } by {
                                if t != i {
                                    assert(marked.thunks_view()[t] == start.thunks_view()[t]);
                                    if let Thunk::Unevaluated { scope: s2, expr: e2 } = start.thunks_view()[t] {
                                        assert(thunk_ok(start.thunks_view()[t], start.scopes_view().len() as int, start.objects_view().len() as int));
                                        if object_free(*e2) && evaluated.thunks_view()[t] is Evaluated {
                                            evaluated.lemma_value_stable(self, &*e2, s2.index());
                                        }
                                    }
                                }
                            }
                        }
                        Some(result)
                    },
                    None => {
                        proof {
                            assert(progressed(marked.thunks_view()[i as int], self.thunks_view()[i as int]));
                            assert forall|t: int| 0 <= t < start.thunks_view().len() implies progressed(
                                #[trigger] start.thunks_view()[t],
                                self.thunks_view()[t],
                            ) by {
                                if t != i {
                                    assert(marked.thunks_view()[t] == start.thunks_view()[t]);
                                    assert(progressed(marked.thunks_view()[t], self.thunks_view()[t]));
                                }
                            }
                        }
                        let mut m = String::new();
                        push_str(&mut m, "Failed to evaluate thunk ");
                        push_nat_digits(&mut m, i as u64);
                        self.error(&*expr, m);
                        proof {
                            assert forall|t: int| 0 <= t < start.thunks_view().len() implies match #[trigger] start.thunks_view()[t] {
                                Thunk::Unevaluated { scope, expr } => object_free(*expr) ==> (self.thunks_view()[t] matches Thunk::Evaluated(
                                    v,
                                ) ==> self.value_of(*expr, scope.index()) == Some(v)),
                                _ => true,
                            } by {
                                if t != i {
                                    assert(marked.thunks_view()[t] == start.thunks_view()[t]);
                                }
                            }
                        }
                        None
                    },
                }
            },
            Thunk::Evaluating { expr } => {
                let expr = share(expr);
                let mut m = String::new();
                push_str(&mut m, "Evaluating thunk ");
                push_nat_digits(&mut m, i as u64);
                push_str(&mut m, " caused endless recursion");
                self.error(&*expr, m);
                None
            },
            Thunk::Evaluated(value) => Some(value.duplicate()),
        }
    }

    /// Evaluate an expression in a scope. Object literals are built in a
    /// scope of their own inside `scope`.
    fn eval_expr(&mut self, expr: &Node<Expr>, scope: ScopeId) -> (r: Option<Value>)
        requires
            old(self).wf(),
            scope.index() < old(self).scopes_view().len(),
        ensures
            final(self).wf(),
            final(self).extends(old(self), -1),
            final(self).pending_work() <= old(self).pending_work() + expr_size(*expr),
            r matches Some(v) ==> value_ok(v, final(self).objects_view().len() as int),
            object_free(*expr) ==> r == final(self).value_of(*expr, scope.index()),
            expr.data matches Expr::Object(o) ==> r matches Some(Value::Object(id)) && id.index()
                == old(self).objects_view().len() && final(self).objects_view()[id.index()].kind_view()
                == o.data.name.data@,
            final(self).sound_since(old(self)),
            quiet(*expr) ==> *final(self) == *old(self) && r == quiet_value(*expr),
            match expr.data {
                Expr::Var(v) => match lookup_from(old(self).scopes_view(), scope.index(), v@) {
                    Some(t) => !(final(self).thunks_view()[t.index()] is Unevaluated),
                    None => true,
                },
                Expr::Accessor { expr: inner, attribute, .. } => object_free(*inner) ==> match final(self).value_of(
                    *inner,
                    scope.index(),
                ) {
                    Some(Value::Object(o)) => 0 <= o.index() < final(self).objects_view().len() ==> match find_entry(
                        final(self).objects_view()[o.index()].attrs_view(),
                        attribute.data@,
                    ) {
                        Some(t) => !(final(self).thunks_view()[t.index()] is Unevaluated),
                        None => true,
                    },
                    _ => true,
                },
                _ => true,
            },
        decreases old(self).pending_work() + expr_size(*expr), 1int,
    {
        let ghost start = *self;
        proof {
            start.lemma_sound_refl();
        }
        match &expr.data {
            Expr::String(x) => Some(Value::String(x.clone())),
            Expr::Int(x) => Some(Value::Int(*x)),
            Expr::Ratio(x) => Some(Value::Ratio(*x)),
            Expr::Float(x) => Some(Value::Float(FloatLit { text: x.text.clone() })),
            Expr::Bool(x) => Some(Value::Bool(*x)),
            Expr::Unary { operator, operand } => match operator.data {
                UnaryOp::Plus => None,
                UnaryOp::Minus => None,
                UnaryOp::Not => {
                    let operand_value = match self.eval_expr(operand, scope) {
                        Some(v) => v,
                        None => return None,
                    };
                    let ghost evaluated = *self;
                    let b = self.expect_bool(&**operand, operand_value);
                    proof {
                        start.lemma_sound_views(&evaluated, self);
                    }
                    let b = match b {
                        Some(b) => b,
                        None => return None,
                    };
                    Some(Value::Bool(!b))
                },
            },
            Expr::Binary { left, operator, right } => match operator.data {
                BinaryOp::Add => None,
                BinaryOp::Sub => None,
                BinaryOp::Mult => None,
                BinaryOp::Div => None,
                BinaryOp::And => {
                    let left_value = match self.eval_expr(left, scope) {
                        Some(v) => v,
                        None => return None,
                    };
                    let ghost evaluated = *self;
                    let l = self.expect_bool(&**left, left_value);
                    proof {
                        start.lemma_sound_views(&evaluated, self);
                    }
                    let l = match l {
                        Some(b) => b,
                        None => return None,
                    };
                    if l {
                        let ghost mid = *self;
                        let right_value = match self.eval_expr(right, scope) {
                            Some(v) => v,
                            None => {
                                proof {
                                    if object_free_at(&expr) {
                                        { self.lemma_extends_keeps(&mid); } mid.lemma_value_stable(self, &**left, scope.index());
                                    }
                                    start.lemma_sound_chain(&mid, self);
                                }
                                return None;
                            },
                        };
                        let ghost after_right = *self;
                        proof {
                            start.lemma_sound_chain(&mid, &after_right);
                        }
                        let r = match self.expect_bool(&**right, right_value) {
                            Some(b) => b,
                            None => {
                                proof {
                                    if object_free_at(&expr) {
                                        { after_right.lemma_extends_keeps(&mid); } mid.lemma_value_stable(&after_right, &**left, scope.index());
                                    }
                                    start.lemma_sound_views(&after_right, self);
                                }
                                return None;
                            },
                        };
                        proof {
                            if object_free_at(&expr) {
                                { self.lemma_extends_keeps(&mid); } mid.lemma_value_stable(self, &**left, scope.index());
                            }
                            start.lemma_sound_views(&after_right, self);
                        }
                        Some(Value::Bool(r))
                    } else {
                        Some(Value::Bool(false))
                    }
                },
                BinaryOp::Or => {
                    let left_value = match self.eval_expr(left, scope) {
                        Some(v) => v,
                        None => return None,
                    };
                    let ghost evaluated = *self;
                    let l = self.expect_bool(&**left, left_value);
                    proof {
                        start.lemma_sound_views(&evaluated, self);
                    }
                    let l = match l {
                        Some(b) => b,
                        None => return None,
                    };
                    if l {
                        Some(Value::Bool(true))
                    } else {
                        let ghost mid = *self;
                        let right_value = match self.eval_expr(right, scope) {
                            Some(v) => v,
                            None => {
                                proof {
                                    if object_free_at(&expr) {
                                        { self.lemma_extends_keeps(&mid); } mid.lemma_value_stable(self, &**left, scope.index());
                                    }
                                    start.lemma_sound_chain(&mid, self);
                                }
                                return None;
                            },
                        };
                        let ghost after_right = *self;
                        proof {
                            start.lemma_sound_chain(&mid, &after_right);
                        }
                        let r = match self.expect_bool(&**right, right_value) {
                            Some(b) => b,
                            None => {
                                proof {
                                    if object_free_at(&expr) {
                                        { after_right.lemma_extends_keeps(&mid); } mid.lemma_value_stable(&after_right, &**left, scope.index());
                                    }
                                    start.lemma_sound_views(&after_right, self);
                                }
                                return None;
                            },
                        };
                        proof {
                            if object_free_at(&expr) {
                                { self.lemma_extends_keeps(&mid); } mid.lemma_value_stable(self, &**left, scope.index());
                            }
                            start.lemma_sound_views(&after_right, self);
                        }
                        Some(Value::Bool(r))
                    }
                },
            },
            Expr::Paren { expr: inner, .. } => self.eval_expr(inner, scope),
            Expr::Object(node) => {
                // evaluate anonymous objects in their own scope
                let nested = self.create_scope(Some(scope));
                let object = self.build_hierarchy(node, nested);
                proof {
                    start.lemma_sound_unchanged(self);
                }
                Some(Value::Object(object))
            },
            Expr::Var(var) => {
                let name = Node { span: expr.span, pos: expr.pos, data: var.as_str() };
                let thunk = match self.lookup(scope, &name) {
                    Some(t) => t,
                    None => return None,
                };
                proof {
                    lemma_lookup_below(self.scopes_view(), scope.index(), var@, self.thunks_view().len() as int);
                }
                let ghost mid = *self;
                let r = self.force_thunk(thunk);
                proof {
                    lemma_lookup_stable(mid.scopes_view(), self.scopes_view(), scope.index(), var@);
                    start.lemma_sound_same_start(&mid, self);
                }
                r
            },
            Expr::Accessor { expr: inner, attribute, .. } => {
                let accessee = match self.eval_expr(inner, scope) {
                    Some(v) => v,
                    None => return None,
                };
                match accessee.as_object() {
                    Some(obj) => {
                        proof {
                            assert(object_ok(self.objects_view()[obj.index()], self.thunks_view().len() as int, self.objects_view().len() as int));
                            lemma_find_entry_in(self.objects_view()[obj.index()].attrs_view(), attribute.data@);
                        }
                        match find_in(&self.objects[obj.0].attrs, attribute.data.as_str()) {
                            Some(thunk) => {
                                let ghost mid = *self;
                                proof {
                                    let es = self.objects_view()[obj.index()].attrs_view();
                                    let k = choose|k: int| 0 <= k < es.len() && es[k].1 == thunk;
                                    assert(entries_below(es, self.thunks_view().len() as int));
                                    assert(es[k].1.index() < self.thunks_view().len());
                                }
                                let r = self.force_thunk(thunk);
                                proof {
                                    if object_free_at(&expr) {
                                        { self.lemma_extends_keeps(&mid); } mid.lemma_value_stable(self, &**inner, scope.index());
                                    }
                                    start.lemma_sound_chain(&mid, self);
                                }
                                r
                            },
                            None => {
                                let ghost evaluated = *self;
                                let mut m = String::new();
                                push_str(&mut m, "attribute missing");
                                self.error(attribute, m);
                                proof {
                                    start.lemma_sound_views(&evaluated, self);
                                }
                                None
                            },
                        }
                    },
                    None => {
                        let ghost evaluated = *self;
                        let mut m = String::new();
                        push_str(&mut m, "cannot access attribute of non-object");
                        self.error(&**inner, m);
                        proof {
                            start.lemma_sound_views(&evaluated, self);
                        }
                        None
                    },
                }
            },
            Expr::Call { .. } => None,
            Expr::Sequence(_) => None,
        }
    }
}


impl Context {
    /// Evaluate all thunks, including those that evaluation creates.
    fn force_all(&mut self)
        requires
            old(self).wf(),
        ensures
            final(self).wf(),
            final(self).extends(old(self), -1),
            forall|t: int| 0 <= t < final(self).thunks_view().len() ==> !(#[trigger] final(self).thunks_view()[t] is Unevaluated),
            final(self).sound_since(old(self)),
    {
        let ghost start = *self;
        proof {
            start.lemma_sound_refl();
        }
        let mut index: usize = 0;
        // Evaluating thunks may create new thunks, hence the length is read anew each time
        while index < self.thunks.len()
            invariant
                start == *old(self),
                self.wf(),
                self.extends(&start, -1),
                index <= self.thunks_view().len(),
                forall|t: int| 0 <= t < index ==> !(#[trigger] self.thunks_view()[t] is Unevaluated),
                start.wf(),
                self.sound_since(&start),
            decreases self.pending_work(), self.thunks_view().len() - index,
        {
            let ghost before = *self;
            let _ = self.force_thunk(ThunkId(index));
            proof {
                start.lemma_sound_chain(&before, self);
                assert forall|t: int| 0 <= t <= index implies !(#[trigger] self.thunks_view()[t] is Unevaluated) by {
                    if t < index {
                        assert(progressed(before.thunks_view()[t], self.thunks_view()[t]));
                    }
                }
                assert forall|t: int| 0 <= t < start.thunks_view().len() implies progressed(
                    #[trigger] start.thunks_view()[t],
                    self.thunks_view()[t],
                ) by {
                    assert(progressed(start.thunks_view()[t], before.thunks_view()[t]));
                    assert(progressed(before.thunks_view()[t], self.thunks_view()[t]));
                }
            }
            index = index + 1;
        }
    }

    /// Evaluate a file: build its objects in a new outermost scope, then
    /// evaluate all their attributes. The result holds the top-level objects.
    /// Every attribute of an object of the file, nested ones included, that
    /// was evaluated holds the value of its expression in the outermost scope,
    /// where that expression has no object literal;
    /// and when no error is reported, every thunk that was not being evaluated
    /// already has a value.
    pub fn eval(&mut self, node: &Node<Root>) -> (r: Vec<ObjectId>)
        requires
            old(self).wf(),
        ensures
            final(self).wf(),
            final(self).extends(old(self), -1),
            r@.len() == node.data.objects@.len(),
            forall|k: int| 0 <= k < r@.len() ==> (#[trigger] r@[k]).index() < final(self).objects_view().len()
                && final(self).objects_view()[r@[k].index()].kind_view() == node.data.objects@[k].data.name.data@,
            forall|t: int| 0 <= t < final(self).thunks_view().len() ==> !(#[trigger] final(self).thunks_view()[t] is Unevaluated),
            forall|k: int| 0 <= k < r@.len() ==> {
                let o = #[trigger] final(self).objects_view()[r@[k].index()];
                &&& o.id_view() == declared_id(node.data.objects@[k].data.attrs@)
                &&& attr_names_match(o.attrs_view(), node.data.objects@[k].data.attrs@)
            },
            forall|k: int|
                0 <= k < r@.len() ==> final(self).attrs_evaluated(
                    (#[trigger] r@[k]).index(),
                    node.data.objects@[k],
                    old(self).scopes_view().len() as int,
                ),
            final(self).errors_view().len() == old(self).errors_view().len() ==> forall|t: int|
                0 <= t < final(self).thunks_view().len() && !(t < old(self).thunks_view().len()
                    && old(self).thunks_view()[t] is Evaluating) ==> #[trigger] final(self).thunks_view()[t] is Evaluated,
    {
        let ghost start = *self;
        let root_scope = self.create_scope(None);
        let mut objects: Vec<ObjectId> = Vec::new();
        let mut k: usize = 0;
        while k < node.data.objects.len()
            invariant
                start == *old(self),
                self.wf(),
                self.extends(&start, -1),
                root_scope.index() == start.scopes_view().len(),
                root_scope.index() < self.scopes_view().len(),
                k <= node.data.objects@.len(),
                objects@.len() == k,
                forall|j: int| 0 <= j < k ==> (#[trigger] objects@[j]).index() < self.objects_view().len()
                    && self.objects_view()[objects@[j].index()].kind_view() == node.data.objects@[j].data.name.data@,
                forall|j: int| 0 <= j < k ==> {
                    let o = #[trigger] self.objects_view()[objects@[j].index()];
                    &&& o.id_view() == declared_id(node.data.objects@[j].data.attrs@)
                    &&& attr_names_match(o.attrs_view(), node.data.objects@[j].data.attrs@)
                },
                forall|j: int| 0 <= j < k ==> attrs_built(
                    #[trigger] self.objects_view()[objects@[j].index()].attrs_view(),
                    node.data.objects@[j].data.attrs@,
                    self.thunks_view(),
                    root_scope,
                ),
                forall|t: int| 0 <= t < start.thunks_view().len() ==> #[trigger] self.thunks_view()[t]
                    == start.thunks_view()[t],
                forall|t: int| start.thunks_view().len() <= t < self.thunks_view().len() ==> !(
                #[trigger] self.thunks_view()[t] is Evaluating),
                forall|j: int| 0 <= j < k ==> self.built_from((#[trigger] objects@[j]).index(), node.data.objects@[j], root_scope),
            decreases node.data.objects@.len() - k,
        {
            let ghost before = *self;
            let child = self.build_hierarchy(&node.data.objects[k], root_scope);
            objects.push(child);
            proof {
                let o = self.objects_view()[child.index()];
                let attrs = node.data.objects@[k as int].data.attrs@;
                assert forall|name: Seq<char>| name != id_name() implies (find_entry(o.attrs_view(), name) is Some
                    <==> #[trigger] last_value(attrs, name) is Some) by {
                    match last_value(attrs, name) {
                        None => {},
                        Some(e) => {},
                    }
                }
                assert forall|j: int| 0 <= j < k implies self.objects_view()[objects@[j].index()] == before.objects_view()[objects@[j].index()] by {
                }
                assert forall|j: int| 0 <= j < k implies self.built_from((#[trigger] objects@[j]).index(), node.data.objects@[j], root_scope) by {
                    before.lemma_built_stable(self, objects@[j].index(), node.data.objects@[j], root_scope);
                }
                assert forall|j: int| 0 <= j < k + 1 implies attrs_built(
                    #[trigger] self.objects_view()[objects@[j].index()].attrs_view(),
                    node.data.objects@[j].data.attrs@,
                    self.thunks_view(),
                    root_scope,
                ) by {
                    if j < k {
                        lemma_attrs_built_grow(
                            before.objects_view()[objects@[j].index()].attrs_view(),
                            node.data.objects@[j].data.attrs@,
                            before.thunks_view(),
                            self.thunks_view(),
                            root_scope,
                        );
                    }
                }
                assert forall|t: int| 0 <= t < start.thunks_view().len() implies progressed(
                    #[trigger] start.thunks_view()[t],
                    self.thunks_view()[t],
                ) by {
                    assert(progressed(start.thunks_view()[t], before.thunks_view()[t]));
                    assert(self.thunks_view()[t] == before.thunks_view()[t]);
                }
            }
            k = k + 1;
        }
        let ghost before_force = *self;
        self.force_all();
        proof {
            assert forall|t: int|
                0 <= t < self.thunks_view().len() && !(t < start.thunks_view().len()
                    && start.thunks_view()[t] is Evaluating) && !(#[trigger] self.thunks_view()[t] is Evaluated)
                implies start.errors_view().len() < self.errors_view().len() by {
                assert(!(self.thunks_view()[t] is Unevaluated));
                if t < before_force.thunks_view().len() && before_force.thunks_view()[t] is Evaluating {
                    if t < start.thunks_view().len() {
                        assert(before_force.thunks_view()[t] == start.thunks_view()[t]);
                    }
                }
            }
            assert forall|t: int| 0 <= t < start.thunks_view().len() implies progressed(
                #[trigger] start.thunks_view()[t],
                self.thunks_view()[t],
            ) by {
                assert(progressed(start.thunks_view()[t], before_force.thunks_view()[t]));
                assert(progressed(before_force.thunks_view()[t], self.thunks_view()[t]));
            }
            assert forall|k: int| 0 <= k < objects@.len() implies self.attrs_evaluated(
                (#[trigger] objects@[k]).index(),
                node.data.objects@[k],
                start.scopes_view().len() as int,
            ) by {
                before_force.lemma_built_evaluated(self, objects@[k].index(), node.data.objects@[k], root_scope);
            }
        }
        objects
    }
}

/// `or` and `and` are boolean disjunction and conjunction, and `not` is
/// negation: where the operands have boolean values, so does the expression,
/// whichever operand decides it.
pub proof fn law_boolean_operators(
    ts: Seq<Thunk>,
    os: Seq<Object>,
    ss: Seq<Scope>,
    e: Node<Expr>,
    s: int,
    l: bool,
    r: bool,
)
    requires
        e.data matches Expr::Binary { left, operator, right } && (operator.data == BinaryOp::Or
            || operator.data == BinaryOp::And) && value_in(ts, os, ss, *left, s) == Some(Value::Bool(l))
            && value_in(ts, os, ss, *right, s) == Some(Value::Bool(r)),
    ensures
        e.data matches Expr::Binary { operator, .. } && value_in(ts, os, ss, e, s) == Some(
            Value::Bool(if operator.data == BinaryOp::Or { l || r } else { l && r }),
        ),
{
}

/// The same holds of the values found without reading any variable.
pub proof fn law_quiet_boolean_operators(e: Node<Expr>, l: bool, r: bool)
    requires
        e.data matches Expr::Binary { left, operator, right } && (operator.data == BinaryOp::Or
            || operator.data == BinaryOp::And) && quiet_value(*left) == Some(Value::Bool(l)) && quiet_value(
            *right,
        ) == Some(Value::Bool(r)),
    ensures
        e.data matches Expr::Binary { operator, .. } && quiet_value(e) == Some(
            Value::Bool(if operator.data == BinaryOp::Or { l || r } else { l && r }),
        ),
{
}

/// `not` negates a boolean value.
pub proof fn law_not_negates(ts: Seq<Thunk>, os: Seq<Object>, ss: Seq<Scope>, e: Node<Expr>, s: int, b: bool)
    requires
        e.data matches Expr::Unary { operator, operand } && operator.data == UnaryOp::Not && value_in(
            ts,
            os,
            ss,
            *operand,
            s,
        ) == Some(Value::Bool(b)),
    ensures
        value_in(ts, os, ss, e, s) == Some(Value::Bool(!b)),
{
}

} // verus!
