use syntxt::ast::{Attribute, Callback, Expr, Node, Object, Root, SeqSym, Sequence, Visit, Visitor, Walk};
use syntxt::parser::Parser;

/// Records the callbacks it gets, and walks into every node it is handed.
struct Recorder {
    calls: Vec<String>,
}

impl Visitor for Recorder {
    /// Every callback may record anything; only the verifier reads this.
    fn handles(&self, _c: Callback, _next: Self) -> bool {
        true
    }
    fn root(&mut self, node: &Node<Root>) {
        self.calls.push("root".to_string());
        node.walk(self);
    }
    fn object(&mut self, node: &Node<Object>) {
        self.calls.push(format!("object {}", node.data.name.data));
        node.walk(self);
    }
    fn attribute(&mut self, node: &Node<Attribute>) {
        self.calls.push(format!("attribute {}", node.data.name.data));
        node.walk(self);
    }
    fn expr(&mut self, node: &Node<Expr>) {
        self.calls.push("expr".to_string());
        node.walk(self);
    }
    fn sequence(&mut self, node: &Node<Sequence>) {
        self.calls.push("sequence".to_string());
        node.walk(self);
    }
    fn seq_sym(&mut self, node: &Node<SeqSym>) {
        self.calls.push("sym".to_string());
        node.walk(self);
    }
}

#[test]
fn walks_in_source_order() {
    let root = Parser::parse("Song {\n  a: 1 + 2\n  Track { b: [[a4 r]] }\n}").unwrap();
    let mut r = Recorder { calls: Vec::new() };
    root.visit(&mut r);
    assert_eq!(
        r.calls,
        vec![
            "root", "object Song", "attribute a", "expr", "expr", "expr", "object Track", "attribute b", "expr",
            "sequence", "sym", "sym",
        ]
    );
}

#[test]
fn walking_visits_only_direct_parts() {
    let root = Parser::parse("Song { a: 1 }\nOther { }").unwrap();
    let mut r = Recorder { calls: Vec::new() };
    root.data.objects[1].walk(&mut r);
    assert!(r.calls.is_empty());
}

/// Counts the objects it is handed; the other callbacks keep their defaults.
struct ObjectCounter {
    count: usize,
}

impl Visitor for ObjectCounter {
    fn handles(&self, _c: Callback, _next: Self) -> bool {
        true
    }
    fn object(&mut self, node: &Node<Object>) {
        self.count += 1;
        node.walk(self);
    }
}

#[test]
fn default_callbacks_do_nothing() {
    let root = Parser::parse("Song {\n  a: 1\n  Track { }\n}\nOther { }").unwrap();
    let mut c = ObjectCounter { count: 0 };
    root.walk(&mut c);
    assert_eq!(c.count, 3);
    let mut d = ObjectCounter { count: 0 };
    root.visit(&mut d);
    assert_eq!(d.count, 0);
}
