use syntxt::eval::{Context, ObjectId, Thunk, Value};
use syntxt::parser::Parser;

fn evaluate(source: &str) -> (Context, Vec<ObjectId>) {
    let root = Parser::parse(source).unwrap();
    let mut context = Context::new();
    let objects = context.eval(&root);
    (context, objects)
}

fn attr_value(context: &Context, object: ObjectId, name: &str) -> Option<Value> {
    let thunk = context.object(object).attr(name)?;
    match context.thunk(thunk) {
        Thunk::Evaluated(v) => Some(v.clone()),
        _ => None,
    }
}

#[test]
fn literals_and_booleans() {
    let (context, objects) = evaluate(
        "Song {\n  bpm: 120\n  title: \"x\"\n  loud: true and not false\n  quiet: false or (true and false)\n}",
    );
    assert_eq!(objects.len(), 1);
    assert_eq!(context.object(objects[0]).kind(), "Song");
    assert_eq!(attr_value(&context, objects[0], "bpm"), Some(Value::Int(120)));
    assert_eq!(attr_value(&context, objects[0], "title"), Some(Value::String("x".to_string())));
    assert_eq!(attr_value(&context, objects[0], "loud"), Some(Value::Bool(true)));
    assert_eq!(attr_value(&context, objects[0], "quiet"), Some(Value::Bool(false)));
    assert!(context.errors().is_empty());
}

#[test]
fn variables_and_attributes() {
    let (context, objects) = evaluate(
        "Song {\n  Track {\n    id: lead\n    gain: 3\n    on: true\n  }\n  g: lead.gain\n  both: lead.on and true\n  other: yes\n}",
    );
    let song = objects[0];
    assert_eq!(context.object(song).children().len(), 1);
    assert_eq!(attr_value(&context, song, "g"), Some(Value::Int(3)));
    assert_eq!(attr_value(&context, song, "both"), Some(Value::Bool(true)));
    // attributes are no variables
    assert_eq!(attr_value(&context, song, "other"), None);
}

#[test]
fn undefined_variable_and_recursion_are_reported() {
    let (context, objects) = evaluate("Song {\n  id: s\n  a: missing\n  b: not s.b\n}");
    assert_eq!(attr_value(&context, objects[0], "a"), None);
    assert_eq!(attr_value(&context, objects[0], "b"), None);
    let messages: Vec<&str> = context.errors().iter().map(|e| e.message.as_str()).collect();
    assert!(messages.contains(&"Variable missing not defined"));
    assert!(messages.iter().any(|m| m.contains("caused endless recursion")));
    assert!(messages.iter().any(|m| m.starts_with("Failed to evaluate thunk")));
}

#[test]
fn duplicates_are_reported() {
    let (context, objects) = evaluate("Song {\n  a: 1\n  a: 2\n  id: s\n  id: t\n}");
    assert_eq!(attr_value(&context, objects[0], "a"), Some(Value::Int(2)));
    let messages: Vec<&str> = context.errors().iter().map(|e| e.message.as_str()).collect();
    assert!(messages.contains(&"'a' set more than once"));
    assert!(messages.contains(&"'id' set more than once"));
}

#[test]
fn type_errors_are_reported() {
    let (context, objects) = evaluate("Song {\n  a: not 1\n  b: 1.x\n}");
    assert_eq!(attr_value(&context, objects[0], "a"), None);
    let messages: Vec<&str> = context.errors().iter().map(|e| e.message.as_str()).collect();
    assert!(messages.contains(&"expected bool"));
    assert!(messages.contains(&"cannot access attribute of non-object"));
}

#[test]
fn object_literals_get_their_own_scope() {
    let (context, objects) = evaluate("Song {\n  id: s\n  inner: Meta { id: m\n x: true }\n  y: s.inner.x\n  z: m\n}");
    match attr_value(&context, objects[0], "inner") {
        Some(Value::Object(o)) => assert_eq!(context.object(o).kind(), "Meta"),
        other => panic!("expected an object, got {:?}", other),
    }
    assert_eq!(attr_value(&context, objects[0], "y"), Some(Value::Bool(true)));
    // the id of the literal is bound in its own scope only
    assert_eq!(attr_value(&context, objects[0], "z"), None);
}

#[test]
fn unsupported_expressions_have_no_value() {
    let (context, objects) = evaluate("Song {\n  a: 1 + 2\n  b: -(3)\n  c: f(1)\n  d: [[ a4 ]]\n}");
    for name in ["a", "b", "c", "d"] {
        assert_eq!(attr_value(&context, objects[0], name), None);
    }
}

#[test]
fn first_id_names_the_object() {
    let (context, objects) = evaluate("Song {\n  id: s\n  id: t\n  a: 1\n  b: s.a\n  c: t\n}");
    assert_eq!(attr_value(&context, objects[0], "b"), Some(Value::Int(1)));
    assert_eq!(attr_value(&context, objects[0], "c"), None);
    assert_eq!(context.object(objects[0]).attr("id"), None);
    let messages: Vec<&str> = context.errors().iter().map(|e| e.message.as_str()).collect();
    assert!(messages.contains(&"'id' set more than once"));
    assert!(messages.contains(&"Variable t not defined"));
}

#[test]
fn false_and_skips_its_right_operand() {
    let (context, objects) = evaluate("Song {\n  a: false and y\n  b: true or y\n}");
    assert_eq!(attr_value(&context, objects[0], "a"), Some(Value::Bool(false)));
    assert_eq!(attr_value(&context, objects[0], "b"), Some(Value::Bool(true)));
    assert!(context.errors().is_empty());
}

#[test]
fn forward_references_are_evaluated() {
    let (context, objects) = evaluate(
        "Song {\n  a: c.x\n  Track {\n    id: c\n    x: d.y\n  }\n  Track {\n    id: d\n    y: 7\n  }\n}",
    );
    assert_eq!(attr_value(&context, objects[0], "a"), Some(Value::Int(7)));
    assert!(context.errors().is_empty());
}
