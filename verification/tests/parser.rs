use syntxt::ast::{Attribute, Expr, Node, Object, PosRange, Root, SeqSym, Sequence};
use syntxt::lexer::Span;
use syntxt::parser::{ParseError, Parser};

// A rendering of syntax trees in a pretty Debug layout, where spans are byte
// ranges and positions read `line:column`.

fn indent(v: &str) -> String {
    v.replace('\n', "\n    ")
}

fn strukt(name: &str, fields: &[(&str, String)]) -> String {
    let mut s = format!("{} {{\n", name);
    for (f, v) in fields {
        s.push_str(&format!("    {}: {},\n", f, indent(v)));
    }
    s.push('}');
    s
}

fn tuple(name: &str, items: &[String]) -> String {
    let mut s = format!("{}(\n", name);
    for v in items {
        s.push_str(&format!("    {},\n", indent(v)));
    }
    s.push(')');
    s
}

fn list(items: &[String]) -> String {
    if items.is_empty() {
        return "[]".to_string();
    }
    let mut s = "[\n".to_string();
    for v in items {
        s.push_str(&format!("    {},\n", indent(v)));
    }
    s.push(']');
    s
}

fn string(s: &str) -> String {
    let mut out = "\"".to_string();
    for c in s.chars() {
        match c {
            '\n' => out.push_str("\\n"),
            '\t' => out.push_str("\\t"),
            '\r' => out.push_str("\\r"),
            '\\' => out.push_str("\\\\"),
            '"' => out.push_str("\\\""),
            '\'' => out.push_str("\\'"),
            c => out.push(c),
        }
    }
    out.push('"');
    out
}

fn span(s: &Span) -> String {
    format!("{}..{}", s.start, s.end)
}

fn pos(p: &PosRange) -> String {
    format!("{}:{}..{}:{}", p.start.line, p.start.column, p.end.line, p.end.column)
}

fn node<T>(n: &Node<T>, data: impl Fn(&T) -> String) -> String {
    strukt("Node", &[("span", span(&n.span)), ("pos", pos(&n.pos)), ("data", data(&n.data))])
}

fn unit(n: &Node<()>) -> String {
    node(n, |_| "()".to_string())
}

fn name(n: &Node<String>) -> String {
    node(n, |s| string(s))
}

fn expr_node(n: &Node<Expr>) -> String {
    node(n, expr)
}

fn expr(e: &Expr) -> String {
    match e {
        Expr::String(s) => tuple("String", &[string(s)]),
        Expr::Int(v) => tuple("Int", &[v.to_string()]),
        Expr::Ratio(r) => tuple("Ratio", &[format!("{:#?}", r)]),
        Expr::Float(f) => {
            let value: f64 = f.text.parse().unwrap();
            tuple("Float", &[tuple("F64N", &[format!("{:?}", value)])])
        }
        Expr::Bool(b) => tuple("Bool", &[b.to_string()]),
        Expr::Unary { operator, operand } => strukt(
            "Unary",
            &[("operator", node(operator, |o| format!("{:?}", o))), ("operand", expr_node(operand))],
        ),
        Expr::Binary { left, operator, right } => strukt(
            "Binary",
            &[
                ("left", expr_node(left)),
                ("operator", node(operator, |o| format!("{:?}", o))),
                ("right", expr_node(right)),
            ],
        ),
        Expr::Paren { lparen, expr: inner, rparen } => strukt(
            "Paren",
            &[("lparen", unit(lparen)), ("expr", expr_node(inner)), ("rparen", unit(rparen))],
        ),
        Expr::Object(o) => tuple("Object", &[node(o, object)]),
        Expr::Var(v) => tuple("Var", &[string(v)]),
        Expr::Accessor { expr: inner, dot, attribute } => strukt(
            "Accessor",
            &[("expr", expr_node(inner)), ("dot", unit(dot)), ("attribute", name(attribute))],
        ),
        Expr::Call { callee, lparen, arguments, rparen } => strukt(
            "Call",
            &[
                ("callee", expr_node(callee)),
                ("lparen", unit(lparen)),
                ("arguments", list(&arguments.iter().map(expr_node).collect::<Vec<_>>())),
                ("rparen", unit(rparen)),
            ],
        ),
        Expr::Sequence(s) => tuple("Sequence", &[node(s, sequence)]),
    }
}

fn sequence(s: &Sequence) -> String {
    strukt(
        "Sequence",
        &[
            ("llbracket", unit(&s.llbracket)),
            ("symbols", list(&s.symbols.iter().map(|sym| node(sym, seq_sym)).collect::<Vec<_>>())),
            ("rrbracket", unit(&s.rrbracket)),
        ],
    )
}

fn seq_sym(s: &SeqSym) -> String {
    match s {
        SeqSym::Note { note, duration } => strukt(
            "Note",
            &[("note", format!("{:#?}", note)), ("duration", format!("{:#?}", duration))],
        ),
        SeqSym::Rest { duration } => strukt("Rest", &[("duration", format!("{:#?}", duration))]),
        SeqSym::Expr(e) => tuple("Expr", &[expr_node(e)]),
    }
}

fn attribute(a: &Attribute) -> String {
    strukt("Attribute", &[("name", name(&a.name)), ("colon", unit(&a.colon)), ("value", expr_node(&a.value))])
}

fn object(o: &Object) -> String {
    strukt(
        "Object",
        &[
            ("name", name(&o.name)),
            ("lbrace", unit(&o.lbrace)),
            ("attrs", list(&o.attrs.iter().map(|a| node(a, attribute)).collect::<Vec<_>>())),
            ("children", list(&o.children.iter().map(|c| node(c, object)).collect::<Vec<_>>())),
            ("rbrace", unit(&o.rbrace)),
        ],
    )
}

fn root(r: &Root) -> String {
    strukt("Root", &[("objects", list(&r.objects.iter().map(|o| node(o, object)).collect::<Vec<_>>()))])
}

fn error(e: &ParseError) -> String {
    strukt("ParseError", &[("span", span(&e.span)), ("pos", pos(&e.pos)), ("message", string(&e.message))])
}

fn check(input: &str, expected: &str) {
    let rendered = match Parser::parse(input) {
        Ok(r) => tuple("Ok", &[node(&r, root)]),
        Err((r, errors)) => tuple(
            "Err",
            &[tuple("", &[node(&r, root), list(&errors.iter().map(error).collect::<Vec<_>>())])],
        ),
    };
    assert_eq!(rendered, expected);
}

fn check_expr(input: &str, expected: &str) {
    let mut parser = Parser::new(input);
    let rendered = match parser.parse_expr() {
        Ok(e) => tuple("Ok", &[expr_node(&e)]),
        Err(e) => tuple("Err", &[error(&e)]),
    };
    assert_eq!(rendered, expected);
}

#[test]
fn parse_empty() {
    check(
        "",
        r#"Ok(
    Node {
        span: 0..0,
        pos: 1:1..1:1,
        data: Root {
            objects: [],
        },
    },
)"#,
    );
}

#[test]
fn parse_empty_object() {
    check(
        r"Song {
    // super awesome song, eventually
}",
        r#"Ok(
    Node {
        span: 0..46,
        pos: 1:1..3:2,
        data: Root {
            objects: [
                Node {
                    span: 0..46,
                    pos: 1:1..3:2,
                    data: Object {
                        name: Node {
                            span: 0..4,
                            pos: 1:1..1:5,
                            data: "Song",
                        },
                        lbrace: Node {
                            span: 5..6,
                            pos: 1:6..1:7,
                            data: (),
                        },
                        attrs: [],
                        children: [],
                        rbrace: Node {
                            span: 45..46,
                            pos: 3:1..3:2,
                            data: (),
                        },
                    },
                },
            ],
        },
    },
)"#,
    );
}

#[test]
fn parse_nested_objects() {
    check(
        r"Song {
    // super awesome song with several tracks
    Track {

    }
    Track {

    }
}",
        r#"Ok(
    Node {
        span: 0..92,
        pos: 1:1..9:2,
        data: Root {
            objects: [
                Node {
                    span: 0..92,
                    pos: 1:1..9:2,
                    data: Object {
                        name: Node {
                            span: 0..4,
                            pos: 1:1..1:5,
                            data: "Song",
                        },
                        lbrace: Node {
                            span: 5..6,
                            pos: 1:6..1:7,
                            data: (),
                        },
                        attrs: [],
                        children: [
                            Node {
                                span: 57..71,
                                pos: 3:5..5:6,
                                data: Object {
                                    name: Node {
                                        span: 57..62,
                                        pos: 3:5..3:10,
                                        data: "Track",
                                    },
                                    lbrace: Node {
                                        span: 63..64,
                                        pos: 3:11..3:12,
                                        data: (),
                                    },
                                    attrs: [],
                                    children: [],
                                    rbrace: Node {
                                        span: 70..71,
                                        pos: 5:5..5:6,
                                        data: (),
                                    },
                                },
                            },
                            Node {
                                span: 76..90,
                                pos: 6:5..8:6,
                                data: Object {
                                    name: Node {
                                        span: 76..81,
                                        pos: 6:5..6:10,
                                        data: "Track",
                                    },
                                    lbrace: Node {
                                        span: 82..83,
                                        pos: 6:11..6:12,
                                        data: (),
                                    },
                                    attrs: [],
                                    children: [],
                                    rbrace: Node {
                                        span: 89..90,
                                        pos: 8:5..8:6,
                                        data: (),
                                    },
                                },
                            },
                        ],
                        rbrace: Node {
                            span: 91..92,
                            pos: 9:1..9:2,
                            data: (),
                        },
                    },
                },
            ],
        },
    },
)"#,
    );
}

#[test]
fn parse_nested_objects_with_attrs() {
    check(
        r#"Song {
    bpm: 120
    // super awesome song with several tracks
    Track {
        id: lead
        frob: 42
    }
    Track {
        id: drums
        frob: 1337
    }
}"#,
        r#"Ok(
    Node {
        span: 0..174,
        pos: 1:1..12:2,
        data: Root {
            objects: [
                Node {
                    span: 0..174,
                    pos: 1:1..12:2,
                    data: Object {
                        name: Node {
                            span: 0..4,
                            pos: 1:1..1:5,
                            data: "Song",
                        },
                        lbrace: Node {
                            span: 5..6,
                            pos: 1:6..1:7,
                            data: (),
                        },
                        attrs: [
                            Node {
                                span: 11..19,
                                pos: 2:5..2:13,
                                data: Attribute {
                                    name: Node {
                                        span: 11..14,
                                        pos: 2:5..2:8,
                                        data: "bpm",
                                    },
                                    colon: Node {
                                        span: 14..15,
                                        pos: 2:8..2:9,
                                        data: (),
                                    },
                                    value: Node {
                                        span: 16..19,
                                        pos: 2:10..2:13,
                                        data: Int(
                                            120,
                                        ),
                                    },
                                },
                            },
                        ],
                        children: [
                            Node {
                                span: 70..117,
                                pos: 4:5..7:6,
                                data: Object {
                                    name: Node {
                                        span: 70..75,
                                        pos: 4:5..4:10,
                                        data: "Track",
                                    },
                                    lbrace: Node {
                                        span: 76..77,
                                        pos: 4:11..4:12,
                                        data: (),
                                    },
                                    attrs: [
                                        Node {
                                            span: 86..94,
                                            pos: 5:9..5:17,
                                            data: Attribute {
                                                name: Node {
                                                    span: 86..88,
                                                    pos: 5:9..5:11,
                                                    data: "id",
                                                },
                                                colon: Node {
                                                    span: 88..89,
                                                    pos: 5:11..5:12,
                                                    data: (),
                                                },
                                                value: Node {
                                                    span: 90..94,
                                                    pos: 5:13..5:17,
                                                    data: Var(
                                                        "lead",
                                                    ),
                                                },
                                            },
                                        },
                                        Node {
                                            span: 103..111,
                                            pos: 6:9..6:17,
                                            data: Attribute {
                                                name: Node {
                                                    span: 103..107,
                                                    pos: 6:9..6:13,
                                                    data: "frob",
                                                },
                                                colon: Node {
                                                    span: 107..108,
                                                    pos: 6:13..6:14,
                                                    data: (),
                                                },
                                                value: Node {
                                                    span: 109..111,
                                                    pos: 6:15..6:17,
                                                    data: Int(
                                                        42,
                                                    ),
                                                },
                                            },
                                        },
                                    ],
                                    children: [],
                                    rbrace: Node {
                                        span: 116..117,
                                        pos: 7:5..7:6,
                                        data: (),
                                    },
                                },
                            },
                            Node {
                                span: 122..172,
                                pos: 8:5..11:6,
                                data: Object {
                                    name: Node {
                                        span: 122..127,
                                        pos: 8:5..8:10,
                                        data: "Track",
                                    },
                                    lbrace: Node {
                                        span: 128..129,
                                        pos: 8:11..8:12,
                                        data: (),
                                    },
                                    attrs: [
                                        Node {
                                            span: 138..147,
                                            pos: 9:9..9:18,
                                            data: Attribute {
                                                name: Node {
                                                    span: 138..140,
                                                    pos: 9:9..9:11,
                                                    data: "id",
                                                },
                                                colon: Node {
                                                    span: 140..141,
                                                    pos: 9:11..9:12,
                                                    data: (),
                                                },
                                                value: Node {
                                                    span: 142..147,
                                                    pos: 9:13..9:18,
                                                    data: Var(
                                                        "drums",
                                                    ),
                                                },
                                            },
                                        },
                                        Node {
                                            span: 156..166,
                                            pos: 10:9..10:19,
                                            data: Attribute {
                                                name: Node {
                                                    span: 156..160,
                                                    pos: 10:9..10:13,
                                                    data: "frob",
                                                },
                                                colon: Node {
                                                    span: 160..161,
                                                    pos: 10:13..10:14,
                                                    data: (),
                                                },
                                                value: Node {
                                                    span: 162..166,
                                                    pos: 10:15..10:19,
                                                    data: Int(
                                                        1337,
                                                    ),
                                                },
                                            },
                                        },
                                    ],
                                    children: [],
                                    rbrace: Node {
                                        span: 171..172,
                                        pos: 11:5..11:6,
                                        data: (),
                                    },
                                },
                            },
                        ],
                        rbrace: Node {
                            span: 173..174,
                            pos: 12:1..12:2,
                            data: (),
                        },
                    },
                },
            ],
        },
    },
)"#,
    );
}

#[test]
fn parse_attr_objects() {
    check(
        r#"Song {
    bpm: 120
    meta: Meta {
        name: "Example Song"
        author: "John Doe"
        year: 2021
        description: "Simply.\nAwesome."
    }
}"#,
        r#"Ok(
    Node {
        span: 0..160,
        pos: 1:1..9:2,
        data: Root {
            objects: [
                Node {
                    span: 0..160,
                    pos: 1:1..9:2,
                    data: Object {
                        name: Node {
                            span: 0..4,
                            pos: 1:1..1:5,
                            data: "Song",
                        },
                        lbrace: Node {
                            span: 5..6,
                            pos: 1:6..1:7,
                            data: (),
                        },
                        attrs: [
                            Node {
                                span: 11..19,
                                pos: 2:5..2:13,
                                data: Attribute {
                                    name: Node {
                                        span: 11..14,
                                        pos: 2:5..2:8,
                                        data: "bpm",
                                    },
                                    colon: Node {
                                        span: 14..15,
                                        pos: 2:8..2:9,
                                        data: (),
                                    },
                                    value: Node {
                                        span: 16..19,
                                        pos: 2:10..2:13,
                                        data: Int(
                                            120,
                                        ),
                                    },
                                },
                            },
                            Node {
                                span: 24..158,
                                pos: 3:5..8:6,
                                data: Attribute {
                                    name: Node {
                                        span: 24..28,
                                        pos: 3:5..3:9,
                                        data: "meta",
                                    },
                                    colon: Node {
                                        span: 28..29,
                                        pos: 3:9..3:10,
                                        data: (),
                                    },
                                    value: Node {
                                        span: 30..158,
                                        pos: 3:11..8:6,
                                        data: Object(
                                            Node {
                                                span: 30..158,
                                                pos: 3:11..8:6,
                                                data: Object {
                                                    name: Node {
                                                        span: 30..34,
                                                        pos: 3:11..3:15,
                                                        data: "Meta",
                                                    },
                                                    lbrace: Node {
                                                        span: 35..36,
                                                        pos: 3:16..3:17,
                                                        data: (),
                                                    },
                                                    attrs: [
                                                        Node {
                                                            span: 45..65,
                                                            pos: 4:9..4:29,
                                                            data: Attribute {
                                                                name: Node {
                                                                    span: 45..49,
                                                                    pos: 4:9..4:13,
                                                                    data: "name",
                                                                },
                                                                colon: Node {
                                                                    span: 49..50,
                                                                    pos: 4:13..4:14,
                                                                    data: (),
                                                                },
                                                                value: Node {
                                                                    span: 51..65,
                                                                    pos: 4:15..4:29,
                                                                    data: String(
                                                                        "Example Song",
                                                                    ),
                                                                },
                                                            },
                                                        },
                                                        Node {
                                                            span: 74..92,
                                                            pos: 5:9..5:27,
                                                            data: Attribute {
                                                                name: Node {
                                                                    span: 74..80,
                                                                    pos: 5:9..5:15,
                                                                    data: "author",
                                                                },
                                                                colon: Node {
                                                                    span: 80..81,
                                                                    pos: 5:15..5:16,
                                                                    data: (),
                                                                },
                                                                value: Node {
                                                                    span: 82..92,
                                                                    pos: 5:17..5:27,
                                                                    data: String(
                                                                        "John Doe",
                                                                    ),
                                                                },
                                                            },
                                                        },
                                                        Node {
                                                            span: 101..111,
                                                            pos: 6:9..6:19,
                                                            data: Attribute {
                                                                name: Node {
                                                                    span: 101..105,
                                                                    pos: 6:9..6:13,
                                                                    data: "year",
                                                                },
                                                                colon: Node {
                                                                    span: 105..106,
                                                                    pos: 6:13..6:14,
                                                                    data: (),
                                                                },
                                                                value: Node {
                                                                    span: 107..111,
                                                                    pos: 6:15..6:19,
                                                                    data: Int(
                                                                        2021,
                                                                    ),
                                                                },
                                                            },
                                                        },
                                                        Node {
                                                            span: 120..152,
                                                            pos: 7:9..7:41,
                                                            data: Attribute {
                                                                name: Node {
                                                                    span: 120..131,
                                                                    pos: 7:9..7:20,
                                                                    data: "description",
                                                                },
                                                                colon: Node {
                                                                    span: 131..132,
                                                                    pos: 7:20..7:21,
                                                                    data: (),
                                                                },
                                                                value: Node {
                                                                    span: 133..152,
                                                                    pos: 7:22..7:41,
                                                                    data: String(
                                                                        "Simply.\nAwesome.",
                                                                    ),
                                                                },
                                                            },
                                                        },
                                                    ],
                                                    children: [],
                                                    rbrace: Node {
                                                        span: 157..158,
                                                        pos: 8:5..8:6,
                                                        data: (),
                                                    },
                                                },
                                            },
                                        ),
                                    },
                                },
                            },
                        ],
                        children: [],
                        rbrace: Node {
                            span: 159..160,
                            pos: 9:1..9:2,
                            data: (),
                        },
                    },
                },
            ],
        },
    },
)"#,
    );
}

#[test]
fn parse_expr_int_lit() {
    check_expr(
        "-+1337",
        r#"Ok(
    Node {
        span: 0..6,
        pos: 1:1..1:7,
        data: Unary {
            operator: Node {
                span: 0..1,
                pos: 1:1..1:2,
                data: Minus,
            },
            operand: Node {
                span: 1..6,
                pos: 1:2..1:7,
                data: Int(
                    1337,
                ),
            },
        },
    },
)"#,
    );
}

#[test]
fn parse_expr_int_lit_underscores() {
    check_expr(
        "1_337",
        r#"Ok(
    Node {
        span: 0..5,
        pos: 1:1..1:6,
        data: Int(
            1337,
        ),
    },
)"#,
    );
}

#[test]
fn parse_expr_ratio_lit() {
    check_expr(
        "-1337/42",
        r#"Ok(
    Node {
        span: 0..8,
        pos: 1:1..1:9,
        data: Ratio(
            Rational {
                num: -191,
                denom: 6,
            },
        ),
    },
)"#,
    );
}

#[test]
fn parse_expr_ratio_lit_underscores() {
    check_expr(
        "+1_337/42",
        r#"Ok(
    Node {
        span: 0..9,
        pos: 1:1..1:10,
        data: Ratio(
            Rational {
                num: 191,
                denom: 6,
            },
        ),
    },
)"#,
    );
}

#[test]
fn parse_expr_float_lit() {
    check_expr(
        "-+1.337_424",
        r#"Ok(
    Node {
        span: 0..11,
        pos: 1:1..1:12,
        data: Unary {
            operator: Node {
                span: 0..1,
                pos: 1:1..1:2,
                data: Minus,
            },
            operand: Node {
                span: 1..11,
                pos: 1:2..1:12,
                data: Float(
                    F64N(
                        1.337424,
                    ),
                ),
            },
        },
    },
)"#,
    );
}

#[test]
fn parse_expr_invalid_ratio() {
    check_expr(
        "+1_337/0",
        r#"Err(
    ParseError {
        span: 0..8,
        pos: 1:1..1:9,
        message: "denominator is zero",
    },
)"#,
    );
}

#[test]
fn parse_expr_unary_parens() {
    check_expr(
        "-(-(1337))",
        r#"Ok(
    Node {
        span: 0..10,
        pos: 1:1..1:11,
        data: Unary {
            operator: Node {
                span: 0..1,
                pos: 1:1..1:2,
                data: Minus,
            },
            operand: Node {
                span: 1..10,
                pos: 1:2..1:11,
                data: Paren {
                    lparen: Node {
                        span: 1..2,
                        pos: 1:2..1:3,
                        data: (),
                    },
                    expr: Node {
                        span: 2..9,
                        pos: 1:3..1:10,
                        data: Unary {
                            operator: Node {
                                span: 2..3,
                                pos: 1:3..1:4,
                                data: Minus,
                            },
                            operand: Node {
                                span: 3..9,
                                pos: 1:4..1:10,
                                data: Paren {
                                    lparen: Node {
                                        span: 3..4,
                                        pos: 1:4..1:5,
                                        data: (),
                                    },
                                    expr: Node {
                                        span: 4..8,
                                        pos: 1:5..1:9,
                                        data: Int(
                                            1337,
                                        ),
                                    },
                                    rparen: Node {
                                        span: 8..9,
                                        pos: 1:9..1:10,
                                        data: (),
                                    },
                                },
                            },
                        },
                    },
                    rparen: Node {
                        span: 9..10,
                        pos: 1:10..1:11,
                        data: (),
                    },
                },
            },
        },
    },
)"#,
    );
}

#[test]
fn parse_expr_int_lit_too_big() {
    check_expr(
        "2305972057823905702935709237509237509237509237509237059273057",
        r#"Err(
    ParseError {
        span: 0..61,
        pos: 1:1..1:62,
        message: "number too large to fit in target type",
    },
)"#,
    );
}

#[test]
fn parse_expr_infix() {
    check_expr(
        "2 * 4 + 17 * (1 + 1)",
        r#"Ok(
    Node {
        span: 0..20,
        pos: 1:1..1:21,
        data: Binary {
            left: Node {
                span: 0..5,
                pos: 1:1..1:6,
                data: Binary {
                    left: Node {
                        span: 0..1,
                        pos: 1:1..1:2,
                        data: Int(
                            2,
                        ),
                    },
                    operator: Node {
                        span: 2..3,
                        pos: 1:3..1:4,
                        data: Mult,
                    },
                    right: Node {
                        span: 4..5,
                        pos: 1:5..1:6,
                        data: Int(
                            4,
                        ),
                    },
                },
            },
            operator: Node {
                span: 6..7,
                pos: 1:7..1:8,
                data: Add,
            },
            right: Node {
                span: 8..20,
                pos: 1:9..1:21,
                data: Binary {
                    left: Node {
                        span: 8..10,
                        pos: 1:9..1:11,
                        data: Int(
                            17,
                        ),
                    },
                    operator: Node {
                        span: 11..12,
                        pos: 1:12..1:13,
                        data: Mult,
                    },
                    right: Node {
                        span: 13..20,
                        pos: 1:14..1:21,
                        data: Paren {
                            lparen: Node {
                                span: 13..14,
                                pos: 1:14..1:15,
                                data: (),
                            },
                            expr: Node {
                                span: 14..19,
                                pos: 1:15..1:20,
                                data: Binary {
                                    left: Node {
                                        span: 14..15,
                                        pos: 1:15..1:16,
                                        data: Int(
                                            1,
                                        ),
                                    },
                                    operator: Node {
                                        span: 16..17,
                                        pos: 1:17..1:18,
                                        data: Add,
                                    },
                                    right: Node {
                                        span: 18..19,
                                        pos: 1:19..1:20,
                                        data: Int(
                                            1,
                                        ),
                                    },
                                },
                            },
                            rparen: Node {
                                span: 19..20,
                                pos: 1:20..1:21,
                                data: (),
                            },
                        },
                    },
                },
            },
        },
    },
)"#,
    );
}

#[test]
fn parse_expr_string() {
    check_expr(
        r#""beautiful \n escape\t sequences\\ don't you \tthink?""#,
        r#"Ok(
    Node {
        span: 0..54,
        pos: 1:1..1:55,
        data: String(
            "beautiful \n escape\t sequences\\ don\'t you \tthink?",
        ),
    },
)"#,
    );
}

#[test]
fn parse_invalid_escape() {
    check_expr(
        r#""Broken \escape sequences are the worst""#,
        r#"Err(
    ParseError {
        span: 8..10,
        pos: 1:9..1:11,
        message: "unknown escape sequence",
    },
)"#,
    );
}

#[test]
fn parse_expr_bool() {
    check_expr(
        "true and false or false and true",
        r#"Ok(
    Node {
        span: 0..32,
        pos: 1:1..1:33,
        data: Binary {
            left: Node {
                span: 0..14,
                pos: 1:1..1:15,
                data: Binary {
                    left: Node {
                        span: 0..4,
                        pos: 1:1..1:5,
                        data: Bool(
                            true,
                        ),
                    },
                    operator: Node {
                        span: 5..8,
                        pos: 1:6..1:9,
                        data: And,
                    },
                    right: Node {
                        span: 9..14,
                        pos: 1:10..1:15,
                        data: Bool(
                            false,
                        ),
                    },
                },
            },
            operator: Node {
                span: 15..17,
                pos: 1:16..1:18,
                data: Or,
            },
            right: Node {
                span: 18..32,
                pos: 1:19..1:33,
                data: Binary {
                    left: Node {
                        span: 18..23,
                        pos: 1:19..1:24,
                        data: Bool(
                            false,
                        ),
                    },
                    operator: Node {
                        span: 24..27,
                        pos: 1:25..1:28,
                        data: And,
                    },
                    right: Node {
                        span: 28..32,
                        pos: 1:29..1:33,
                        data: Bool(
                            true,
                        ),
                    },
                },
            },
        },
    },
)"#,
    );
}

#[test]
fn parse_dot_exprs() {
    check_expr(
        "foo.bar.baz",
        r#"Ok(
    Node {
        span: 0..11,
        pos: 1:1..1:12,
        data: Accessor {
            expr: Node {
                span: 0..7,
                pos: 1:1..1:8,
                data: Accessor {
                    expr: Node {
                        span: 0..3,
                        pos: 1:1..1:4,
                        data: Var(
                            "foo",
                        ),
                    },
                    dot: Node {
                        span: 3..4,
                        pos: 1:4..1:5,
                        data: (),
                    },
                    attribute: Node {
                        span: 4..7,
                        pos: 1:5..1:8,
                        data: "bar",
                    },
                },
            },
            dot: Node {
                span: 7..8,
                pos: 1:8..1:9,
                data: (),
            },
            attribute: Node {
                span: 8..11,
                pos: 1:9..1:12,
                data: "baz",
            },
        },
    },
)"#,
    );
}

#[test]
fn parse_dot_exprs_parens() {
    check_expr(
        "(foo.bar).baz",
        r#"Ok(
    Node {
        span: 0..13,
        pos: 1:1..1:14,
        data: Accessor {
            expr: Node {
                span: 0..9,
                pos: 1:1..1:10,
                data: Paren {
                    lparen: Node {
                        span: 0..1,
                        pos: 1:1..1:2,
                        data: (),
                    },
                    expr: Node {
                        span: 1..8,
                        pos: 1:2..1:9,
                        data: Accessor {
                            expr: Node {
                                span: 1..4,
                                pos: 1:2..1:5,
                                data: Var(
                                    "foo",
                                ),
                            },
                            dot: Node {
                                span: 4..5,
                                pos: 1:5..1:6,
                                data: (),
                            },
                            attribute: Node {
                                span: 5..8,
                                pos: 1:6..1:9,
                                data: "bar",
                            },
                        },
                    },
                    rparen: Node {
                        span: 8..9,
                        pos: 1:9..1:10,
                        data: (),
                    },
                },
            },
            dot: Node {
                span: 9..10,
                pos: 1:10..1:11,
                data: (),
            },
            attribute: Node {
                span: 10..13,
                pos: 1:11..1:14,
                data: "baz",
            },
        },
    },
)"#,
    );
}

#[test]
fn parse_dot_exprs_invalid_parens() {
    check_expr(
        "foo.(bar.baz)",
        r#"Err(
    ParseError {
        span: 4..5,
        pos: 1:5..1:6,
        message: "Expected one of [Ident], but got LParen",
    },
)"#,
    );
}

#[test]
fn parse_call() {
    check_expr(
        "atan2(1, 2, ) + -foo.frob(42, sin(pi))",
        r#"Ok(
    Node {
        span: 0..38,
        pos: 1:1..1:39,
        data: Binary {
            left: Node {
                span: 0..13,
                pos: 1:1..1:14,
                data: Call {
                    callee: Node {
                        span: 0..5,
                        pos: 1:1..1:6,
                        data: Var(
                            "atan2",
                        ),
                    },
                    lparen: Node {
                        span: 5..6,
                        pos: 1:6..1:7,
                        data: (),
                    },
                    arguments: [
                        Node {
                            span: 6..7,
                            pos: 1:7..1:8,
                            data: Int(
                                1,
                            ),
                        },
                        Node {
                            span: 9..10,
                            pos: 1:10..1:11,
                            data: Int(
                                2,
                            ),
                        },
                    ],
                    rparen: Node {
                        span: 12..13,
                        pos: 1:13..1:14,
                        data: (),
                    },
                },
            },
            operator: Node {
                span: 14..15,
                pos: 1:15..1:16,
                data: Add,
            },
            right: Node {
                span: 16..38,
                pos: 1:17..1:39,
                data: Unary {
                    operator: Node {
                        span: 16..17,
                        pos: 1:17..1:18,
                        data: Minus,
                    },
                    operand: Node {
                        span: 17..38,
                        pos: 1:18..1:39,
                        data: Call {
                            callee: Node {
                                span: 17..25,
                                pos: 1:18..1:26,
                                data: Accessor {
                                    expr: Node {
                                        span: 17..20,
                                        pos: 1:18..1:21,
                                        data: Var(
                                            "foo",
                                        ),
                                    },
                                    dot: Node {
                                        span: 20..21,
                                        pos: 1:21..1:22,
                                        data: (),
                                    },
                                    attribute: Node {
                                        span: 21..25,
                                        pos: 1:22..1:26,
                                        data: "frob",
                                    },
                                },
                            },
                            lparen: Node {
                                span: 25..26,
                                pos: 1:26..1:27,
                                data: (),
                            },
                            arguments: [
                                Node {
                                    span: 26..28,
                                    pos: 1:27..1:29,
                                    data: Int(
                                        42,
                                    ),
                                },
                                Node {
                                    span: 30..37,
                                    pos: 1:31..1:38,
                                    data: Call {
                                        callee: Node {
                                            span: 30..33,
                                            pos: 1:31..1:34,
                                            data: Var(
                                                "sin",
                                            ),
                                        },
                                        lparen: Node {
                                            span: 33..34,
                                            pos: 1:34..1:35,
                                            data: (),
                                        },
                                        arguments: [
                                            Node {
                                                span: 34..36,
                                                pos: 1:35..1:37,
                                                data: Var(
                                                    "pi",
                                                ),
                                            },
                                        ],
                                        rparen: Node {
                                            span: 36..37,
                                            pos: 1:37..1:38,
                                            data: (),
                                        },
                                    },
                                },
                            ],
                            rparen: Node {
                                span: 37..38,
                                pos: 1:38..1:39,
                                data: (),
                            },
                        },
                    },
                },
            },
        },
    },
)"#,
    );
}

#[test]
fn parse_recover_from_errors() {
    check(
        r#"Song {
    bpm: 120
    sampleRate: 44_100
    meta: Meta {
        name: "Example Song"
        author: "John Doe"
        year: 2021
        description: "Simply.\nAwesome."
        awesome: true and not false
    }
    Track {
      name: "Lead" "bla"

      {}

      wtf: call(1, 2, 3 "fpp", 3, 4, 5 "Bla")

      Sequence {
        start: 8/4
      }
    }
    // Test for comments
    Track {
      name: "Drums"
    }
}"#,
        r#"Err(
    (
        Node {
            span: 0..427,
            pos: 1:1..26:2,
            data: Root {
                objects: [
                    Node {
                        span: 0..427,
                        pos: 1:1..26:2,
                        data: Object {
                            name: Node {
                                span: 0..4,
                                pos: 1:1..1:5,
                                data: "Song",
                            },
                            lbrace: Node {
                                span: 5..6,
                                pos: 1:6..1:7,
                                data: (),
                            },
                            attrs: [
                                Node {
                                    span: 11..19,
                                    pos: 2:5..2:13,
                                    data: Attribute {
                                        name: Node {
                                            span: 11..14,
                                            pos: 2:5..2:8,
                                            data: "bpm",
                                        },
                                        colon: Node {
                                            span: 14..15,
                                            pos: 2:8..2:9,
                                            data: (),
                                        },
                                        value: Node {
                                            span: 16..19,
                                            pos: 2:10..2:13,
                                            data: Int(
                                                120,
                                            ),
                                        },
                                    },
                                },
                                Node {
                                    span: 24..42,
                                    pos: 3:5..3:23,
                                    data: Attribute {
                                        name: Node {
                                            span: 24..34,
                                            pos: 3:5..3:15,
                                            data: "sampleRate",
                                        },
                                        colon: Node {
                                            span: 34..35,
                                            pos: 3:15..3:16,
                                            data: (),
                                        },
                                        value: Node {
                                            span: 36..42,
                                            pos: 3:17..3:23,
                                            data: Int(
                                                44100,
                                            ),
                                        },
                                    },
                                },
                                Node {
                                    span: 47..217,
                                    pos: 4:5..10:6,
                                    data: Attribute {
                                        name: Node {
                                            span: 47..51,
                                            pos: 4:5..4:9,
                                            data: "meta",
                                        },
                                        colon: Node {
                                            span: 51..52,
                                            pos: 4:9..4:10,
                                            data: (),
                                        },
                                        value: Node {
                                            span: 53..217,
                                            pos: 4:11..10:6,
                                            data: Object(
                                                Node {
                                                    span: 53..217,
                                                    pos: 4:11..10:6,
                                                    data: Object {
                                                        name: Node {
                                                            span: 53..57,
                                                            pos: 4:11..4:15,
                                                            data: "Meta",
                                                        },
                                                        lbrace: Node {
                                                            span: 58..59,
                                                            pos: 4:16..4:17,
                                                            data: (),
                                                        },
                                                        attrs: [
                                                            Node {
                                                                span: 68..88,
                                                                pos: 5:9..5:29,
                                                                data: Attribute {
                                                                    name: Node {
                                                                        span: 68..72,
                                                                        pos: 5:9..5:13,
                                                                        data: "name",
                                                                    },
                                                                    colon: Node {
                                                                        span: 72..73,
                                                                        pos: 5:13..5:14,
                                                                        data: (),
                                                                    },
                                                                    value: Node {
                                                                        span: 74..88,
                                                                        pos: 5:15..5:29,
                                                                        data: String(
                                                                            "Example Song",
                                                                        ),
                                                                    },
                                                                },
                                                            },
                                                            Node {
                                                                span: 97..115,
                                                                pos: 6:9..6:27,
                                                                data: Attribute {
                                                                    name: Node {
                                                                        span: 97..103,
                                                                        pos: 6:9..6:15,
                                                                        data: "author",
                                                                    },
                                                                    colon: Node {
                                                                        span: 103..104,
                                                                        pos: 6:15..6:16,
                                                                        data: (),
                                                                    },
                                                                    value: Node {
                                                                        span: 105..115,
                                                                        pos: 6:17..6:27,
                                                                        data: String(
                                                                            "John Doe",
                                                                        ),
                                                                    },
                                                                },
                                                            },
                                                            Node {
                                                                span: 124..134,
                                                                pos: 7:9..7:19,
                                                                data: Attribute {
                                                                    name: Node {
                                                                        span: 124..128,
                                                                        pos: 7:9..7:13,
                                                                        data: "year",
                                                                    },
                                                                    colon: Node {
                                                                        span: 128..129,
                                                                        pos: 7:13..7:14,
                                                                        data: (),
                                                                    },
                                                                    value: Node {
                                                                        span: 130..134,
                                                                        pos: 7:15..7:19,
                                                                        data: Int(
                                                                            2021,
                                                                        ),
                                                                    },
                                                                },
                                                            },
                                                            Node {
                                                                span: 143..175,
                                                                pos: 8:9..8:41,
                                                                data: Attribute {
                                                                    name: Node {
                                                                        span: 143..154,
                                                                        pos: 8:9..8:20,
                                                                        data: "description",
                                                                    },
                                                                    colon: Node {
                                                                        span: 154..155,
                                                                        pos: 8:20..8:21,
                                                                        data: (),
                                                                    },
                                                                    value: Node {
                                                                        span: 156..175,
                                                                        pos: 8:22..8:41,
                                                                        data: String(
                                                                            "Simply.\nAwesome.",
                                                                        ),
                                                                    },
                                                                },
                                                            },
                                                            Node {
                                                                span: 184..211,
                                                                pos: 9:9..9:36,
                                                                data: Attribute {
                                                                    name: Node {
                                                                        span: 184..191,
                                                                        pos: 9:9..9:16,
                                                                        data: "awesome",
                                                                    },
                                                                    colon: Node {
                                                                        span: 191..192,
                                                                        pos: 9:16..9:17,
                                                                        data: (),
                                                                    },
                                                                    value: Node {
                                                                        span: 193..211,
                                                                        pos: 9:18..9:36,
                                                                        data: Binary {
                                                                            left: Node {
                                                                                span: 193..197,
                                                                                pos: 9:18..9:22,
                                                                                data: Bool(
                                                                                    true,
                                                                                ),
                                                                            },
                                                                            operator: Node {
                                                                                span: 198..201,
                                                                                pos: 9:23..9:26,
                                                                                data: And,
                                                                            },
                                                                            right: Node {
                                                                                span: 202..211,
                                                                                pos: 9:27..9:36,
                                                                                data: Unary {
                                                                                    operator: Node {
                                                                                        span: 202..205,
                                                                                        pos: 9:27..9:30,
                                                                                        data: Not,
                                                                                    },
                                                                                    operand: Node {
                                                                                        span: 206..211,
                                                                                        pos: 9:31..9:36,
                                                                                        data: Bool(
                                                                                            false,
                                                                                        ),
                                                                                    },
                                                                                },
                                                                            },
                                                                        },
                                                                    },
                                                                },
                                                            },
                                                        ],
                                                        children: [],
                                                        rbrace: Node {
                                                            span: 216..217,
                                                            pos: 10:5..10:6,
                                                            data: (),
                                                        },
                                                    },
                                                },
                                            ),
                                        },
                                    },
                                },
                            ],
                            children: [
                                Node {
                                    span: 222..362,
                                    pos: 11:5..21:6,
                                    data: Object {
                                        name: Node {
                                            span: 222..227,
                                            pos: 11:5..11:10,
                                            data: "Track",
                                        },
                                        lbrace: Node {
                                            span: 228..229,
                                            pos: 11:11..11:12,
                                            data: (),
                                        },
                                        attrs: [
                                            Node {
                                                span: 236..248,
                                                pos: 12:7..12:19,
                                                data: Attribute {
                                                    name: Node {
                                                        span: 236..240,
                                                        pos: 12:7..12:11,
                                                        data: "name",
                                                    },
                                                    colon: Node {
                                                        span: 240..241,
                                                        pos: 12:11..12:12,
                                                        data: (),
                                                    },
                                                    value: Node {
                                                        span: 242..248,
                                                        pos: 12:13..12:19,
                                                        data: String(
                                                            "Lead",
                                                        ),
                                                    },
                                                },
                                            },
                                            Node {
                                                span: 272..311,
                                                pos: 16:7..16:46,
                                                data: Attribute {
                                                    name: Node {
                                                        span: 272..275,
                                                        pos: 16:7..16:10,
                                                        data: "wtf",
                                                    },
                                                    colon: Node {
                                                        span: 275..276,
                                                        pos: 16:10..16:11,
                                                        data: (),
                                                    },
                                                    value: Node {
                                                        span: 277..311,
                                                        pos: 16:12..16:46,
                                                        data: Call {
                                                            callee: Node {
                                                                span: 277..281,
                                                                pos: 16:12..16:16,
                                                                data: Var(
                                                                    "call",
                                                                ),
                                                            },
                                                            lparen: Node {
                                                                span: 281..282,
                                                                pos: 16:16..16:17,
                                                                data: (),
                                                            },
                                                            arguments: [
                                                                Node {
                                                                    span: 282..283,
                                                                    pos: 16:17..16:18,
                                                                    data: Int(
                                                                        1,
                                                                    ),
                                                                },
                                                                Node {
                                                                    span: 285..286,
                                                                    pos: 16:20..16:21,
                                                                    data: Int(
                                                                        2,
                                                                    ),
                                                                },
                                                                Node {
                                                                    span: 288..289,
                                                                    pos: 16:23..16:24,
                                                                    data: Int(
                                                                        3,
                                                                    ),
                                                                },
                                                                Node {
                                                                    span: 297..298,
                                                                    pos: 16:32..16:33,
                                                                    data: Int(
                                                                        3,
                                                                    ),
                                                                },
                                                                Node {
                                                                    span: 300..301,
                                                                    pos: 16:35..16:36,
                                                                    data: Int(
                                                                        4,
                                                                    ),
                                                                },
                                                                Node {
                                                                    span: 303..304,
                                                                    pos: 16:38..16:39,
                                                                    data: Int(
                                                                        5,
                                                                    ),
                                                                },
                                                            ],
                                                            rparen: Node {
                                                                span: 310..311,
                                                                pos: 16:45..16:46,
                                                                data: (),
                                                            },
                                                        },
                                                    },
                                                },
                                            },
                                        ],
                                        children: [
                                            Node {
                                                span: 319..356,
                                                pos: 18:7..20:8,
                                                data: Object {
                                                    name: Node {
                                                        span: 319..327,
                                                        pos: 18:7..18:15,
                                                        data: "Sequence",
                                                    },
                                                    lbrace: Node {
                                                        span: 328..329,
                                                        pos: 18:16..18:17,
                                                        data: (),
                                                    },
                                                    attrs: [
                                                        Node {
                                                            span: 338..348,
                                                            pos: 19:9..19:19,
                                                            data: Attribute {
                                                                name: Node {
                                                                    span: 338..343,
                                                                    pos: 19:9..19:14,
                                                                    data: "start",
                                                                },
                                                                colon: Node {
                                                                    span: 343..344,
                                                                    pos: 19:14..19:15,
                                                                    data: (),
                                                                },
                                                                value: Node {
                                                                    span: 345..348,
                                                                    pos: 19:16..19:19,
                                                                    data: Ratio(
                                                                        Rational {
                                                                            num: 2,
                                                                            denom: 1,
                                                                        },
                                                                    ),
                                                                },
                                                            },
                                                        },
                                                    ],
                                                    children: [],
                                                    rbrace: Node {
                                                        span: 355..356,
                                                        pos: 20:7..20:8,
                                                        data: (),
                                                    },
                                                },
                                            },
                                        ],
                                        rbrace: Node {
                                            span: 361..362,
                                            pos: 21:5..21:6,
                                            data: (),
                                        },
                                    },
                                },
                                Node {
                                    span: 392..425,
                                    pos: 23:5..25:6,
                                    data: Object {
                                        name: Node {
                                            span: 392..397,
                                            pos: 23:5..23:10,
                                            data: "Track",
                                        },
                                        lbrace: Node {
                                            span: 398..399,
                                            pos: 23:11..23:12,
                                            data: (),
                                        },
                                        attrs: [
                                            Node {
                                                span: 406..419,
                                                pos: 24:7..24:20,
                                                data: Attribute {
                                                    name: Node {
                                                        span: 406..410,
                                                        pos: 24:7..24:11,
                                                        data: "name",
                                                    },
                                                    colon: Node {
                                                        span: 410..411,
                                                        pos: 24:11..24:12,
                                                        data: (),
                                                    },
                                                    value: Node {
                                                        span: 412..419,
                                                        pos: 24:13..24:20,
                                                        data: String(
                                                            "Drums",
                                                        ),
                                                    },
                                                },
                                            },
                                        ],
                                        children: [],
                                        rbrace: Node {
                                            span: 424..425,
                                            pos: 25:5..25:6,
                                            data: (),
                                        },
                                    },
                                },
                            ],
                            rbrace: Node {
                                span: 426..427,
                                pos: 26:1..26:2,
                                data: (),
                            },
                        },
                    },
                ],
            },
        },
        [
            ParseError {
                span: 249..254,
                pos: 12:20..12:25,
                message: "Expected one of [Ident, RBrace], but got LitString",
            },
            ParseError {
                span: 262..263,
                pos: 14:7..14:8,
                message: "Expected one of [Ident, RBrace], but got LBrace",
            },
            ParseError {
                span: 290..295,
                pos: 16:25..16:30,
                message: "Expected one of [RParen, Comma], but got LitString",
            },
            ParseError {
                span: 305..310,
                pos: 16:40..16:45,
                message: "Expected one of [RParen, Comma], but got LitString",
            },
        ],
    ),
)"#,
    );
}

#[test]
fn parse_expr_sequence() {
    check_expr(
        r#"[[
            a4 a4 a4 a4
            r++
            a4+_.. a4--
          ]]"#,
        r#"Ok(
    Node {
        span: 0..79,
        pos: 1:1..5:13,
        data: Sequence(
            Node {
                span: 0..79,
                pos: 1:1..5:13,
                data: Sequence {
                    llbracket: Node {
                        span: 0..2,
                        pos: 1:1..1:3,
                        data: (),
                    },
                    symbols: [
                        Node {
                            span: 15..17,
                            pos: 2:13..2:15,
                            data: Note {
                                note: Note(
                                    69,
                                ),
                                duration: Rational {
                                    num: 1,
                                    denom: 4,
                                },
                            },
                        },
                        Node {
                            span: 18..20,
                            pos: 2:16..2:18,
                            data: Note {
                                note: Note(
                                    69,
                                ),
                                duration: Rational {
                                    num: 1,
                                    denom: 4,
                                },
                            },
                        },
                        Node {
                            span: 21..23,
                            pos: 2:19..2:21,
                            data: Note {
                                note: Note(
                                    69,
                                ),
                                duration: Rational {
                                    num: 1,
                                    denom: 4,
                                },
                            },
                        },
                        Node {
                            span: 24..26,
                            pos: 2:22..2:24,
                            data: Note {
                                note: Note(
                                    69,
                                ),
                                duration: Rational {
                                    num: 1,
                                    denom: 4,
                                },
                            },
                        },
                        Node {
                            span: 39..42,
                            pos: 3:13..3:16,
                            data: Rest {
                                duration: Rational {
                                    num: 1,
                                    denom: 1,
                                },
                            },
                        },
                        Node {
                            span: 55..61,
                            pos: 4:13..4:19,
                            data: Note {
                                note: Note(
                                    69,
                                ),
                                duration: Rational {
                                    num: 15,
                                    denom: 16,
                                },
                            },
                        },
                        Node {
                            span: 62..66,
                            pos: 4:20..4:24,
                            data: Note {
                                note: Note(
                                    69,
                                ),
                                duration: Rational {
                                    num: 1,
                                    denom: 16,
                                },
                            },
                        },
                    ],
                    rrbracket: Node {
                        span: 77..79,
                        pos: 5:11..5:13,
                        data: (),
                    },
                },
            },
        ),
    },
)"#,
    );
}

#[test]
fn parse_expr_sequence_nested_exprs() {
    check_expr(
        r#"[[chord(a4, "min") a4 chord(a4, "min") a4]]"#,
        r#"Ok(
    Node {
        span: 0..43,
        pos: 1:1..1:44,
        data: Sequence(
            Node {
                span: 0..43,
                pos: 1:1..1:44,
                data: Sequence {
                    llbracket: Node {
                        span: 0..2,
                        pos: 1:1..1:3,
                        data: (),
                    },
                    symbols: [
                        Node {
                            span: 2..18,
                            pos: 1:3..1:19,
                            data: Expr(
                                Node {
                                    span: 2..18,
                                    pos: 1:3..1:19,
                                    data: Call {
                                        callee: Node {
                                            span: 2..7,
                                            pos: 1:3..1:8,
                                            data: Var(
                                                "chord",
                                            ),
                                        },
                                        lparen: Node {
                                            span: 7..8,
                                            pos: 1:8..1:9,
                                            data: (),
                                        },
                                        arguments: [
                                            Node {
                                                span: 12..17,
                                                pos: 1:13..1:18,
                                                data: String(
                                                    "min",
                                                ),
                                            },
                                        ],
                                        rparen: Node {
                                            span: 17..18,
                                            pos: 1:18..1:19,
                                            data: (),
                                        },
                                    },
                                },
                            ),
                        },
                        Node {
                            span: 19..21,
                            pos: 1:20..1:22,
                            data: Note {
                                note: Note(
                                    69,
                                ),
                                duration: Rational {
                                    num: 1,
                                    denom: 4,
                                },
                            },
                        },
                        Node {
                            span: 22..38,
                            pos: 1:23..1:39,
                            data: Expr(
                                Node {
                                    span: 22..38,
                                    pos: 1:23..1:39,
                                    data: Call {
                                        callee: Node {
                                            span: 22..27,
                                            pos: 1:23..1:28,
                                            data: Var(
                                                "chord",
                                            ),
                                        },
                                        lparen: Node {
                                            span: 27..28,
                                            pos: 1:28..1:29,
                                            data: (),
                                        },
                                        arguments: [
                                            Node {
                                                span: 32..37,
                                                pos: 1:33..1:38,
                                                data: String(
                                                    "min",
                                                ),
                                            },
                                        ],
                                        rparen: Node {
                                            span: 37..38,
                                            pos: 1:38..1:39,
                                            data: (),
                                        },
                                    },
                                },
                            ),
                        },
                        Node {
                            span: 39..41,
                            pos: 1:40..1:42,
                            data: Note {
                                note: Note(
                                    69,
                                ),
                                duration: Rational {
                                    num: 1,
                                    denom: 4,
                                },
                            },
                        },
                    ],
                    rrbracket: Node {
                        span: 41..43,
                        pos: 1:42..1:44,
                        data: (),
                    },
                },
            },
        ),
    },
)"#,
    );
}

#[test]
fn unknown_characters_are_errors() {
    assert!(Parser::parse("Song { a: 1 }").is_ok());
    match Parser::parse("Song { a: 1 ? }") {
        Err((_, errors)) => assert!(!errors.is_empty()),
        Ok(_) => panic!("a stray character was accepted"),
    }
    assert!(Parser::parse("Song { a: \"open }").is_err());
}

#[test]
fn empty_objects_always_parse() {
    let r = Parser::parse("Song {}\nTrack { }\n// nothing else\nPart {\n}").unwrap();
    assert_eq!(r.data.objects.len(), 3);
    assert!(r.data.objects.iter().all(|o| o.data.attrs.is_empty() && o.data.children.is_empty()));
    assert_eq!(r.data.objects[1].data.name.data, "Track");
    let r = Parser::parse("  \n // only a comment\n").unwrap();
    assert!(r.data.objects.is_empty());
}

#[test]
fn objects_with_variable_attributes_parse() {
    let r = Parser::parse("Song {\n  a: x + y * z\n  b: w or v and u\n}\nTrack {\n  gain: g\n}").unwrap();
    assert_eq!(r.data.objects.len(), 2);
    assert_eq!(r.data.objects[0].data.attrs.len(), 2);
    assert_eq!(r.data.objects[1].data.attrs[0].data.name.data, "gain");
}

#[test]
fn ordinary_songs_parse() {
    let r = Parser::parse("Song {\n  bpm: 120\n  swing: -(1 + 3) + 0.5 * 2\n  title: \"Intro\\n\"\n  Track {\n    gain: not true or 3/4\n    Part { loud: false }\n  }\n}\n").unwrap();
    assert_eq!(r.data.objects.len(), 1);
    assert_eq!(r.data.objects[0].data.attrs.len(), 3);
    assert_eq!(r.data.objects[0].data.children[0].data.children.len(), 1);
}

#[test]
fn body_recovery_reports_each_bad_line() {
    let (root, errors) = match Parser::parse("Song {\n  a \"x\"\n  3\n  b: 1\n}") {
        Err(x) => x,
        Ok(_) => panic!("expected errors"),
    };
    let messages: Vec<&str> = errors.iter().map(|e| e.message.as_str()).collect();
    assert_eq!(
        messages,
        vec!["Expected one of [Colon, LBrace], but got LitString", "Expected one of [Ident, RBrace], but got LitInt"]
    );
    assert_eq!(errors[0].span, Span { start: 11, end: 14 });
    assert_eq!(root.data.objects.len(), 1);
    assert_eq!(root.data.objects[0].data.attrs.len(), 1);
    assert_eq!(root.data.objects[0].data.attrs[0].data.name.data, "b");
}
