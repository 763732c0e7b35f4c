use syntxt::lexer::{lex, Token};

fn chars(s: &str) -> Vec<char> {
    s.chars().collect()
}

/// Byte offset of every character index of `s`, and of its end.
fn byte_offsets(s: &str) -> Vec<usize> {
    let mut offsets: Vec<usize> = s.char_indices().map(|(i, _)| i).collect();
    offsets.push(s.len());
    offsets
}

/// The tokens of `input` with their byte ranges, as `(Token, start..end)`.
fn render(input: &str) -> String {
    let offsets = byte_offsets(input);
    let items: Vec<String> = lex(&chars(input))
        .iter()
        .map(|l| format!("({:?}, {}..{})", l.token, offsets[l.start], offsets[l.end]))
        .collect();
    format!("[{}]", items.join(", "))
}

fn check(input: &str, expected: &str) {
    assert_eq!(render(input), expected);
}

fn assert_lexable(input: &str) {
    let cs = chars(input);
    for lexeme in lex(&cs) {
        if lexeme.token == Token::Error {
            let text: String = cs[lexeme.start..lexeme.end].iter().collect();
            panic!("Could not lex {:?} at {}..{}", text, lexeme.start, lexeme.end)
        }
    }
}

#[test]
fn it_works() {
    assert_lexable(
        r#"
            Song {
                sampleRate: 44_100;
                meta: Meta {
                    author: "John Doe";
                    year: 2021;
                };

                tracks: [
                    Track {
                        filters: [
                            Lowpass {
                                cutoff: (0.5 * sin(time / 10) + 0.5) * 1000 + 1000;
                            }
                        ];
                        // more to come \o/
                    }
                ];
            }
        "#,
    )
}

#[test]
fn empty_string() {
    check(r#""""#, r#"[(LitString, 0..2)]"#);
}

#[test]
fn regular_string() {
    check(r#""hello world""#, r#"[(LitString, 0..13)]"#);
}

#[test]
fn escaped_string() {
    check(r#""hello, so called \"world\"""#, r#"[(LitString, 0..28)]"#);
}

#[test]
fn super_escaped_string() {
    check(r#""hello, so called \\\"world\\\" \w\p\:\t\n""#, r#"[(LitString, 0..43)]"#);
}

#[test]
fn errorneous_multi_line_string() {
    check(
        r#""hello, so called\
\\\"world\\\"""#,
        r#"[(Error, 0..17), (Error, 17..18), (Error, 19..20), (Error, 20..21), (Error, 21..22), (LitString, 22..33)]"#,
    );
}

#[test]
fn ints() {
    check("1337", r#"[(LitInt, 0..4)]"#);
    check("1_337", r#"[(LitInt, 0..5)]"#);
    check("-1_337", r#"[(LitInt, 0..6)]"#);
    check("+1_337", r#"[(LitInt, 0..6)]"#);
}

#[test]
fn floats() {
    check("1.337", r#"[(LitFloat, 0..5)]"#);
    check("13.37", r#"[(LitFloat, 0..5)]"#);
    check("-1.337", r#"[(LitFloat, 0..6)]"#);
    check("+0.1337", r#"[(LitFloat, 0..7)]"#);
}

#[test]
fn ratios() {
    check("1/337", r#"[(LitRatio, 0..5)]"#);
    check("13/3_7", r#"[(LitRatio, 0..6)]"#);
    check("-1/337", r#"[(LitRatio, 0..6)]"#);
    check("+0/1337", r#"[(LitRatio, 0..7)]"#);
}

#[test]
fn bools() {
    check("true", r#"[(LitBool, 0..4)]"#);
    check("false", r#"[(LitBool, 0..5)]"#);
}

#[test]
fn notes_and_double_brackets() {
    check("[[ a4+_.. r- ]]", r#"[(LLBracket, 0..2), (Note, 3..9), (Note, 10..12), (RRBracket, 13..15)]"#);
}

#[test]
fn keywords_win_over_identifiers_of_same_length() {
    check("and andy or", r#"[(And, 0..3), (Ident, 4..8), (Or, 9..11)]"#);
}

#[test]
fn comments_and_whitespace_are_dropped() {
    check("a // comment\n\tb", r#"[(Ident, 0..1), (Ident, 14..15)]"#);
}

#[test]
fn multibyte_characters_count_bytes() {
    check("\"é\" c♯4", r#"[(LitString, 0..4), (Note, 5..10)]"#);
}

#[test]
fn only_whitespace_and_comments_are_dropped() {
    let input = "Song { // a comment\n\tbpm: 120 // another\n  // whole line\n}\x0c";
    let cs = chars(input);
    let mut covered = vec![false; cs.len()];
    for lexeme in lex(&cs) {
        for k in lexeme.start..lexeme.end {
            covered[k] = true;
        }
    }
    let mut in_comment = false;
    for (k, c) in cs.iter().enumerate() {
        if !covered[k] && *c == '/' && cs.get(k + 1) == Some(&'/') {
            in_comment = true;
        }
        if *c == '\n' {
            in_comment = false;
        }
        if !covered[k] {
            assert!(in_comment || matches!(c, ' ' | '\t' | '\n' | '\x0c'), "dropped {:?} at {}", c, k);
        }
    }
    assert_eq!(render("a // b\nc"), "[(Ident, 0..1), (Ident, 7..8)]");
}
