use syntxt::line_map::{LineMap, Pos};

fn pos(line: usize, column: usize) -> Pos {
    Pos { line, column }
}

#[test]
fn offsets_to_positions() {
    let s = "abc\ndefg\naäb\n";
    let m = LineMap::new(s);
    assert_eq!(m.offset_to_pos(0), pos(1, 1));
    assert_eq!(m.offset_to_pos(3), pos(1, 4));
    assert_eq!(m.offset_to_pos(4), pos(2, 1));
    assert_eq!(m.offset_to_pos(10), pos(3, 2));
    assert_eq!(m.offset_to_pos(12), pos(3, 3));
    assert_eq!(m.offset_to_pos(13), pos(3, 4));
}

#[test]
fn positions_to_offsets_round_trip() {
    let s = "abc\ndefg\naäb\n";
    let m = LineMap::new(s);
    for offset in [0, 3, 4, 10, 12, 13] {
        assert_eq!(m.pos_to_offset(m.offset_to_pos(offset)), offset);
    }
}

#[test]
fn last_line_without_newline() {
    // a last line that does not end in a line break is taken to start at the
    // end of the text when mapping positions back
    let m = LineMap::new("ab\ncd");
    assert_eq!(m.offset_to_pos(3), pos(2, 1));
    assert_eq!(m.pos_to_offset(pos(2, 1)), 5);
    assert_eq!(m.offset_to_pos(4), pos(2, 2));
}

#[test]
fn line_spans() {
    let m = LineMap::new("abcd\nefgh\nijkl\nmnop");
    let span = m.line_span(2);
    assert_eq!((span.start, span.end), (5, 9));
    let span = m.line_span(4);
    assert_eq!((span.start, span.end), (15, 19));
    assert_eq!(m.source(), "abcd\nefgh\nijkl\nmnop");
}

#[test]
fn highlighting() {
    let s = "abcd\nefgh\nijkl\nmnop";
    let m = LineMap::new(s);
    assert_eq!(
        m.highlight(pos(2, 3), pos(3, 2), false),
        "   1|abcd\n   2|efgh\n       ^^\n   3|ijkl\n     ^\n   4|mnop\n"
    );
    assert_eq!(
        m.highlight(pos(1, 2), pos(1, 3), true),
        "\u{1b}[31;1m   1|\u{1b}[0ma\u{1b}[31;1mb\u{1b}[0mcd\u{1b}[0m\n      ^\n   2|efgh\u{1b}[0m\n"
    );
}

#[test]
fn positions_print_as_line_and_column() {
    assert_eq!(Pos { line: 12, column: 3 }.to_string(), "12:3");
    assert_eq!(Pos { line: 1, column: 1 }.to_string(), "1:1");
}

#[test]
fn coloring_only_adds_escape_codes() {
    let m = LineMap::new("first line\nsecond line\nthird\nfourth");
    for (start, end) in [(pos(1, 2), pos(1, 5)), (pos(2, 3), pos(3, 2)), (pos(4, 1), pos(4, 7))] {
        let colored = m.highlight(start, end, true);
        let plain = m.highlight(start, end, false);
        assert_ne!(colored, plain);
        assert_eq!(colored.replace("\x1b[31;1m", "").replace("\x1b[0m", ""), plain);
    }
}
