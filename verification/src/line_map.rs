//! Bits and pieces for working with ranges of text.
use vstd::prelude::*;
use vstd::utf8::encode_utf8;
use vstd::string::StringSliceAdditionalSpecFns;
use crate::lexer::Span;
use crate::text::{
    byte_offset, byte_offsets, chars_of, lemma_byte_offset_mono, lemma_byte_offset_step, push_char,
    push_nat_digits, nat_digits, digit_char, chars_of as chars_of_str,
};

verus! {

/// Position inside a text in a form that's useful for human readers.
#[derive(Debug, Clone, Copy, Eq, PartialEq, Structural)]
pub struct Pos {
    /// Line number, starting at 1
    pub line: usize,
    /// Position within the line, in characters, starting at 1
    pub column: usize,
}

impl Pos {
    /// The position written as `line:column`.
    pub fn to_string(&self) -> (s: String)
        ensures
            s@ == nat_digits(self.line as nat) + seq![':'] + nat_digits(self.column as nat),
    {
        let mut s = String::new();
        push_nat_digits(&mut s, self.line as u64);
        push_char(&mut s, ':');
        push_nat_digits(&mut s, self.column as u64);
        proof {
            assert(nat_digits(self.line as nat).push(':') == nat_digits(self.line as nat) + seq![':']);
        }
        s
    }
}

/// Number of line breaks among the first `i` characters.
pub open spec fn newline_count(cs: Seq<char>, i: int) -> int
    decreases i,
{
    if i <= 0 {
        0
    } else {
        newline_count(cs, i - 1) + (if cs[i - 1] == '\n' { 1int } else { 0int })
    }
}

/// Index of the first character of the line that contains character `i`.
pub open spec fn line_start(cs: Seq<char>, i: int) -> int
    decreases i,
{
    if i <= 0 {
        0
    } else if cs[i - 1] == '\n' {
        i
    } else {
        line_start(cs, i - 1)
    }
}

/// Indices of the line breaks among the first `n` characters, in order.
pub open spec fn newline_indices(cs: Seq<char>, n: int) -> Seq<int>
    decreases n,
{
    if n <= 0 {
        seq![]
    } else if cs[n - 1] == '\n' {
        newline_indices(cs, n - 1).push(n - 1)
    } else {
        newline_indices(cs, n - 1)
    }
}

/// The line and column of the character with index `i`.
pub open spec fn pos_of(cs: Seq<char>, i: int) -> Pos {
    Pos { line: (newline_count(cs, i) + 1) as usize, column: (i - line_start(cs, i) + 1) as usize }
}

/// A data structure for mapping byte offsets to line/column based positions.
pub struct LineMap<'a> {
    /// The source text.
    source: &'a str,
    /// Its characters.
    chars: Vec<char>,
    /// Byte offset of every character, followed by the length in bytes.
    offsets: Vec<usize>,
    /// Character indices of the line breaks (`\n`), in order.
    newlines: Vec<usize>,
    /// For every character index (and the end), the number of preceding line breaks.
    lines: Vec<usize>,
    /// For every character index (and the end), the index where its line starts.
    starts: Vec<usize>,
}

impl<'a> LineMap<'a> {
    /// The characters of the source text.
    pub closed spec fn text(&self) -> Seq<char> {
        self.chars@
    }

    /// The line breaks of the source text, as character indices.
    pub closed spec fn breaks(&self) -> Seq<int> {
        self.newlines@.map_values(|k: usize| k as int)
    }

    /// The internal tables agree with the source text.
    pub closed spec fn wf(&self) -> bool {
        let cs = self.chars@;
        &&& cs == self.source@
        &&& self.offsets.len() == cs.len() + 1
        &&& forall|k: int| 0 <= k <= cs.len() ==> #[trigger] self.offsets@[k] == byte_offset(cs, k)
        &&& self.lines.len() == cs.len() + 1
        &&& forall|k: int| 0 <= k <= cs.len() ==> #[trigger] self.lines@[k] == newline_count(cs, k)
        &&& self.starts.len() == cs.len() + 1
        &&& forall|k: int| 0 <= k <= cs.len() ==> #[trigger] self.starts@[k] == line_start(cs, k)
        &&& self.breaks() == newline_indices(cs, cs.len() as int)
        &&& encode_utf8(cs).len() <= usize::MAX
        &&& cs.len() < usize::MAX
    }

    /// Build the map for a text.
    pub fn new(s: &'a str) -> (m: LineMap<'a>)
        ensures
            m.wf(),
            m.text() == s@,
    {
        let chars = chars_of(s);
        let bytes = s.as_bytes();
        let n = bytes.len();
        proof {
            assert(bytes@ == encode_utf8(s@));
            assert(n == bytes@.len());
        }
        let offsets = byte_offsets(&chars);
        let total = offsets.len();
        assert(total == chars.len() + 1);
        let mut newlines: Vec<usize> = Vec::new();
        let mut lines: Vec<usize> = Vec::new();
        let mut starts: Vec<usize> = Vec::new();
        let mut count: usize = 0;
        let mut start: usize = 0;
        let mut i: usize = 0;
        while i < chars.len()
            invariant
                i <= chars.len(),
                count <= i,
                start <= i,
                count == newline_count(chars@, i as int),
                start == line_start(chars@, i as int),
                lines.len() == i,
                starts.len() == i,
                forall|k: int| 0 <= k < i ==> #[trigger] lines@[k] == newline_count(chars@, k),
                forall|k: int| 0 <= k < i ==> #[trigger] starts@[k] == line_start(chars@, k),
                newlines@.map_values(|k: usize| k as int) == newline_indices(chars@, i as int),
            decreases chars.len() - i,
        {
            lines.push(count);
            starts.push(start);
            if chars[i] == '\n' {
                newlines.push(i);
                count = count + 1;
                start = i + 1;
                proof {
                    assert(newlines@.map_values(|k: usize| k as int) == newline_indices(chars@, i as int).push(
                        i as int,
                    ));
                }
            }
            i = i + 1;
        }
        lines.push(count);
        starts.push(start);
        proof {
            let _ = n;
        }
        LineMap { source: s, chars, offsets, newlines, lines, starts }
    }

    /// The text this map was built for.
    pub fn source(&self) -> (s: &'a str)
        requires
            self.wf(),
        ensures
            s@ == self.text(),
    {
        self.source
    }

    /// `offset` is the byte offset of a character of the text, or of its end.
    pub open spec fn is_boundary(&self, offset: int) -> bool {
        exists|i: int| 0 <= i <= self.text().len() && byte_offset(self.text(), i) == offset
    }

    /// Index of the character at byte offset `offset`.
    fn char_index(&self, offset: usize) -> (i: usize)
        requires
            self.wf(),
            self.is_boundary(offset as int),
        ensures
            i <= self.text().len(),
            byte_offset(self.text(), i as int) == offset,
    {
        let ghost cs = self.chars@;
        let ghost w = choose|i: int| 0 <= i <= cs.len() && byte_offset(cs, i) == offset;
        let mut lo: usize = 0;
        let mut hi: usize = self.chars.len();
        while lo < hi
            invariant
                self.wf(),
                cs == self.chars@,
                0 <= w <= cs.len(),
                byte_offset(cs, w) == offset,
                lo <= w <= hi <= cs.len(),
            decreases hi - lo,
        {
            let mid = lo + (hi - lo) / 2;
            if self.offsets[mid] < offset {
                proof {
                    if w <= mid {
                        lemma_byte_offset_mono(cs, w, mid as int);
                    }
                }
                lo = mid + 1;
            } else {
                proof {
                    if w > mid {
                        lemma_byte_offset_mono(cs, mid as int, w);
                    }
                }
                hi = mid;
            }
        }
        lo
    }

    /// The line and column of the character at byte offset `offset`.
    pub fn offset_to_pos(&self, offset: usize) -> (p: Pos)
        requires
            self.wf(),
            self.is_boundary(offset as int),
        ensures
            forall|i: int|
                0 <= i <= self.text().len() && byte_offset(self.text(), i) == offset ==> p == pos_of(
                    self.text(),
                    i,
                ),
    {
        let i = self.char_index(offset);
        let line = self.lines[i];
        let start = self.starts[i];
        proof {
            lemma_line_start_le(self.chars@, i as int);
            assert forall|j: int|
                0 <= j <= self.text().len() && byte_offset(self.text(), j) == offset implies j == i by {
                if j < i {
                    lemma_byte_offset_mono(self.chars@, j, i as int);
                } else if j > i {
                    lemma_byte_offset_mono(self.chars@, i as int, j);
                }
            }
        }
        Pos { line: line + 1, column: i - start + 1 }
    }
}

proof fn lemma_line_start_le(cs: Seq<char>, i: int)
    requires
        0 <= i,
    ensures
        0 <= line_start(cs, i) <= i,
        newline_count(cs, i) <= i,
    decreases i,
{
    if i > 0 {
        lemma_line_start_le(cs, i - 1);
    }
}

/// All line break indices lie inside the text and are line breaks.
proof fn lemma_newline_indices(cs: Seq<char>, n: int)
    requires
        0 <= n <= cs.len(),
    ensures
        newline_indices(cs, n).len() == newline_count(cs, n),
        forall|k: int| 0 <= k < newline_indices(cs, n).len() ==> 0 <= #[trigger] newline_indices(cs, n)[k] < n
            && cs[newline_indices(cs, n)[k]] == '\n',
        forall|k: int, l: int| 0 <= k < l < newline_indices(cs, n).len() ==> newline_indices(cs, n)[k]
            < newline_indices(cs, n)[l],
    decreases n,
{
    if n > 0 {
        lemma_newline_indices(cs, n - 1);
    }
}

/// Index of the first character of line `line` as `pos_to_offset` finds it:
/// lines after the last line break are taken to begin at the end of the text.
pub open spec fn pos_line_begin(cs: Seq<char>, line: int) -> int {
    let nls = newline_indices(cs, cs.len() as int);
    if line <= 1 {
        0
    } else if line > nls.len() {
        cs.len() as int
    } else {
        nls[line - 2] + 1
    }
}

/// The byte offset `pos_to_offset` computes: the character `column - 1`
/// places after the line begins, or the line begin itself when the text ends
/// before that character.
pub open spec fn pos_offset(cs: Seq<char>, line: int, column: int) -> int {
    let b = pos_line_begin(cs, line);
    if b + column - 1 < cs.len() {
        byte_offset(cs, b + column - 1)
    } else {
        byte_offset(cs, b)
    }
}

/// Character range of line `line` (starting at 1), without its line break.
pub open spec fn line_chars(cs: Seq<char>, line: int) -> (int, int) {
    let nls = newline_indices(cs, cs.len() as int);
    let begin = if line <= 1 {
        0
    } else if line - 2 >= nls.len() {
        cs.len() as int
    } else {
        nls[line - 2] + 1
    };
    let end = if line - 1 < nls.len() {
        nls[line - 1]
    } else {
        cs.len() as int
    };
    (begin, end)
}

impl<'a> LineMap<'a> {
    proof fn lemma_breaks(&self)
        requires
            self.wf(),
        ensures
            self.newlines@.len() == newline_indices(self.text(), self.text().len() as int).len(),
            forall|k: int| 0 <= k < self.newlines@.len() ==> #[trigger] self.newlines@[k] as int
                == newline_indices(self.text(), self.text().len() as int)[k],
            forall|k: int| 0 <= k < self.newlines@.len() ==> #[trigger] self.newlines@[k] < self.text().len(),
    {
        let cs = self.chars@;
        lemma_newline_indices(cs, cs.len() as int);
        assert forall|k: int| 0 <= k < self.newlines@.len() implies #[trigger] self.newlines@[k] as int
            == newline_indices(cs, cs.len() as int)[k] by {
            assert(self.breaks()[k] == self.newlines@[k] as int);
        }
    }

    /// The byte offset of a position given as line and column.
    pub fn pos_to_offset(&self, pos: Pos) -> (r: usize)
        requires
            self.wf(),
            pos.column >= 1,
        ensures
            r == pos_offset(self.text(), pos.line as int, pos.column as int),
    {
        let ghost cs = self.chars@;
        proof {
            lemma_newline_indices(cs, cs.len() as int);
            self.lemma_breaks();
        }
        let n = self.newlines.len();
        let begin: usize = if pos.line <= 1 {
            0
        } else if pos.line > n {
            self.chars.len()
        } else {
            self.newlines[pos.line - 2] + 1
        };
        if pos.column - 1 < self.chars.len() - begin {
            self.offsets[begin + (pos.column - 1)]
        } else {
            self.offsets[begin]
        }
    }

    /// Return the extent of the given line (starting at 1) in bytes, without
    /// its line break.
    pub fn line_span(&self, line: usize) -> (r: Span)
        requires
            self.wf(),
            line >= 1,
        ensures
            r.start == byte_offset(self.text(), line_chars(self.text(), line as int).0),
            r.end == byte_offset(self.text(), line_chars(self.text(), line as int).1),
    {
        let (b, e) = self.line_char_range(line);
        Span { start: self.offsets[b], end: self.offsets[e] }
    }

    fn line_char_range(&self, line: usize) -> (r: (usize, usize))
        requires
            self.wf(),
            line >= 1,
        ensures
            r.0 == line_chars(self.text(), line as int).0,
            r.1 == line_chars(self.text(), line as int).1,
            r.0 <= r.1,
            r.1 <= self.text().len(),
    {
        let ghost cs = self.chars@;
        proof {
            lemma_newline_indices(cs, cs.len() as int);
            self.lemma_breaks();
        }
        let n = self.newlines.len();
        let begin: usize = if line <= 1 {
            0
        } else if line - 2 >= n {
            self.chars.len()
        } else {
            self.newlines[line - 2] + 1
        };
        let end: usize = if line - 1 < n {
            self.newlines[line - 1]
        } else {
            self.chars.len()
        };
        (begin, end)
    }
}

/// `pos_to_offset` undoes `offset_to_pos`: converting the offset of
/// character `i` to a position and back gives the offset (the two functions
/// compute `pos_of` and `pos_offset`), unless the offset lies on a last line that does not end in a line break
/// (the last line is then taken to begin at the end of the text), or is the
/// end of a non-empty text without line breaks.
pub proof fn law_pos_to_offset_undoes_offset_to_pos(m: &LineMap, i: int)
    requires
        m.wf(),
        0 <= i <= m.text().len(),
        i < m.text().len() ==> newline_count(m.text(), i) < newline_indices(m.text(), m.text().len() as int).len()
            || newline_count(m.text(), i) == 0,
        i == m.text().len() ==> m.text().len() == 0 || newline_count(m.text(), i) > 0,
    ensures
        pos_offset(m.text(), pos_of(m.text(), i).line as int, pos_of(m.text(), i).column as int)
            == byte_offset(m.text(), i),
{
    let cs = m.text();
    let n = cs.len() as int;
    lemma_newline_indices(cs, n);
    lemma_line_start_le(cs, i);
    lemma_newline_count_total(cs, i, n);
    let c = newline_count(cs, i);
    lemma_newline_count_nonneg(cs, i);
    lemma_newline_indices_len(cs, n);
    if c == 0 {
        lemma_line_start_zero(cs, i);
    } else if c < newline_indices(cs, n).len() {
        lemma_line_start_is_break(cs, i, n);
    }
}

/// The number of line breaks up to the end is the number of line break indices.
proof fn lemma_newline_count_total(cs: Seq<char>, i: int, n: int)
    requires
        0 <= i <= n <= cs.len(),
    ensures
        newline_count(cs, i) <= newline_count(cs, n),
        newline_count(cs, i) == newline_count(cs, n) && i < n ==> forall|j: int| i <= j < n ==> cs[j] != '\n',
    decreases n - i,
{
    if i < n {
        lemma_newline_count_total(cs, i, n - 1);
        lemma_newline_count_mono(cs, i, n - 1);
        if newline_count(cs, i) == newline_count(cs, n) {
            assert forall|j: int| i <= j < n implies cs[j] != '\n' by {
                if j < n - 1 {
                    lemma_newline_count_mono(cs, j + 1, n - 1);
                    lemma_newline_count_mono(cs, i, j);
                }
            }
        }
    }
}

proof fn lemma_newline_count_mono(cs: Seq<char>, i: int, j: int)
    requires
        0 <= i <= j,
    ensures
        newline_count(cs, i) <= newline_count(cs, j),
    decreases j - i,
{
    if i < j {
        lemma_newline_count_mono(cs, i, j - 1);
    }
}

/// A line that is preceded by line breaks starts right after the last of them.
proof fn lemma_line_start_is_break(cs: Seq<char>, i: int, n: int)
    requires
        0 <= i <= n,
        n == cs.len(),
        newline_count(cs, i) >= 1,
    ensures
        newline_indices(cs, n)[newline_count(cs, i) - 1] + 1 == line_start(cs, i),
        newline_count(cs, i) <= newline_indices(cs, n).len(),
{
    lemma_prefix_indices(cs, i, n);
    lemma_newline_indices(cs, i);
    lemma_last_break(cs, i);
}

/// The line break indices of a prefix are a prefix of the line break indices.
proof fn lemma_prefix_indices(cs: Seq<char>, i: int, n: int)
    requires
        0 <= i <= n,
    ensures
        newline_indices(cs, i).len() <= newline_indices(cs, n).len(),
        forall|k: int| 0 <= k < newline_indices(cs, i).len() ==> #[trigger] newline_indices(cs, n)[k]
            == newline_indices(cs, i)[k],
    decreases n - i,
{
    if i < n {
        lemma_prefix_indices(cs, i, n - 1);
    }
}

/// The line of character `i` starts after the last line break before it.
proof fn lemma_last_break(cs: Seq<char>, i: int)
    requires
        0 <= i,
        newline_count(cs, i) >= 1,
    ensures
        newline_indices(cs, i).len() == newline_count(cs, i),
        newline_indices(cs, i)[newline_count(cs, i) - 1] + 1 == line_start(cs, i),
    decreases i,
{
    lemma_newline_indices_len(cs, i);
    if cs[i - 1] != '\n' {
        lemma_last_break(cs, i - 1);
    }
}

proof fn lemma_line_start_zero(cs: Seq<char>, i: int)
    requires
        0 <= i,
        newline_count(cs, i) == 0,
    ensures
        line_start(cs, i) == 0,
    decreases i,
{
    if i > 0 {
        lemma_newline_count_nonneg(cs, i - 1);
        lemma_line_start_zero(cs, i - 1);
    }
}

proof fn lemma_newline_count_nonneg(cs: Seq<char>, i: int)
    ensures
        newline_count(cs, i) >= 0,
    decreases i,
{
    if i > 0 {
        lemma_newline_count_nonneg(cs, i - 1);
    }
}

proof fn lemma_newline_indices_len(cs: Seq<char>, i: int)
    requires
        0 <= i,
    ensures
        newline_indices(cs, i).len() == newline_count(cs, i),
    decreases i,
{
    if i > 0 {
        lemma_newline_indices_len(cs, i - 1);
    }
}

/// Terminal escape sequence switching to bold red.
pub open spec fn red() -> Seq<char> {
    seq!['\x1b', '[', '3', '1', ';', '1', 'm']
}

/// Terminal escape sequence resetting all attributes.
pub open spec fn reset() -> Seq<char> {
    seq!['\x1b', '[', '0', 'm']
}

/// `k` copies of `c`.
pub open spec fn repeat(c: char, k: int) -> Seq<char>
    decreases k,
{
    if k <= 0 {
        seq![]
    } else {
        repeat(c, k - 1).push(c)
    }
}

/// A line number right-aligned in four columns, followed by `|`.
pub open spec fn line_label(line: nat) -> Seq<char> {
    repeat(' ', 4 - nat_digits(line).len()) + nat_digits(line) + seq!['|']
}

/// The first `k` characters of a line's text, with color switched on where
/// the highlighted range starts on this line and off where it ends.
pub open spec fn colored_text(text: Seq<char>, k: int, line: int, start: Pos, end: Pos) -> Seq<char>
    decreases k,
{
    if k <= 0 {
        seq![]
    } else {
        let i = k - 1;
        colored_text(text, i, line, start, end)
            + (if (i + 1 == start.column && line == start.line) || (i == 0 && line > start.line && line
            <= end.line) {
            red()
        } else {
            seq![]
        }) + (if i + 1 == end.column && line == end.line {
            reset()
        } else {
            seq![]
        }) + seq![text[i]]
    }
}

/// The line number, in red when the line is part of a colored highlight.
pub open spec fn line_head(line: int, start: Pos, end: Pos, colored: bool) -> Seq<char> {
    let marked = colored && start.line <= line <= end.line;
    (if marked { red() } else { seq![] }) + line_label(line as nat) + (if marked { reset() } else { seq![] })
}

/// The text of the line, with color codes if colored.
pub open spec fn line_body(text: Seq<char>, line: int, start: Pos, end: Pos, colored: bool) -> Seq<char> {
    if colored {
        colored_text(text, text.len() as int, line, start, end) + reset()
    } else {
        text
    }
}

/// The row of `^` below a line that is part of the highlighted range.
pub open spec fn line_tail(text: Seq<char>, line: int, start: Pos, end: Pos) -> Seq<char> {
    if start.line <= line <= end.line {
        let col_start = if line == start.line { start.column as int } else { 1 };
        let col_end = if line == end.line { end.column as int } else { text.len() as int + 1 };
        repeat(' ', 5) + repeat(' ', col_start - 1) + repeat('^', col_end - col_start) + seq!['\n']
    } else {
        seq![]
    }
}

/// The output for one displayed line: its number and text, and below it a
/// row of `^` under the highlighted part, if any.
pub open spec fn highlight_line(cs: Seq<char>, line: int, start: Pos, end: Pos, colored: bool) -> Seq<char> {
    let (b, e) = line_chars(cs, line);
    let text = cs.subrange(b, e);
    line_head(line, start, end, colored) + line_body(text, line, start, end, colored) + seq!['\n']
        + line_tail(text, line, start, end)
}

/// The output for the lines `from..=to`.
pub open spec fn highlight_lines(cs: Seq<char>, from: int, to: int, start: Pos, end: Pos, colored: bool) -> Seq<
    char,
>
    decreases to - from + 1,
{
    if from > to {
        seq![]
    } else {
        highlight_line(cs, from, start, end, colored) + highlight_lines(cs, from + 1, to, start, end, colored)
    }
}

/// The lines of the range `start..end`, one more before and one more after.
pub open spec fn highlight_spec(cs: Seq<char>, start: Pos, end: Pos, colored: bool) -> Seq<char> {
    let display_start = vstd::math::max(1, start.line - 1);
    let display_end = vstd::math::min(newline_indices(cs, cs.len() as int).len() as int + 1, end.line + 1);
    highlight_lines(cs, display_start, display_end, start, end, colored)
}

/// No character of `s` is the escape character that starts a color code.
pub open spec fn escape_free(s: Seq<char>) -> bool {
    forall|i: int| 0 <= i < s.len() ==> #[trigger] s[i] != '\x1b'
}

/// `s` with its color codes removed, read from the left: each occurrence of
/// `red()` or `reset()` found while scanning is dropped.
#[verifier::opaque]
pub open spec fn strip_colors(s: Seq<char>) -> Seq<char>
    decreases s.len(),
{
    if s.len() == 0 {
        seq![]
    } else if s.len() >= 7 && s.take(7) == red() {
        strip_colors(s.skip(7))
    } else if s.len() >= 4 && s.take(4) == reset() {
        strip_colors(s.skip(4))
    } else {
        seq![s[0]] + strip_colors(s.skip(1))
    }
}

/// Text without escape characters passes through unchanged.
proof fn lemma_strip_plain(a: Seq<char>, b: Seq<char>)
    requires
        escape_free(a),
    ensures
        strip_colors(a + b) == a + strip_colors(b),
    decreases a.len(),
{
    reveal(strip_colors);
    if a.len() == 0 {
        assert(a + b =~= b);
    } else {
        let s = a + b;
        assert(s[0] == a[0]);
        assert(s[0] != '\x1b');
        if s.len() >= 7 {
            assert(s.take(7)[0] != red()[0]);
        }
        if s.len() >= 4 {
            assert(s.take(4)[0] != reset()[0]);
        }
        assert(s.skip(1) =~= a.skip(1) + b);
        lemma_strip_plain(a.skip(1), b);
        assert(seq![a[0]] + (a.skip(1) + strip_colors(b)) =~= a + strip_colors(b));
    }
}

/// A leading `red()` is dropped.
proof fn lemma_strip_red(b: Seq<char>)
    ensures
        strip_colors(red() + b) == strip_colors(b),
{
    reveal(strip_colors);
    let s = red() + b;
    assert(s.take(7) =~= red());
    assert(s.skip(7) =~= b);
}

/// A leading `reset()` is dropped.
proof fn lemma_strip_reset(b: Seq<char>)
    ensures
        strip_colors(reset() + b) == strip_colors(b),
{
    reveal(strip_colors);
    let s = reset() + b;
    if s.len() >= 7 {
        assert(s.take(7)[2] != red()[2]);
    }
    assert(s.take(4) =~= reset());
    assert(s.skip(4) =~= b);
}

/// Spaces, digits, `|`, `^` and line breaks are free of escapes.
proof fn lemma_repeat_escape_free(c: char, k: int)
    requires
        c != '\x1b',
    ensures
        escape_free(repeat(c, k)),
    decreases k,
{
    if k > 0 {
        lemma_repeat_escape_free(c, k - 1);
    }
}

proof fn lemma_digits_escape_free(n: nat)
    ensures
        escape_free(nat_digits(n)),
    decreases n,
{
    if n < 10 {
        assert(digit_char(n as int) as int == n + 48);
    } else {
        lemma_digits_escape_free(n / 10);
        assert(digit_char((n % 10) as int) as int == n % 10 + 48);
    }
}

proof fn lemma_label_escape_free(line: nat)
    ensures
        escape_free(line_label(line)),
{
    lemma_repeat_escape_free(' ', 4 - nat_digits(line).len());
    lemma_digits_escape_free(line);
}

proof fn lemma_tail_escape_free(text: Seq<char>, line: int, start: Pos, end: Pos)
    ensures
        escape_free(seq!['\n'] + line_tail(text, line, start, end)),
{
    if start.line <= line <= end.line {
        let col_start = if line == start.line { start.column as int } else { 1 };
        let col_end = if line == end.line { end.column as int } else { text.len() as int + 1 };
        lemma_repeat_escape_free(' ', 5);
        lemma_repeat_escape_free(' ', col_start - 1);
        lemma_repeat_escape_free('^', col_end - col_start);
    }
}

/// Removing the color codes from a colored line text gives back the text.
proof fn lemma_strip_colored_text(text: Seq<char>, k: int, line: int, start: Pos, end: Pos, rest: Seq<char>)
    requires
        escape_free(text),
        0 <= k <= text.len(),
    ensures
        strip_colors(colored_text(text, k, line, start, end) + rest) == text.take(k) + strip_colors(rest),
    decreases k,
{
    if k == 0 {
        assert(colored_text(text, k, line, start, end) + rest =~= rest);
        assert(text.take(0) + strip_colors(rest) =~= strip_colors(rest));
    } else {
        let i = k - 1;
        let on = if (i + 1 == start.column && line == start.line) || (i == 0 && line > start.line && line
            <= end.line) {
            red()
        } else {
            seq![]
        };
        let off = if i + 1 == end.column && line == end.line {
            reset()
        } else {
            seq![]
        };
        let c = seq![text[i]];
        let tail = on + (off + (c + rest));
        assert(colored_text(text, k, line, start, end) + rest =~= colored_text(text, i, line, start, end)
            + tail);
        lemma_strip_colored_text(text, i, line, start, end, tail);
        if on.len() > 0 {
            lemma_strip_red(off + (c + rest));
        } else {
            assert(tail =~= off + (c + rest));
        }
        if off.len() > 0 {
            lemma_strip_reset(c + rest);
        } else {
            assert(off + (c + rest) =~= c + rest);
        }
        lemma_strip_plain(c, rest);
        assert(text.take(i) + (c + strip_colors(rest)) =~= text.take(k) + strip_colors(rest));
    }
}

/// The characters of a line lie within the text.
proof fn lemma_line_chars_range(cs: Seq<char>, line: int)
    requires
        line >= 1,
    ensures
        0 <= line_chars(cs, line).0 <= line_chars(cs, line).1 <= cs.len(),
{
    let nls = newline_indices(cs, cs.len() as int);
    lemma_newline_indices(cs, cs.len() as int);
    if line >= 2 && line - 2 < nls.len() {
        assert(0 <= nls[line - 2] < cs.len());
        if line - 1 < nls.len() {
            assert(nls[line - 2] < nls[line - 1]);
        }
    }
    if line - 1 < nls.len() && line - 1 >= 0 {
        assert(0 <= nls[line - 1] < cs.len());
    }
}

/// The characters of a line of a text without escapes are free of escapes.
proof fn lemma_line_text_escape_free(cs: Seq<char>, line: int)
    requires
        escape_free(cs),
        line >= 1,
    ensures
        escape_free(cs.subrange(line_chars(cs, line).0, line_chars(cs, line).1)),
{
    let (b, e) = line_chars(cs, line);
    lemma_line_chars_range(cs, line);
    let text = cs.subrange(b, e);
    assert forall|i: int| 0 <= i < text.len() implies #[trigger] text[i] != '\x1b' by {
        assert(text[i] == cs[b + i]);
    }
}

/// Removing the color codes from a colored line gives the plain line.
proof fn lemma_strip_line(cs: Seq<char>, line: int, start: Pos, end: Pos, rest: Seq<char>)
    requires
        escape_free(cs),
        line >= 1,
    ensures
        strip_colors(highlight_line(cs, line, start, end, true) + rest) == highlight_line(
            cs,
            line,
            start,
            end,
            false,
        ) + strip_colors(rest),
{
    let (b, e) = line_chars(cs, line);
    let text = cs.subrange(b, e);
    lemma_line_text_escape_free(cs, line);
    let marked = start.line <= line <= end.line;
    let label = line_label(line as nat);
    let nl_tail = seq!['\n'] + line_tail(text, line, start, end);
    lemma_label_escape_free(line as nat);
    lemma_tail_escape_free(text, line, start, end);
    let on = if marked { red() } else { seq![] };
    let off = if marked { reset() } else { seq![] };
    let ct = colored_text(text, text.len() as int, line, start, end);
    let after_ct = reset() + (nl_tail + rest);
    let after_label = off + (ct + after_ct);
    assert(highlight_line(cs, line, start, end, true) + rest =~= on + (label + after_label));
    assert(strip_colors(on + (label + after_label)) == strip_colors(label + after_label)) by {
        if marked {
            lemma_strip_red(label + after_label);
        } else {
            assert(on + (label + after_label) =~= label + after_label);
        }
    }
    lemma_strip_plain(label, after_label);
    assert(strip_colors(after_label) == strip_colors(ct + after_ct)) by {
        if marked {
            lemma_strip_reset(ct + after_ct);
        } else {
            assert(after_label =~= ct + after_ct);
        }
    }
    assert(strip_colors(ct + after_ct) == text + strip_colors(after_ct)) by {
        lemma_strip_colored_text(text, text.len() as int, line, start, end, after_ct);
        assert(text.take(text.len() as int) =~= text);
    }
    lemma_strip_reset(nl_tail + rest);
    lemma_strip_plain(nl_tail, rest);
    assert(highlight_line(cs, line, start, end, false) =~= label + (text + nl_tail));
    assert(label + (text + (nl_tail + strip_colors(rest))) =~= (label + (text + nl_tail)) + strip_colors(
        rest,
    ));
}

proof fn lemma_strip_lines(cs: Seq<char>, from: int, to: int, start: Pos, end: Pos)
    requires
        escape_free(cs),
        from >= 1,
    ensures
        strip_colors(highlight_lines(cs, from, to, start, end, true)) == highlight_lines(cs, from, to, start, end, false),
    decreases to - from + 1,
{
    if from <= to {
        lemma_strip_lines(cs, from + 1, to, start, end);
        lemma_strip_line(cs, from, start, end, highlight_lines(cs, from + 1, to, start, end, true));
    } else {
        reveal(strip_colors);
    }
}

/// Coloring a highlight only inserts color codes: with them removed, the
/// colored highlight of a text without escape characters is the plain one.
pub proof fn law_highlight_color_only_adds_codes(cs: Seq<char>, start: Pos, end: Pos)
    requires
        escape_free(cs),
    ensures
        strip_colors(highlight_spec(cs, start, end, true)) == highlight_spec(cs, start, end, false),
{
    let display_start = vstd::math::max(1, start.line - 1);
    let display_end = vstd::math::min(newline_indices(cs, cs.len() as int).len() as int + 1, end.line + 1);
    lemma_strip_lines(cs, display_start, display_end, start, end);
}

fn push_red(out: &mut String)
    ensures
        final(out)@ == old(out)@ + red(),
{
    push_char(out, '\x1b');
    push_char(out, '[');
    push_char(out, '3');
    push_char(out, '1');
    push_char(out, ';');
    push_char(out, '1');
    push_char(out, 'm');
    proof {
        assert(final(out)@ =~= old(out)@ + red());
    }
}

fn push_reset(out: &mut String)
    ensures
        final(out)@ == old(out)@ + reset(),
{
    push_char(out, '\x1b');
    push_char(out, '[');
    push_char(out, '0');
    push_char(out, 'm');
    proof {
        assert(final(out)@ =~= old(out)@ + reset());
    }
}

fn push_repeat(out: &mut String, c: char, k: usize)
    ensures
        final(out)@ == old(out)@ + repeat(c, k as int),
{
    let mut i: usize = 0;
    while i < k
        invariant
            i <= k,
            out@ == old(out)@ + repeat(c, i as int),
        decreases k - i,
    {
        push_char(out, c);
        proof {
            assert(repeat(c, i + 1) == repeat(c, i as int).push(c));
            assert(old(out)@ + repeat(c, i as int).push(c) == (old(out)@ + repeat(c, i as int)).push(c));
        }
        i = i + 1;
    }
}

fn push_line_label(out: &mut String, line: usize)
    ensures
        final(out)@ == old(out)@ + line_label(line as nat),
{
    let mut digits = String::new();
    push_nat_digits(&mut digits, line as u64);
    let ds = chars_of_str(digits.as_str());
    let pad: usize = if ds.len() < 4 { 4 - ds.len() } else { 0 };
    push_repeat(out, ' ', pad);
    let mut i: usize = 0;
    let ghost before = out@;
    while i < ds.len()
        invariant
            i <= ds.len(),
            out@ == before + ds@.take(i as int),
        decreases ds.len() - i,
    {
        push_char(out, ds[i]);
        proof {
            assert(ds@.take(i + 1) == ds@.take(i as int).push(ds@[i as int]));
        }
        i = i + 1;
    }
    push_char(out, '|');
    proof {
        assert(ds@.take(ds.len() as int) == ds@);
        assert(ds@ == nat_digits(line as nat));
        assert(repeat(' ', pad as int) == repeat(' ', 4 - nat_digits(line as nat).len()));
        assert(final(out)@ =~= old(out)@ + line_label(line as nat));
    }
}

impl<'a> LineMap<'a> {
    /// Takes the lines indicated by the given range, plus one before and one after,
    /// and prints them with line numbers, while underlining the range itself with `^`
    /// symbols. The end position is exclusive.
    pub fn highlight(&self, start: Pos, end: Pos, colored: bool) -> (r: String)
        requires
            self.wf(),
            start.line >= 1,
            end.line < usize::MAX,
        ensures
            r@ == highlight_spec(self.text(), start, end, colored),
    {
        let mut out = String::new();
        let display_start: usize = if start.line - 1 > 1 { start.line - 1 } else { 1 };
        let n = self.newlines.len();
        proof {
            self.lemma_breaks();
            lemma_newline_indices(self.chars@, self.chars@.len() as int);
            lemma_newline_indices_len(self.chars@, self.chars@.len() as int);
            lemma_line_start_le(self.chars@, self.chars@.len() as int);
            assert(n < usize::MAX);
        }
        let display_end: usize = if n + 1 < end.line + 1 { n + 1 } else { end.line + 1 };
        if display_start > display_end {
            return out;
        }
        let mut line = display_start;
        loop
            invariant_except_break
                out@ + highlight_lines(self.text(), line as int, display_end as int, start, end, colored)
                    == highlight_spec(self.text(), start, end, colored),
            invariant
                self.wf(),
                display_start <= line <= display_end,
                line >= 1,
            ensures
                out@ == highlight_spec(self.text(), start, end, colored),
            decreases display_end - line,
        {
            let ghost before = out@;
            self.push_line(&mut out, line, start, end, colored);
            proof {
                assert(before + highlight_lines(self.text(), line as int, display_end as int, start, end, colored)
                    == before + (highlight_line(self.text(), line as int, start, end, colored) + highlight_lines(
                    self.text(), line + 1, display_end as int, start, end, colored)));
                assert(out@ + highlight_lines(self.text(), line + 1, display_end as int, start, end, colored)
                    == highlight_spec(self.text(), start, end, colored));
            }
            if line == display_end {
                proof {
                    assert(highlight_lines(self.text(), line + 1, display_end as int, start, end, colored)
                        == Seq::<char>::empty());
                    assert(out@ + Seq::<char>::empty() == out@);
                }
                break;
            }
            line = line + 1;
        }
        out
    }

    fn push_line(&self, out: &mut String, line: usize, start: Pos, end: Pos, colored: bool)
        requires
            self.wf(),
            line >= 1,
        ensures
            final(out)@ == old(out)@ + highlight_line(self.text(), line as int, start, end, colored),
    {
        let (b, e) = self.line_char_range(line);
        let ghost text = self.text().subrange(b as int, e as int);
        let ghost s0 = out@;
        push_head(out, line, start, end, colored);
        let ghost s1 = out@;
        self.push_body(out, b, e, line, start, end, colored);
        let ghost s2 = out@;
        push_char(out, '\n');
        let ghost s3 = out@;
        push_tail(out, e - b, line, start, end);
        proof {
            let head = line_head(line as int, start, end, colored);
            let body = line_body(text, line as int, start, end, colored);
            let tail = line_tail(text, line as int, start, end);
            assert(final(out)@ == s3 + tail);
            assert(s0 + head + body + seq!['\n'] + tail == s0 + (head + body + seq!['\n'] + tail));
        }
    }

    fn push_body(&self, out: &mut String, b: usize, e: usize, line: usize, start: Pos, end: Pos, colored: bool)
        requires
            self.wf(),
            b <= e <= self.text().len(),
        ensures
            final(out)@ == old(out)@ + line_body(self.text().subrange(b as int, e as int), line as int, start, end, colored),
    {
        if colored {
            self.push_colored_text(out, b, e, line, start, end);
            push_reset(out);
        } else {
            self.push_text(out, b, e);
        }
    }

    fn push_text(&self, out: &mut String, b: usize, e: usize)
        requires
            self.wf(),
            b <= e <= self.text().len(),
        ensures
            final(out)@ == old(out)@ + self.text().subrange(b as int, e as int),
    {
        let ghost text = self.chars@.subrange(b as int, e as int);
        let mut i: usize = b;
        while i < e
            invariant
                self.wf(),
                b <= i <= e <= self.chars@.len(),
                text == self.chars@.subrange(b as int, e as int),
                out@ == old(out)@ + text.take(i - b),
            decreases e - i,
        {
            push_char(out, self.chars[i]);
            proof {
                assert(text.take(i - b + 1) == text.take(i - b).push(text[i - b]));
            }
            i = i + 1;
        }
        proof {
            assert(text.take(e - b) == text);
        }
    }

    fn push_colored_text(&self, out: &mut String, b: usize, e: usize, line: usize, start: Pos, end: Pos)
        requires
            self.wf(),
            b <= e <= self.text().len(),
        ensures
            final(out)@ == old(out)@ + colored_text(
                self.text().subrange(b as int, e as int),
                e - b,
                line as int,
                start,
                end,
            ),
    {
        let ghost text = self.chars@.subrange(b as int, e as int);
        let len = e - b;
        let mut i: usize = 0;
        while i < len
            invariant
                self.wf(),
                b <= e <= self.chars@.len(),
                len == e - b,
                text == self.chars@.subrange(b as int, e as int),
                i <= len,
                out@ == old(out)@ + colored_text(text, i as int, line as int, start, end),
            decreases len - i,
        {
            let ghost before = out@;
            let opens = (i + 1 == start.column && line == start.line) || (i == 0 && line > start.line && line
                <= end.line);
            if opens {
                push_red(out);
            }
            let closes = i + 1 == end.column && line == end.line;
            if closes {
                push_reset(out);
            }
            push_char(out, self.chars[b + i]);
            proof {
                assert(text[i as int] == self.chars@[b + i]);
                assert(out@ =~= before + (if opens { red() } else { seq![] }) + (if closes { reset() } else { seq![] })
                    + seq![text[i as int]]);
                assert(out@ =~= old(out)@ + colored_text(text, i + 1, line as int, start, end));
            }
            i = i + 1;
        }
    }
}

fn push_head(out: &mut String, line: usize, start: Pos, end: Pos, colored: bool)
    ensures
        final(out)@ == old(out)@ + line_head(line as int, start, end, colored),
{
    let marked = colored && start.line <= line && line <= end.line;
    if marked {
        push_red(out);
    }
    push_line_label(out, line);
    if marked {
        push_reset(out);
    }
    proof {
        assert(final(out)@ =~= old(out)@ + line_head(line as int, start, end, colored));
    }
}

fn push_tail(out: &mut String, len: usize, line: usize, start: Pos, end: Pos)
    requires
        len < usize::MAX,
    ensures
        forall|text: Seq<char>| text.len() == len ==> final(out)@ == old(out)@ + #[trigger] line_tail(text, line as int, start, end),
{
    if start.line <= line && line <= end.line {
        let col_start: usize = if line == start.line { start.column } else { 1 };
        let col_end: usize = if line == end.line { end.column } else { len + 1 };
        push_underline(out, col_start, col_end);
    }
}

fn push_underline(out: &mut String, col_start: usize, col_end: usize)
    ensures
        final(out)@ == old(out)@ + repeat(' ', 5) + repeat(' ', col_start - 1) + repeat('^', col_end - col_start)
            + seq!['\n'],
{
    push_repeat(out, ' ', 5);
    let ghost a = out@;
    push_repeat(out, ' ', if col_start >= 1 { col_start - 1 } else { 0 });
    proof {
        if col_start == 0 {
            assert(repeat(' ', col_start - 1) == Seq::<char>::empty());
            assert(repeat(' ', 0) == Seq::<char>::empty());
        }
    }
    push_repeat(out, '^', if col_end >= col_start { col_end - col_start } else { 0 });
    proof {
        if col_end < col_start {
            assert(repeat('^', col_end - col_start) == Seq::<char>::empty());
            assert(repeat('^', 0) == Seq::<char>::empty());
        }
    }
    push_char(out, '\n');
    proof {
        assert(final(out)@ =~= old(out)@ + repeat(' ', 5) + repeat(' ', col_start - 1) + repeat(
            '^',
            col_end - col_start,
        ) + seq!['\n']);
    }
}

} // verus!
