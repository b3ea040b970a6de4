//! Logical lines: the lines of a source text that hold a statement, each
//! with its indentation.

use crate::text::views;
use vstd::prelude::*;

verus! {

/// A line that holds a statement.
#[derive(Clone, Debug, PartialEq, Eq)]
pub struct Line {
    /// The number of blank characters before the statement.
    pub indent: usize,
    /// The statement, without the blanks around it.
    pub content: Vec<char>,
}

/// What a line is to the contracts.
pub struct LineView {
    pub indent: nat,
    pub content: Seq<char>,
}

impl View for Line {
    type V = LineView;

    open spec fn view(&self) -> LineView {
        LineView { indent: self.indent as nat, content: self.content@ }
    }
}

/// A blank within a line: a space, a tab or a carriage return.
pub open spec fn is_blank(c: char) -> bool {
    c == ' ' || c == '\t' || c == '\r'
}

/// Where the line that starts at `from` ends: at the first line feed at or
/// after `from`, or at the end of the text.
pub open spec fn line_end(s: Seq<char>, from: int) -> int
    decreases s.len() - from,
{
    if from >= s.len() {
        s.len() as int
    } else if s[from] == '\n' {
        from
    } else {
        line_end(s, from + 1)
    }
}

/// The first position in `from..end` that holds no blank, or `end`.
pub open spec fn skip_blanks(s: Seq<char>, from: int, end: int) -> int
    decreases end - from,
{
    if from < end && is_blank(s[from]) {
        skip_blanks(s, from + 1, end)
    } else {
        from
    }
}

/// The end of `from..end` once the blanks at its end are cut off.
pub open spec fn trim_end(s: Seq<char>, from: int, end: int) -> int
    decreases end - from,
{
    if from < end && is_blank(s[end - 1]) {
        trim_end(s, from, end - 1)
    } else {
        end
    }
}

/// The line that starts at `from`: its indentation is the number of blanks
/// before its first other character, its content what lies between those
/// blanks and the blanks at its end.
pub open spec fn line_at(s: Seq<char>, from: int) -> LineView {
    let end = line_end(s, from);
    let start = skip_blanks(s, from, end);
    LineView { indent: (start - from) as nat, content: s.subrange(start, trim_end(s, start, end)) }
}

/// A line without a statement: blank, or a comment.
pub open spec fn is_skipped(line: LineView) -> bool {
    line.content.len() == 0 || line.content[0] == '#'
}

/// A line ends at or after its start, at a line feed or at the end of the
/// text, and holds no line feed.
pub proof fn lemma_line_end_bounds(s: Seq<char>, from: int)
    requires
        0 <= from <= s.len(),
    ensures
        from <= line_end(s, from) <= s.len(),
        line_end(s, from) < s.len() ==> s[line_end(s, from)] == '\n',
        forall|i: int| from <= i < line_end(s, from) ==> s[i] != '\n',
    decreases s.len() - from,
{
    if from < s.len() && s[from] != '\n' {
        lemma_line_end_bounds(s, from + 1);
    }
}

/// Skipping blanks passes over blanks only, and stops at the end or at a
/// character that is no blank.
pub proof fn lemma_skip_blanks_bounds(s: Seq<char>, from: int, end: int)
    requires
        from <= end,
    ensures
        from <= skip_blanks(s, from, end) <= end,
        skip_blanks(s, from, end) < end ==> !is_blank(s[skip_blanks(s, from, end)]),
        forall|i: int| from <= i < skip_blanks(s, from, end) ==> is_blank(s[i]),
    decreases end - from,
{
    if from < end && is_blank(s[from]) {
        lemma_skip_blanks_bounds(s, from + 1, end);
    }
}

/// Trimming cuts off blanks only, and stops at the start or behind a
/// character that is no blank.
pub proof fn lemma_trim_end_bounds(s: Seq<char>, from: int, end: int)
    requires
        from <= end,
    ensures
        from <= trim_end(s, from, end) <= end,
        from < trim_end(s, from, end) ==> !is_blank(s[trim_end(s, from, end) - 1]),
        forall|i: int| trim_end(s, from, end) <= i < end ==> is_blank(s[i]),
    decreases end - from,
{
    if from < end && is_blank(s[end - 1]) {
        lemma_trim_end_bounds(s, from, end - 1);
    }
}

/// A line ends at `e` where no line feed stands before `e` and one stands
/// at `e`, or the text ends there.
pub proof fn lemma_line_end_is(s: Seq<char>, from: int, e: int)
    requires
        0 <= from <= e <= s.len(),
        forall|i: int| from <= i < e ==> s[i] != '\n',
        e == s.len() || s[e] == '\n',
    ensures
        line_end(s, from) == e,
    decreases e - from,
{
    if from < e {
        lemma_line_end_is(s, from + 1, e);
    }
}

/// Skipping blanks stops at `m` where only blanks stand before `m` and
/// none stands at `m`.
pub proof fn lemma_skip_blanks_is(s: Seq<char>, from: int, m: int, end: int)
    requires
        from <= m <= end,
        forall|i: int| from <= i < m ==> is_blank(s[i]),
        m == end || !is_blank(s[m]),
    ensures
        skip_blanks(s, from, end) == m,
    decreases m - from,
{
    if from < m {
        lemma_skip_blanks_is(s, from + 1, m, end);
    }
}

/// Trimming stops at `m` where only blanks stand from `m` on and none
/// stands before `m`.
pub proof fn lemma_trim_end_is(s: Seq<char>, from: int, m: int, end: int)
    requires
        from <= m <= end,
        forall|i: int| m <= i < end ==> is_blank(s[i]),
        m == from || !is_blank(s[m - 1]),
    ensures
        trim_end(s, from, end) == m,
    decreases end - m,
{
    if m < end {
        lemma_trim_end_is(s, from, m, end - 1);
    }
}

/// The logical lines of the text from position `from` on, where a line
/// starts.
pub open spec fn logical_lines_from(s: Seq<char>, from: int) -> Seq<LineView>
    decreases s.len() - from,
{
    if from < 0 || from >= s.len() {
        Seq::empty()
    } else {
        proof {
            lemma_line_end_bounds(s, from);
        }
        let rest = if line_end(s, from) < s.len() {
            logical_lines_from(s, line_end(s, from) + 1)
        } else {
            Seq::empty()
        };
        if is_skipped(line_at(s, from)) {
            rest
        } else {
            seq![line_at(s, from)] + rest
        }
    }
}

/// The logical lines of a text, in order: its lines, cut at line feeds,
/// without those that are blank or hold only a comment.
pub open spec fn logical_lines(s: Seq<char>) -> Seq<LineView> {
    logical_lines_from(s, 0)
}

/// Whether a text is empty or ends with a line feed.
pub open spec fn ends_lines(s: Seq<char>) -> bool {
    s.len() == 0 || s.last() == '\n'
}

/// The line at a position of `b` is the line at that position in `a + b`.
pub proof fn lemma_line_shift(a: Seq<char>, b: Seq<char>, k: int)
    requires
        0 <= k <= b.len(),
    ensures
        line_end(a + b, a.len() + k) == a.len() + line_end(b, k),
        line_at(a + b, a.len() + k) == line_at(b, k),
{
    let s = a + b;
    let n = a.len() as int;
    lemma_line_end_bounds(b, k);
    let e = line_end(b, k);
    assert forall|i: int| n + k <= i < n + e implies s[i] != '\n' by {
        assert(s[i] == b[i - n]);
    }
    if e < b.len() {
        assert(s[n + e] == b[e]);
    }
    lemma_line_end_is(s, n + k, n + e);
    let start = skip_blanks(b, k, e);
    lemma_skip_blanks_bounds(b, k, e);
    assert forall|i: int| n + k <= i < n + start implies is_blank(s[i]) by {
        assert(s[i] == b[i - n]);
    }
    if start < e {
        assert(s[n + start] == b[start]);
    }
    lemma_skip_blanks_is(s, n + k, n + start, n + e);
    let stop = trim_end(b, start, e);
    lemma_trim_end_bounds(b, start, e);
    assert forall|i: int| n + stop <= i < n + e implies is_blank(s[i]) by {
        assert(s[i] == b[i - n]);
    }
    if start < stop {
        assert(s[n + stop - 1] == b[stop - 1]);
    }
    lemma_trim_end_is(s, n + start, n + stop, n + e);
    assert(s.subrange(n + start, n + stop) =~= b.subrange(start, stop));
}

/// The logical lines of `b` from a position on are those of `a + b` from
/// that position on.
pub proof fn lemma_lines_shift(a: Seq<char>, b: Seq<char>, k: int)
    requires
        0 <= k,
    ensures
        logical_lines_from(a + b, a.len() + k) == logical_lines_from(b, k),
    decreases b.len() - k,
{
    if k < b.len() {
        lemma_line_shift(a, b, k);
        lemma_line_end_bounds(b, k);
        let e = line_end(b, k);
        if e < b.len() {
            lemma_lines_shift(a, b, e + 1);
        }
    }
}

/// The line at a position of `a`, where `a` ends with a line feed, is the
/// line at that position in `a + b`, and ends within `a`.
pub proof fn lemma_line_in_prefix(a: Seq<char>, b: Seq<char>, from: int)
    requires
        0 <= from < a.len(),
        a.last() == '\n',
    ensures
        line_end(a, from) < a.len(),
        line_end(a + b, from) == line_end(a, from),
        line_at(a + b, from) == line_at(a, from),
{
    let s = a + b;
    lemma_line_end_bounds(a, from);
    let e = line_end(a, from);
    if e == a.len() {
        assert(a[a.len() - 1] != '\n');
    }
    assert forall|i: int| from <= i < e implies s[i] != '\n' by {
        assert(s[i] == a[i]);
    }
    assert(s[e] == a[e]);
    lemma_line_end_is(s, from, e);
    let start = skip_blanks(a, from, e);
    lemma_skip_blanks_bounds(a, from, e);
    assert forall|i: int| from <= i < start implies is_blank(s[i]) by {
        assert(s[i] == a[i]);
    }
    assert(s[start] == a[start]);
    lemma_skip_blanks_is(s, from, start, e);
    let stop = trim_end(a, start, e);
    lemma_trim_end_bounds(a, start, e);
    assert forall|i: int| stop <= i < e implies is_blank(s[i]) by {
        assert(s[i] == a[i]);
    }
    if start < stop {
        assert(s[stop - 1] == a[stop - 1]);
    }
    lemma_trim_end_is(s, start, stop, e);
    assert(s.subrange(start, stop) =~= a.subrange(start, stop));
}

/// The logical lines of `a + b` from a position in `a` on, where `a` ends
/// with a line feed, are those of `a` from there on, then those that start
/// behind `a`.
pub proof fn lemma_lines_in_prefix(a: Seq<char>, b: Seq<char>, from: int)
    requires
        0 <= from <= a.len(),
        ends_lines(a),
    ensures
        logical_lines_from(a + b, from) == logical_lines_from(a, from) + logical_lines_from(
            a + b,
            a.len() as int,
        ),
    decreases a.len() - from,
{
    if from < a.len() {
        lemma_line_in_prefix(a, b, from);
        let e = line_end(a, from);
        lemma_line_end_bounds(a, from);
        lemma_lines_in_prefix(a, b, e + 1);
        let rest = logical_lines_from(a, e + 1);
        let tail = logical_lines_from(a + b, a.len() as int);
        if !is_skipped(line_at(a, from)) {
            assert(seq![line_at(a, from)] + (rest + tail) =~= (seq![line_at(a, from)] + rest)
                + tail);
        }
    } else {
        assert(logical_lines_from(a, from) + logical_lines_from(a + b, a.len() as int)
            =~= logical_lines_from(a + b, from));
    }
}

/// The logical lines of two texts, one after the other, where the first
/// ends with a line feed, are the lines of the first, then those of the
/// second.
pub proof fn lemma_lines_of_concat(a: Seq<char>, b: Seq<char>)
    requires
        ends_lines(a),
    ensures
        logical_lines(a + b) == logical_lines(a) + logical_lines(b),
{
    lemma_lines_in_prefix(a, b, 0);
    lemma_lines_shift(a, b, 0);
}

/// Whether a text can stand as the content of a logical line: it is not
/// empty, holds no line feed, starts and ends with a character that is no
/// blank, and is no comment.
pub open spec fn is_content(text: Seq<char>) -> bool {
    &&& text.len() > 0
    &&& forall|i: int| 0 <= i < text.len() ==> text[i] != '\n'
    &&& !is_blank(text[0])
    &&& !is_blank(text.last())
    &&& text[0] != '#'
}

/// A text of blanks, a content and a line feed is one logical line.
pub proof fn lemma_one_line(indent: Seq<char>, content: Seq<char>)
    requires
        forall|i: int| 0 <= i < indent.len() ==> is_blank(indent[i]),
        is_content(content),
    ensures
        logical_lines(indent + content + seq!['\n']) == seq![
            LineView { indent: indent.len(), content },
        ],
{
    let s = indent + content + seq!['\n'];
    let k = indent.len() as int;
    let e = k + content.len();
    assert forall|i: int| 0 <= i < e implies s[i] != '\n' by {
        if i < k {
            assert(s[i] == indent[i]);
        } else {
            assert(s[i] == content[i - k]);
        }
    }
    assert(s[e] == '\n');
    lemma_line_end_is(s, 0, e);
    assert forall|i: int| 0 <= i < k implies is_blank(s[i]) by {
        assert(s[i] == indent[i]);
    }
    assert(s[k] == content[0]);
    lemma_skip_blanks_is(s, 0, k, e);
    assert(s[e - 1] == content[content.len() - 1]);
    lemma_trim_end_is(s, k, e, e);
    assert(s.subrange(k, e) =~= content);
    assert(logical_lines_from(s, e + 1) =~= Seq::empty());
    assert(line_at(s, 0) == LineView { indent: indent.len(), content });
    assert(line_at(s, 0).content[0] == content[0]);
}

/// Every logical line holds a statement: its content is not empty, holds no
/// line feed, starts and ends with a character that is no blank, and is no
/// comment.
pub proof fn lemma_logical_lines_hold_text(s: Seq<char>, from: int)
    requires
        0 <= from,
    ensures
        forall|i: int|
            0 <= i < logical_lines_from(s, from).len() ==> is_content(
                (#[trigger] logical_lines_from(s, from)[i]).content,
            ),
    decreases s.len() - from,
{
    if from < s.len() {
        lemma_line_end_bounds(s, from);
        let end = line_end(s, from);
        let start = skip_blanks(s, from, end);
        lemma_skip_blanks_bounds(s, from, end);
        lemma_trim_end_bounds(s, start, end);
        let rest = if end < s.len() {
            logical_lines_from(s, end + 1)
        } else {
            Seq::empty()
        };
        if end < s.len() {
            lemma_logical_lines_hold_text(s, end + 1);
        }
        let line = line_at(s, from);
        let lines = logical_lines_from(s, from);
        assert forall|i: int| 0 <= i < lines.len() implies is_content(
            (#[trigger] lines[i]).content,
        ) by {
            if is_skipped(line) {
                assert(lines[i] == rest[i]);
            } else if i == 0 {
                assert(lines[i] == line);
            } else {
                assert(lines[i] == rest[i - 1]);
            }
        }
    }
}

/// The characters of `source[from..to]`.
fn slice_chars(source: &Vec<char>, from: usize, to: usize) -> (out: Vec<char>)
    requires
        from <= to <= source.len(),
    ensures
        out@ == source@.subrange(from as int, to as int),
{
    let mut out: Vec<char> = Vec::new();
    let mut i: usize = from;
    while i < to
        invariant
            from <= i <= to <= source.len(),
            out@ == source@.subrange(from as int, i as int),
        decreases to - i,
    {
        out.push(source[i]);
        i += 1;
    }
    out
}

/// Whether `c` is a blank.
pub(crate) fn blank(c: char) -> (r: bool)
    ensures
        r == is_blank(c),
{
    c == ' ' || c == '\t' || c == '\r'
}

/// Splits a source text into its logical lines.
pub fn scan_lines(source: &Vec<char>) -> (lines: Vec<Line>)
    ensures
        views(lines@) == logical_lines(source@),
{
    let n = source.len();
    let mut lines: Vec<Line> = Vec::new();
    let mut pos: usize = 0;
    while pos < n
        invariant
            n == source.len(),
            pos <= n,
            logical_lines(source@) == views(lines@) + logical_lines_from(source@, pos as int),
        decreases n - pos,
    {
        let mut end: usize = pos;
        while end < n && source[end] != '\n'
            invariant
                pos <= end <= n,
                n == source.len(),
                line_end(source@, pos as int) == line_end(source@, end as int),
            decreases n - end,
        {
            end += 1;
        }
        let mut start: usize = pos;
        while start < end && blank(source[start])
            invariant
                pos <= start <= end <= n,
                n == source.len(),
                skip_blanks(source@, pos as int, end as int) == skip_blanks(
                    source@,
                    start as int,
                    end as int,
                ),
            decreases end - start,
        {
            start += 1;
        }
        let mut stop: usize = end;
        while start < stop && blank(source[stop - 1])
            invariant
                start <= stop <= end <= n,
                n == source.len(),
                trim_end(source@, start as int, end as int) == trim_end(
                    source@,
                    start as int,
                    stop as int,
                ),
            decreases stop - start,
        {
            stop -= 1;
        }
        let ghost before = views(lines@);
        if start < stop && source[start] != '#' {
            let line = Line { indent: start - pos, content: slice_chars(source, start, stop) };
            assert(line@ == line_at(source@, pos as int));
            lines.push(line);
            assert(views(lines@) =~= before + seq![line_at(source@, pos as int)]);
        }
        if end == n {
            assert(views(lines@) + Seq::<LineView>::empty() =~= views(lines@));
            return lines;
        }
        pos = end + 1;
    }
    assert(views(lines@) + Seq::<LineView>::empty() =~= views(lines@));
    lines
}

} // verus!
