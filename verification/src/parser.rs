//! From source text to a syntax tree: each logical line is read as a
//! decorator, a definition header or another statement, and the indentation
//! of the lines decides which statement is nested in which.

use crate::decorator::{decorate, inject};
use crate::lines::{blank, is_blank, logical_lines, scan_lines, skip_blanks, Line, LineView};
use crate::laws::lemma_parsed_tree_renders;
use crate::render::{render, render_outcome, renderable, RenderError};
use crate::text::{to_chars, to_string, views};
use crate::tree::{
    kinds, lemma_body_view, lemma_walk_of_concat, preorder, preorder_all, DecoratorReference,
    Definition, DefinitionView, KindView, NodeKind, NodeView, SyntaxNode, SyntaxTree,
};
use vstd::prelude::*;

verus! {

/// Why a source text has no syntax tree.
#[derive(Clone, Copy, Debug, PartialEq, Eq)]
pub enum ParseError {
    /// An `@` with nothing behind it.
    EmptyDecorator,
    /// A `def` or `class` that names nothing.
    MissingName,
    /// A decorator that is not followed, at its own indentation, by another
    /// decorator or by a definition.
    DecoratorWithoutDefinition,
    /// The first statement is indented.
    UnexpectedIndent,
    /// A line is indented less than the line before it, and stands at the
    /// indentation of no block that is open.
    InconsistentDedent,
}

/// What a logical line holds.
#[derive(Debug, PartialEq, Eq)]
pub enum Header {
    /// `@name`
    Decorator(DecoratorReference),
    /// The header of a definition, its decorator list still empty, or any
    /// other statement.
    Statement(NodeKind),
}

/// What a header is to the contracts.
pub enum HeaderView {
    Decorator(Seq<char>),
    Statement(KindView),
}

impl View for Header {
    type V = HeaderView;

    open spec fn view(&self) -> HeaderView {
        match self {
            Header::Decorator(d) => HeaderView::Decorator(d@),
            Header::Statement(kind) => HeaderView::Statement(kind@),
        }
    }
}

/// The keyword `def`.
pub open spec fn def_word() -> Seq<char> {
    seq!['d', 'e', 'f']
}

/// The keyword `async`.
pub open spec fn async_word() -> Seq<char> {
    seq!['a', 's', 'y', 'n', 'c']
}

/// The keyword `class`.
pub open spec fn class_word() -> Seq<char> {
    seq!['c', 'l', 'a', 's', 's']
}

/// A character of a name: a letter, a digit, an underscore, or any character
/// beyond ASCII.
pub open spec fn is_name_char(c: char) -> bool {
    c == '_' || ('a' <= c && c <= 'z') || ('A' <= c && c <= 'Z') || ('0' <= c && c <= '9')
        || c > '\u{7f}'
}

/// Whether `word` stands in `s` at position `at` as a word of its own:
/// followed by a blank or by the end of `s`.
pub open spec fn word_at(s: Seq<char>, at: int, word: Seq<char>) -> bool {
    &&& 0 <= at
    &&& at + word.len() <= s.len()
    &&& s.subrange(at, at + word.len()) == word
    &&& (at + word.len() == s.len() || is_blank(s[at + word.len()]))
}

/// The end of the run of name characters that starts at `from`.
pub open spec fn name_end(s: Seq<char>, from: int) -> int
    decreases s.len() - from,
{
    if 0 <= from < s.len() && is_name_char(s[from]) {
        name_end(s, from + 1)
    } else {
        from
    }
}

/// The definition whose keyword ends at `after_keyword`: blanks, then the
/// name, then the signature up to the end of the line.
pub open spec fn definition_at(s: Seq<char>, after_keyword: int) -> Result<
    DefinitionView,
    ParseError,
> {
    let start = skip_blanks(s, after_keyword, s.len() as int);
    let end = name_end(s, start);
    if end == start {
        Err(ParseError::MissingName)
    } else {
        Ok(
            DefinitionView {
                name: s.subrange(start, end),
                signature: s.subrange(end, s.len() as int),
                decorator_list: Seq::empty(),
            },
        )
    }
}

/// What the content of a logical line is read as.
pub open spec fn classify(s: Seq<char>) -> Result<HeaderView, ParseError> {
    let n = s.len() as int;
    if n > 0 && s[0] == '@' {
        let start = skip_blanks(s, 1, n);
        if start == n {
            Err(ParseError::EmptyDecorator)
        } else {
            Ok(HeaderView::Decorator(s.subrange(start, n)))
        }
    } else if word_at(s, 0, def_word()) {
        match definition_at(s, 3) {
            Err(e) => Err(e),
            Ok(d) => Ok(HeaderView::Statement(KindView::FunctionDef(d))),
        }
    } else if word_at(s, 0, async_word()) && word_at(s, skip_blanks(s, 5, n), def_word()) {
        match definition_at(s, skip_blanks(s, 5, n) + 3) {
            Err(e) => Err(e),
            Ok(d) => Ok(HeaderView::Statement(KindView::AsyncFunctionDef(d))),
        }
    } else if word_at(s, 0, class_word()) {
        match definition_at(s, 5) {
            Err(e) => Err(e),
            Ok(d) => Ok(HeaderView::Statement(KindView::ClassDef(d))),
        }
    } else {
        Ok(HeaderView::Statement(KindView::Other(s)))
    }
}

/// A run of name characters ends at or after its start, holds name
/// characters only, and stops at the end or at a character that is none.
pub proof fn lemma_name_end_bounds(s: Seq<char>, from: int)
    requires
        0 <= from <= s.len(),
    ensures
        from <= name_end(s, from) <= s.len(),
        forall|i: int| from <= i < name_end(s, from) ==> is_name_char(s[i]),
        name_end(s, from) < s.len() ==> !is_name_char(s[name_end(s, from)]),
    decreases s.len() - from,
{
    if from < s.len() && is_name_char(s[from]) {
        lemma_name_end_bounds(s, from + 1);
    }
}

/// Whether `c` is a character of a name.
fn name_char(c: char) -> (r: bool)
    ensures
        r == is_name_char(c),
{
    c == '_' || ('a' <= c && c <= 'z') || ('A' <= c && c <= 'Z') || ('0' <= c && c <= '9')
        || c > '\u{7f}'
}

/// Whether `word` stands in `s` at `at` as a word of its own.
fn has_word(s: &Vec<char>, at: usize, word: &Vec<char>) -> (r: bool)
    requires
        at <= s.len(),
    ensures
        r == word_at(s@, at as int, word@),
{
    let n = word.len();
    if n > s.len() - at {
        return false;
    }
    let mut i: usize = 0;
    while i < n
        invariant
            n == word.len(),
            at + n <= s.len(),
            i <= n,
            forall|j: int| 0 <= j < i ==> s@[at + j] == word@[j],
        decreases n - i,
    {
        if s[at + i] != word[i] {
            assert(s@.subrange(at as int, at + n)[i as int] != word@[i as int]);
            return false;
        }
        i += 1;
    }
    assert(s@.subrange(at as int, at + n) =~= word@);
    at + n == s.len() || blank(s[at + n])
}

/// The first position from `from` on that holds no blank.
fn after_blanks(s: &Vec<char>, from: usize) -> (r: usize)
    requires
        from <= s.len(),
    ensures
        r == skip_blanks(s@, from as int, s.len() as int),
        from <= r <= s.len(),
{
    let mut at: usize = from;
    while at < s.len() && blank(s[at])
        invariant
            from <= at <= s.len(),
            skip_blanks(s@, from as int, s.len() as int) == skip_blanks(
                s@,
                at as int,
                s.len() as int,
            ),
        decreases s.len() - at,
    {
        at += 1;
    }
    at
}

/// Reads the name and the signature of a definition behind its keyword.
fn read_definition(s: &Vec<char>, after_keyword: usize) -> (r: Result<Definition, ParseError>)
    requires
        after_keyword <= s.len(),
    ensures
        match r {
            Ok(d) => definition_at(s@, after_keyword as int) == Ok::<DefinitionView, ParseError>(
                d@,
            ),
            Err(e) => definition_at(s@, after_keyword as int) == Err::<DefinitionView, ParseError>(
                e,
            ),
        },
{
    let start = after_blanks(s, after_keyword);
    let mut end: usize = start;
    while end < s.len() && name_char(s[end])
        invariant
            start <= end <= s.len(),
            name_end(s@, start as int) == name_end(s@, end as int),
        decreases s.len() - end,
    {
        end += 1;
    }
    if end == start {
        Err(ParseError::MissingName)
    } else {
        let d = Definition {
            name: to_string(s, start, end),
            signature: to_string(s, end, s.len()),
            decorator_list: Vec::new(),
        };
        assert(d@.decorator_list =~= Seq::empty());
        Ok(d)
    }
}

/// Reads the content of a logical line.
pub fn read_header(content: &Vec<char>) -> (r: Result<Header, ParseError>)
    ensures
        match r {
            Ok(h) => classify(content@) == Ok::<HeaderView, ParseError>(h@),
            Err(e) => classify(content@) == Err::<HeaderView, ParseError>(e),
        },
{
    let n = content.len();
    if n > 0 && content[0] == '@' {
        let start = after_blanks(content, 1);
        if start == n {
            return Err(ParseError::EmptyDecorator);
        }
        return Ok(Header::Decorator(DecoratorReference { name: to_string(content, start, n) }));
    }
    let def = vec!['d', 'e', 'f'];
    let asynchronous = vec!['a', 's', 'y', 'n', 'c'];
    let class = vec!['c', 'l', 'a', 's', 's'];
    assert(def@ =~= def_word());
    assert(asynchronous@ =~= async_word());
    assert(class@ =~= class_word());
    if has_word(content, 0, &def) {
        return match read_definition(content, 3) {
            Err(e) => Err(e),
            Ok(d) => Ok(Header::Statement(NodeKind::FunctionDef(d))),
        };
    }
    if has_word(content, 0, &asynchronous) {
        let at = after_blanks(content, 5);
        if has_word(content, at, &def) {
            return match read_definition(content, at + 3) {
                Err(e) => Err(e),
                Ok(d) => Ok(Header::Statement(NodeKind::AsyncFunctionDef(d))),
            };
        }
    }
    if has_word(content, 0, &class) {
        return match read_definition(content, 5) {
            Err(e) => Err(e),
            Ok(d) => Ok(Header::Statement(NodeKind::ClassDef(d))),
        };
    }
    assert(content@.subrange(0, n as int) =~= content@);
    Ok(Header::Statement(NodeKind::Other(to_string(content, 0, n))))
}

/// A statement with the indentation of its header line. A definition holds
/// the decorators that stood above it.
#[derive(Debug, PartialEq, Eq)]
pub struct Entry {
    pub indent: usize,
    pub kind: NodeKind,
}

/// What an entry is to the contracts.
pub struct EntryView {
    pub indent: nat,
    pub kind: KindView,
}

impl View for Entry {
    type V = EntryView;

    open spec fn view(&self) -> EntryView {
        EntryView { indent: self.indent as nat, kind: self.kind@ }
    }
}

/// What has been read of a text: the statements so far, the decorators that
/// still wait for their definition, and the indentations of the blocks that
/// are open, innermost last.
pub struct ReaderView {
    pub entries: Seq<EntryView>,
    pub pending: Seq<Seq<char>>,
    pub open: Seq<nat>,
}

/// `open` without the blocks that are indented more than `indent`.
pub open spec fn unwind(open: Seq<nat>, indent: nat) -> Seq<nat>
    decreases open.len(),
{
    if open.len() > 0 && open.last() > indent {
        unwind(open.drop_last(), indent)
    } else {
        open
    }
}

/// The open blocks after a line indented by `indent`. The first line of a
/// text must not be indented. A line indented more than the innermost block
/// opens a new one. Any other line closes the blocks indented more than it,
/// and must then stand at the indentation of the innermost one left.
pub open spec fn place(open: Seq<nat>, indent: nat) -> Result<Seq<nat>, ParseError> {
    if open.len() == 0 {
        if indent == 0 {
            Ok(seq![0nat])
        } else {
            Err(ParseError::UnexpectedIndent)
        }
    } else if indent > open.last() {
        Ok(open.push(indent))
    } else {
        let left = unwind(open, indent);
        if left.len() > 0 && left.last() == indent {
            Ok(left)
        } else {
            Err(ParseError::InconsistentDedent)
        }
    }
}

/// Reading one more line. While decorators wait, the line must stand at
/// their indentation and hold a decorator or a definition. Otherwise it is
/// placed by its indentation, and starts a run of decorators or is a
/// statement.
pub open spec fn read_line(state: ReaderView, line: LineView) -> Result<ReaderView, ParseError> {
    match classify(line.content) {
        Err(e) => Err(e),
        Ok(header) => if state.pending.len() > 0 {
            if state.open.len() == 0 || line.indent != state.open.last() {
                Err(ParseError::DecoratorWithoutDefinition)
            } else {
                match header {
                    HeaderView::Decorator(name) => Ok(
                        ReaderView {
                            entries: state.entries,
                            pending: state.pending.push(name),
                            open: state.open,
                        },
                    ),
                    HeaderView::Statement(kind) => if kind.is_definition() {
                        Ok(
                            ReaderView {
                                entries: state.entries.push(
                                    EntryView {
                                        indent: line.indent,
                                        kind: kind.with_decorators(state.pending),
                                    },
                                ),
                                pending: Seq::empty(),
                                open: state.open,
                            },
                        )
                    } else {
                        Err(ParseError::DecoratorWithoutDefinition)
                    },
                }
            }
        } else {
            match place(state.open, line.indent) {
                Err(e) => Err(e),
                Ok(open) => match header {
                    HeaderView::Decorator(name) => Ok(
                        ReaderView { entries: state.entries, pending: seq![name], open },
                    ),
                    HeaderView::Statement(kind) => Ok(
                        ReaderView {
                            entries: state.entries.push(EntryView { indent: line.indent, kind }),
                            pending: Seq::empty(),
                            open,
                        },
                    ),
                },
            }
        },
    }
}

/// Reading the first `n` lines, or the error of the first line that cannot
/// be read.
pub open spec fn read_lines(lines: Seq<LineView>, n: int) -> Result<ReaderView, ParseError>
    decreases n,
{
    if n <= 0 {
        Ok(ReaderView { entries: Seq::empty(), pending: Seq::empty(), open: Seq::empty() })
    } else {
        match read_lines(lines, n - 1) {
            Err(e) => Err(e),
            Ok(state) => read_line(state, lines[n - 1]),
        }
    }
}

/// The statements of a text, given its logical lines. Decorators at the end
/// of the text decorate nothing, which is an error.
pub open spec fn entries_of(lines: Seq<LineView>) -> Result<Seq<EntryView>, ParseError> {
    match read_lines(lines, lines.len() as int) {
        Err(e) => Err(e),
        Ok(state) => if state.pending.len() > 0 {
            Err(ParseError::DecoratorWithoutDefinition)
        } else {
            Ok(state.entries)
        },
    }
}

/// A line that cannot be read fails the whole text, however many lines
/// follow it.
pub proof fn lemma_read_error_stays(lines: Seq<LineView>, k: int, n: int)
    requires
        0 <= k <= n,
        read_lines(lines, k) is Err,
    ensures
        read_lines(lines, n) == read_lines(lines, k),
    decreases n - k,
{
    if k < n {
        lemma_read_error_stays(lines, k, n - 1);
    }
}

/// Places a line by its indentation among the open blocks.
fn place_line(open: &mut Vec<usize>, indent: usize) -> (r: Result<(), ParseError>)
    ensures
        match r {
            Ok(_) => place(indents(old(open)@), indent as nat) == Ok::<Seq<nat>, ParseError>(
                indents(final(open)@),
            ),
            Err(e) => place(indents(old(open)@), indent as nat) == Err::<Seq<nat>, ParseError>(e),
        },
{
    if open.len() == 0 {
        if indent == 0 {
            open.push(0);
            assert(indents(open@) =~= seq![0nat]);
            return Ok(());
        }
        return Err(ParseError::UnexpectedIndent);
    }
    if indent > open[open.len() - 1] {
        open.push(indent);
        assert(indents(open@) =~= indents(old(open)@).push(indent as nat));
        return Ok(());
    }
    while open.len() > 0 && open[open.len() - 1] > indent
        invariant
            unwind(indents(old(open)@), indent as nat) == unwind(indents(open@), indent as nat),
        decreases open.len(),
    {
        let ghost before = indents(open@);
        open.pop();
        assert(indents(open@) =~= before.drop_last());
    }
    if open.len() > 0 && open[open.len() - 1] == indent {
        Ok(())
    } else {
        Err(ParseError::InconsistentDedent)
    }
}

/// The indentations of a stack of open blocks, as numbers.
pub open spec fn indents(open: Seq<usize>) -> Seq<nat> {
    open.map_values(|indent: usize| indent as nat)
}

/// Reads the statements of a text from its logical lines.
pub fn read_entries(lines: &Vec<Line>) -> (r: Result<Vec<Entry>, ParseError>)
    ensures
        match r {
            Ok(entries) => entries_of(views(lines@)) == Ok::<Seq<EntryView>, ParseError>(
                views(entries@),
            ),
            Err(e) => entries_of(views(lines@)) == Err::<Seq<EntryView>, ParseError>(e),
        },
{
    let mut entries: Vec<Entry> = Vec::new();
    let mut pending: Vec<DecoratorReference> = Vec::new();
    let mut open: Vec<usize> = Vec::new();
    let mut i: usize = 0;
    assert(views(entries@) =~= Seq::empty());
    assert(views(pending@) =~= Seq::empty());
    assert(indents(open@) =~= Seq::empty());
    while i < lines.len()
        invariant
            i <= lines.len(),
            read_lines(views(lines@), i as int) == Ok::<ReaderView, ParseError>(
                ReaderView {
                    entries: views(entries@),
                    pending: views(pending@),
                    open: indents(open@),
                },
            ),
        decreases lines.len() - i,
    {
        let line = &lines[i];
        let ghost state = ReaderView {
            entries: views(entries@),
            pending: views(pending@),
            open: indents(open@),
        };
        assert(views(lines@)[i as int] == line@);
        assert(read_lines(views(lines@), i + 1) == read_line(state, line@));
        proof {
            if read_lines(views(lines@), i + 1) is Err {
                lemma_read_error_stays(views(lines@), i + 1, lines.len() as int);
            }
        }
        let header = match read_header(&line.content) {
            Err(e) => {
                return Err(e);
            },
            Ok(header) => header,
        };
        if pending.len() > 0 {
            if open.len() == 0 || line.indent != open[open.len() - 1] {
                return Err(ParseError::DecoratorWithoutDefinition);
            }
            match header {
                Header::Decorator(d) => {
                    pending.push(d);
                    assert(views(pending@) =~= state.pending.push(d@));
                },
                Header::Statement(kind) => {
                    let mut list: Vec<DecoratorReference> = Vec::new();
                    std::mem::swap(&mut list, &mut pending);
                    assert(views(pending@) =~= Seq::empty());
                    let kind = match kind {
                        NodeKind::FunctionDef(d) => NodeKind::FunctionDef(
                            Definition {
                                name: d.name,
                                signature: d.signature,
                                decorator_list: list,
                            },
                        ),
                        NodeKind::AsyncFunctionDef(d) => NodeKind::AsyncFunctionDef(
                            Definition {
                                name: d.name,
                                signature: d.signature,
                                decorator_list: list,
                            },
                        ),
                        NodeKind::ClassDef(d) => NodeKind::ClassDef(
                            Definition {
                                name: d.name,
                                signature: d.signature,
                                decorator_list: list,
                            },
                        ),
                        NodeKind::Other(_) => {
                            return Err(ParseError::DecoratorWithoutDefinition);
                        },
                    };
                    let entry = Entry { indent: line.indent, kind };
                    entries.push(entry);
                    assert(views(entries@) =~= state.entries.push(entry@));
                },
            }
        } else {
            match place_line(&mut open, line.indent) {
                Err(e) => {
                    return Err(e);
                },
                Ok(_) => {},
            }
            match header {
                Header::Decorator(d) => {
                    pending.push(d);
                    assert(views(pending@) =~= seq![d@]);
                },
                Header::Statement(kind) => {
                    let entry = Entry { indent: line.indent, kind };
                    entries.push(entry);
                    assert(views(entries@) =~= state.entries.push(entry@));
                },
            }
        }
        i += 1;
    }
    assert(views(lines@).len() == lines.len());
    if pending.len() > 0 {
        Err(ParseError::DecoratorWithoutDefinition)
    } else {
        Ok(entries)
    }
}

/// The end of the run of statements from `from` on, within `from..hi`, that
/// are indented more than `indent`.
pub open spec fn deeper_end(entries: Seq<EntryView>, indent: nat, from: int, hi: int) -> int
    decreases hi - from,
{
    if from < hi && entries[from].indent > indent {
        deeper_end(entries, indent, from + 1, hi)
    } else {
        from
    }
}

/// A run of deeper statements ends at or after its start, holds deeper
/// statements only, and stops at the end or at a statement that is not
/// deeper.
pub proof fn lemma_deeper_end_bounds(entries: Seq<EntryView>, indent: nat, from: int, hi: int)
    requires
        from <= hi,
    ensures
        from <= deeper_end(entries, indent, from, hi) <= hi,
        forall|i: int|
            from <= i < deeper_end(entries, indent, from, hi) ==> entries[i].indent > indent,
        deeper_end(entries, indent, from, hi) < hi ==> entries[deeper_end(
            entries,
            indent,
            from,
            hi,
        )].indent <= indent,
    decreases hi - from,
{
    if from < hi && entries[from].indent > indent {
        lemma_deeper_end_bounds(entries, indent, from + 1, hi);
    }
}

/// The nodes of the statements in `lo..hi`: the first statement, with the
/// statements that follow it and are indented more than it as its body, then
/// the nodes of the rest.
pub open spec fn forest(entries: Seq<EntryView>, lo: int, hi: int) -> Seq<NodeView>
    decreases hi - lo,
{
    if lo >= hi {
        Seq::empty()
    } else {
        proof {
            lemma_deeper_end_bounds(entries, entries[lo].indent, lo + 1, hi);
        }
        let end = deeper_end(entries, entries[lo].indent, lo + 1, hi);
        seq![NodeView { kind: entries[lo].kind, body: forest(entries, lo + 1, end) }] + forest(
            entries,
            end,
            hi,
        )
    }
}

/// The module that holds the given statements.
pub open spec fn module_of(entries: Seq<EntryView>) -> NodeView {
    NodeView { kind: KindView::Other(Seq::empty()), body: forest(entries, 0, entries.len() as int) }
}

/// The syntax tree of a source text, or why it has none.
pub open spec fn parse_outcome(source: Seq<char>) -> Result<NodeView, ParseError> {
    match entries_of(logical_lines(source)) {
        Err(e) => Err(e),
        Ok(entries) => Ok(module_of(entries)),
    }
}

/// Builds the nodes of the statements in `lo..hi`.
fn build_nodes(entries: &Vec<Entry>, lo: usize, hi: usize) -> (nodes: Vec<SyntaxNode>)
    requires
        lo <= hi <= entries.len(),
    ensures
        views(nodes@) == forest(views(entries@), lo as int, hi as int),
    decreases hi - lo,
{
    let mut nodes: Vec<SyntaxNode> = Vec::new();
    let mut at: usize = lo;
    assert(views(nodes@) =~= Seq::empty());
    while at < hi
        invariant
            lo <= at <= hi <= entries.len(),
            forest(views(entries@), lo as int, hi as int) == views(nodes@) + forest(
                views(entries@),
                at as int,
                hi as int,
            ),
        decreases hi - at,
    {
        let indent = entries[at].indent;
        let mut end: usize = at + 1;
        while end < hi && entries[end].indent > indent
            invariant
                at < end <= hi <= entries.len(),
                indent == entries[at as int].indent,
                deeper_end(views(entries@), indent as nat, at + 1, hi as int) == deeper_end(
                    views(entries@),
                    indent as nat,
                    end as int,
                    hi as int,
                ),
            decreases hi - end,
        {
            end += 1;
        }
        let body = build_nodes(entries, at + 1, end);
        let node = SyntaxNode { kind: entries[at].kind.duplicate(), body };
        proof {
            lemma_body_view(node);
        }
        let ghost before = views(nodes@);
        nodes.push(node);
        assert(views(nodes@) =~= before + seq![node@]);
        at = end;
    }
    assert(views(nodes@) + Seq::<NodeView>::empty() =~= views(nodes@));
    nodes
}

/// Builds the tree of a sequence of statements: a module whose body nests
/// each statement in the nearest one before it that is indented less.
pub fn build_tree(entries: &Vec<Entry>) -> (tree: SyntaxTree)
    ensures
        tree@ == module_of(views(entries@)),
{
    let body = build_nodes(entries, 0, entries.len());
    let root = SyntaxNode { kind: NodeKind::Other(String::new()), body };
    proof {
        lemma_body_view(root);
    }
    SyntaxTree { root }
}

/// Parses a source text into its syntax tree. The tree of a text can always
/// be rendered.
pub fn parse(source: &str) -> (r: Result<SyntaxTree, ParseError>)
    ensures
        match r {
            Ok(tree) => parse_outcome(source@) == Ok::<NodeView, ParseError>(tree@),
            Err(e) => parse_outcome(source@) == Err::<NodeView, ParseError>(e),
        },
        r matches Ok(tree) ==> renderable(tree@),
{
    proof {
        lemma_parsed_tree_renders(source@);
    }
    let chars = to_chars(source);
    let lines = scan_lines(&chars);
    match read_entries(&lines) {
        Err(e) => Err(e),
        Ok(entries) => Ok(build_tree(&entries)),
    }
}

/// The kinds of the statements in `lo..hi`, in the order of their lines.
pub open spec fn entry_kinds(entries: Seq<EntryView>, lo: int, hi: int) -> Seq<KindView> {
    Seq::new((hi - lo) as nat, |i: int| entries[lo + i].kind)
}

/// A walk of the nodes built from a run of statements visits the statements
/// in the order of their lines.
pub proof fn lemma_forest_walk(entries: Seq<EntryView>, lo: int, hi: int)
    requires
        0 <= lo <= hi <= entries.len(),
    ensures
        kinds(preorder_all(forest(entries, lo, hi))) == entry_kinds(entries, lo, hi),
    decreases hi - lo,
{
    if lo >= hi {
        assert(kinds(preorder_all(forest(entries, lo, hi))) =~= entry_kinds(entries, lo, hi));
    } else {
        lemma_deeper_end_bounds(entries, entries[lo].indent, lo + 1, hi);
        let end = deeper_end(entries, entries[lo].indent, lo + 1, hi);
        let first = NodeView { kind: entries[lo].kind, body: forest(entries, lo + 1, end) };
        let rest = forest(entries, end, hi);
        lemma_forest_walk(entries, lo + 1, end);
        lemma_forest_walk(entries, end, hi);
        lemma_walk_of_concat(seq![first], rest);
        assert(seq![first].drop_last() =~= Seq::<NodeView>::empty());
        assert(preorder_all(Seq::<NodeView>::empty()) =~= Seq::<NodeView>::empty());
        assert(seq![first].last() == first);
        assert(preorder_all(seq![first]) =~= preorder(first));
        let walk = preorder_all(forest(entries, lo, hi));
        assert(walk =~= seq![first] + preorder_all(first.body) + preorder_all(rest));
        assert(preorder_all(first.body).len() == end - (lo + 1)) by {
            assert(kinds(preorder_all(first.body)).len() == entry_kinds(
                entries,
                lo + 1,
                end,
            ).len());
        }
        assert(preorder_all(rest).len() == hi - end) by {
            assert(kinds(preorder_all(rest)).len() == entry_kinds(entries, end, hi).len());
        }
        assert forall|i: int| 0 <= i < hi - lo implies kinds(walk)[i] == entry_kinds(
            entries,
            lo,
            hi,
        )[i] by {
            if i == 0 {
            } else if i < end - lo {
                assert(walk[i] == preorder_all(first.body)[i - 1]);
                assert(kinds(preorder_all(first.body))[i - 1] == entry_kinds(
                    entries,
                    lo + 1,
                    end,
                )[i - 1]);
            } else {
                assert(walk[i] == preorder_all(rest)[i - (end - lo)]);
                assert(kinds(preorder_all(rest))[i - (end - lo)] == entry_kinds(
                    entries,
                    end,
                    hi,
                )[i - (end - lo)]);
            }
        }
        assert(kinds(walk) =~= entry_kinds(entries, lo, hi));
    }
}

/// A walk of the tree of a source text visits the module, then the
/// statements of the text in the order of their lines: a definition before
/// what is nested in it, and what stands earlier before what stands later.
pub proof fn lemma_walk_follows_source(source: Seq<char>)
    ensures
        parse_outcome(source) matches Ok(tree) ==> entries_of(logical_lines(source)) matches Ok(
            entries,
        ) && kinds(preorder(tree)) == seq![KindView::Other(Seq::<char>::empty())] + entry_kinds(
            entries,
            0,
            entries.len() as int,
        ),
{
    if let Ok(entries) = entries_of(logical_lines(source)) {
        lemma_forest_walk(entries, 0, entries.len() as int);
        let tree = module_of(entries);
        assert(kinds(preorder(tree)) =~= seq![KindView::Other(Seq::<char>::empty())] + kinds(
            preorder_all(tree.body),
        ));
    }
}

/// Why a source text could not be annotated.
#[derive(Clone, Copy, Debug, PartialEq, Eq)]
pub enum AnnotateError {
    /// The source text has no syntax tree.
    Parse(ParseError),
    /// The decorated tree cannot be written as text.
    Render(RenderError),
}

/// What annotating a source text gives: the text of its syntax tree with
/// the decorator injected, or the error of the step that failed. There is
/// no partial result.
pub open spec fn annotate_outcome(source: Seq<char>, decorator: Seq<char>) -> Result<
    Seq<char>,
    AnnotateError,
> {
    match parse_outcome(source) {
        Err(e) => Err(AnnotateError::Parse(e)),
        Ok(tree) => match render_outcome(decorate(tree, decorator)) {
            Err(e) => Err(AnnotateError::Render(e)),
            Ok(text) => Ok(text),
        },
    }
}

/// Puts a decorator on every function and class definition of a source
/// text: parses the text, injects the decorator, and renders the tree.
pub fn add_decorators_to_functions(source: &str, decorator: &str) -> (r: Result<
    String,
    AnnotateError,
>)
    ensures
        match r {
            Ok(text) => annotate_outcome(source@, decorator@) == Ok::<Seq<char>, AnnotateError>(
                text@,
            ),
            Err(e) => annotate_outcome(source@, decorator@) == Err::<Seq<char>, AnnotateError>(e),
        },
{
    let mut tree = match parse(source) {
        Err(e) => {
            return Err(AnnotateError::Parse(e));
        },
        Ok(tree) => tree,
    };
    inject(&mut tree, decorator);
    match render(&tree) {
        Err(e) => Err(AnnotateError::Render(e)),
        Ok(text) => Ok(text),
    }
}

} // verus!
