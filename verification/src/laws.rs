//! What holds of parsing, injecting and rendering together: the tree of a
//! source text can always be rendered, and parsing the rendered text gives
//! the tree back.

use crate::decorator::{decorate, lemma_no_definition_no_change};
use crate::lines::{
    ends_lines, is_blank, is_content, lemma_lines_of_concat, lemma_logical_lines_hold_text,
    lemma_one_line, lemma_skip_blanks_bounds, lemma_skip_blanks_is, logical_lines, skip_blanks,
    LineView,
};
use crate::parser::{
    annotate_outcome, async_word, class_word, classify, def_word, deeper_end, definition_at,
    entries_of, forest, is_name_char, lemma_deeper_end_bounds, lemma_name_end_bounds, name_end,
    parse_outcome, place, read_line, read_lines, unwind, AnnotateError, EntryView, HeaderView,
    ParseError, ReaderView,
};
use crate::render::{
    async_def_keyword, class_keyword, decorator_lines, decorators_of, def_keyword,
    definition_renderable, header_text, indent_step, is_single_line, kind_renderable,
    node_renderable, render_all, render_node, render_text, renderable,
};
use crate::tree::{preorder, DefinitionView, KindView, NodeView};
use vstd::prelude::*;

verus! {

/// Whether a text can stand behind the `@` of a decorator line.
pub open spec fn is_decorator_text(text: Seq<char>) -> bool {
    &&& text.len() > 0
    &&& is_single_line(text)
    &&& !is_blank(text[0])
    &&& !is_blank(text.last())
}

/// Whether a definition is written as the parser reads one: the name is a
/// run of name characters, the signature does not go on with one and ends
/// with no blank, and each decorator can stand behind an `@`.
pub open spec fn canonical_definition(d: DefinitionView) -> bool {
    &&& d.name.len() > 0
    &&& forall|i: int| 0 <= i < d.name.len() ==> is_name_char(#[trigger] d.name[i])
    &&& is_single_line(d.signature)
    &&& d.signature.len() > 0 ==> !is_name_char(d.signature[0]) && !is_blank(d.signature.last())
    &&& forall|i: int|
        0 <= i < d.decorator_list.len() ==> is_decorator_text(#[trigger] d.decorator_list[i])
}

/// Whether a kind is written as the parser reads one. The text of another
/// statement is the content of a line that is read as just that statement.
pub open spec fn canonical_kind(kind: KindView) -> bool {
    match kind {
        KindView::FunctionDef(d) => canonical_definition(d),
        KindView::AsyncFunctionDef(d) => canonical_definition(d),
        KindView::ClassDef(d) => canonical_definition(d),
        KindView::Other(text) => is_content(text) && classify(text) == Ok::<
            HeaderView,
            ParseError,
        >(HeaderView::Statement(KindView::Other(text))),
    }
}

/// Whether a node and every node nested in it is written as the parser
/// reads it.
pub open spec fn canonical_node(node: NodeView) -> bool
    decreases node,
{
    &&& canonical_kind(node.kind)
    &&& forall|i: int| 0 <= i < node.body.len() ==> canonical_node(#[trigger] node.body[i])
}

/// Whether a tree is a module of nodes written as the parser reads them.
pub open spec fn canonical(tree: NodeView) -> bool {
    &&& tree.kind == KindView::Other(Seq::<char>::empty())
    &&& forall|i: int| 0 <= i < tree.body.len() ==> canonical_node(#[trigger] tree.body[i])
}

/// A kind that is written as the parser reads it can be rendered.
pub proof fn lemma_canonical_kind_renders(kind: KindView)
    requires
        canonical_kind(kind),
    ensures
        kind_renderable(kind),
{
    match kind {
        KindView::FunctionDef(d) => lemma_canonical_definition_renders(d),
        KindView::AsyncFunctionDef(d) => lemma_canonical_definition_renders(d),
        KindView::ClassDef(d) => lemma_canonical_definition_renders(d),
        KindView::Other(text) => {},
    }
}

/// A definition that is written as the parser reads it can be rendered.
proof fn lemma_canonical_definition_renders(d: DefinitionView)
    requires
        canonical_definition(d),
    ensures
        definition_renderable(d),
{
    assert forall|i: int| 0 <= i < d.name.len() implies #[trigger] d.name[i] != '\n' by {
        assert(is_name_char(d.name[i]));
    }
}

/// A node that is written as the parser reads it can be rendered.
pub proof fn lemma_canonical_node_renders(node: NodeView)
    requires
        canonical_node(node),
    ensures
        node_renderable(node),
    decreases node,
{
    lemma_canonical_kind_renders(node.kind);
    assert forall|i: int| 0 <= i < node.body.len() implies node_renderable(
        #[trigger] node.body[i],
    ) by {
        lemma_canonical_node_renders(node.body[i]);
    }
}

/// A tree that is written as the parser reads it can be rendered.
pub proof fn lemma_canonical_renders(tree: NodeView)
    requires
        canonical(tree),
    ensures
        renderable(tree),
{
    assert forall|i: int| 0 <= i < tree.body.len() implies node_renderable(
        #[trigger] tree.body[i],
    ) by {
        lemma_canonical_node_renders(tree.body[i]);
    }
}

/// The run of name characters from `from` ends at `e` where only name
/// characters stand before `e` and none stands at `e`.
pub proof fn lemma_name_end_is(s: Seq<char>, from: int, e: int)
    requires
        0 <= from <= e <= s.len(),
        forall|i: int| from <= i < e ==> is_name_char(s[i]),
        e == s.len() || !is_name_char(s[e]),
    ensures
        name_end(s, from) == e,
    decreases e - from,
{
    if from < e {
        lemma_name_end_is(s, from + 1, e);
    }
}

/// What the parser reads from the content of a line is written as the
/// parser reads it.
pub proof fn lemma_classified_is_canonical(content: Seq<char>)
    requires
        is_content(content),
    ensures
        match classify(content) {
            Ok(HeaderView::Decorator(name)) => is_decorator_text(name),
            Ok(HeaderView::Statement(kind)) => canonical_kind(kind) && (kind.decorator_list()
                matches Some(list) ==> list.len() == 0),
            Err(_) => true,
        },
{
    let n = content.len() as int;
    lemma_skip_blanks_bounds(content, 1, n);
    if n >= 3 {
        lemma_skip_blanks_bounds(content, 3, n);
        lemma_name_end_bounds(content, skip_blanks(content, 3, n));
    }
    if n >= 5 {
        lemma_skip_blanks_bounds(content, 5, n);
        let at = skip_blanks(content, 5, n);
        if at + 3 <= n {
            lemma_skip_blanks_bounds(content, at + 3, n);
            lemma_name_end_bounds(content, skip_blanks(content, at + 3, n));
        }
        lemma_name_end_bounds(content, skip_blanks(content, 5, n));
    }
}

/// Whether every statement read so far, and every decorator that waits, is
/// written as the parser reads it.
pub open spec fn reader_canonical(state: ReaderView) -> bool {
    &&& forall|i: int|
        0 <= i < state.entries.len() ==> canonical_kind((#[trigger] state.entries[i]).kind)
    &&& forall|i: int|
        0 <= i < state.pending.len() ==> is_decorator_text(#[trigger] state.pending[i])
}

/// Whatever has been read from lines that hold content is written as the
/// parser reads it.
pub proof fn lemma_read_lines_canonical(lines: Seq<LineView>, n: int)
    requires
        0 <= n <= lines.len(),
        forall|i: int| 0 <= i < lines.len() ==> is_content((#[trigger] lines[i]).content),
    ensures
        read_lines(lines, n) matches Ok(state) ==> reader_canonical(state),
    decreases n,
{
    if n > 0 {
        lemma_read_lines_canonical(lines, n - 1);
        if let Ok(state) = read_lines(lines, n - 1) {
            lemma_classified_is_canonical(lines[n - 1].content);
        }
    }
}

/// Nodes built from statements written as the parser reads them are
/// written so too.
pub proof fn lemma_forest_canonical(entries: Seq<EntryView>, lo: int, hi: int)
    requires
        0 <= lo <= hi <= entries.len(),
        forall|i: int| 0 <= i < entries.len() ==> canonical_kind((#[trigger] entries[i]).kind),
    ensures
        forall|i: int|
            0 <= i < forest(entries, lo, hi).len() ==> canonical_node(
                #[trigger] forest(entries, lo, hi)[i],
            ),
    decreases hi - lo,
{
    if lo < hi {
        lemma_deeper_end_bounds(entries, entries[lo].indent, lo + 1, hi);
        let end = deeper_end(entries, entries[lo].indent, lo + 1, hi);
        lemma_forest_canonical(entries, lo + 1, end);
        lemma_forest_canonical(entries, end, hi);
        let first = NodeView { kind: entries[lo].kind, body: forest(entries, lo + 1, end) };
        let rest = forest(entries, end, hi);
        assert(canonical_node(first));
        assert forall|i: int| 0 <= i < forest(entries, lo, hi).len() implies canonical_node(
            #[trigger] forest(entries, lo, hi)[i],
        ) by {
            if i > 0 {
                assert(forest(entries, lo, hi)[i] == rest[i - 1]);
            }
        }
    }
}

/// The tree of a source text is written as the parser reads it.
pub proof fn lemma_parsed_tree_canonical(source: Seq<char>)
    ensures
        parse_outcome(source) matches Ok(tree) ==> canonical(tree),
{
    let lines = logical_lines(source);
    lemma_logical_lines_hold_text(source, 0);
    lemma_read_lines_canonical(lines, lines.len() as int);
    if let Ok(entries) = entries_of(lines) {
        lemma_forest_canonical(entries, 0, entries.len() as int);
    }
}

/// The tree of a source text can always be rendered.
pub proof fn lemma_parsed_tree_renders(source: Seq<char>)
    ensures
        parse_outcome(source) matches Ok(tree) ==> renderable(tree),
{
    lemma_parsed_tree_canonical(source);
    if let Ok(tree) = parse_outcome(source) {
        lemma_canonical_renders(tree);
    }
}

/// Where the tree of a source text holds no function or class definition,
/// annotating the text gives the text of the tree as it was parsed, whatever
/// the decorator is.
pub proof fn lemma_annotate_without_definitions(source: Seq<char>, decorator: Seq<char>)
    requires
        parse_outcome(source) matches Ok(tree) && forall|inner: NodeView|
            preorder(tree).contains(inner) ==> !inner.kind.is_definition(),
    ensures
        parse_outcome(source) matches Ok(tree) && annotate_outcome(source, decorator) == Ok::<
            Seq<char>,
            AnnotateError,
        >(render_text(tree)),
{
    let tree = parse_outcome(source)->Ok_0;
    lemma_no_definition_no_change(tree, decorator);
    lemma_parsed_tree_renders(source);
}

/// A decorator line that is rendered is read as that decorator.
pub proof fn lemma_decorator_line_reads(name: Seq<char>)
    requires
        is_decorator_text(name),
    ensures
        is_content(seq!['@'] + name),
        classify(seq!['@'] + name) == Ok::<HeaderView, ParseError>(HeaderView::Decorator(name)),
{
    let s = seq!['@'] + name;
    let n = s.len() as int;
    assert(s[0] == '@');
    assert(s[1] == name[0]);
    assert(s.last() == name.last());
    assert forall|i: int| 0 <= i < n implies s[i] != '\n' by {
        if i > 0 {
            assert(s[i] == name[i - 1]);
        }
    }
    lemma_skip_blanks_is(s, 1, 1, n);
    assert(s.subrange(1, n) =~= name);
}

/// The name and the signature of a rendered definition are read as they
/// are, behind a keyword that ends with a space.
proof fn lemma_definition_reads(keyword: Seq<char>, d: DefinitionView)
    requires
        canonical_definition(d),
        keyword.len() > 0,
        keyword.last() == ' ',
        forall|i: int| 0 <= i < keyword.len() ==> keyword[i] != '\n',
    ensures
        definition_at(keyword + d.name + d.signature, keyword.len() - 1) == Ok::<
            DefinitionView,
            ParseError,
        >(d.with_decorators(Seq::empty())),
        forall|i: int|
            0 <= i < (keyword + d.name + d.signature).len() ==> (keyword + d.name
                + d.signature)[i] != '\n',
        !is_blank((keyword + d.name + d.signature).last()),
{
    let s = keyword + d.name + d.signature;
    let n = s.len() as int;
    let k = keyword.len() as int;
    let e = k + d.name.len();
    assert(s[k - 1] == keyword[k - 1]);
    assert(s[k] == d.name[0]);
    assert(is_name_char(d.name[0]));
    lemma_skip_blanks_is(s, k - 1, k, n);
    assert forall|i: int| k <= i < e implies is_name_char(s[i]) by {
        assert(s[i] == d.name[i - k]);
    }
    if e < n {
        assert(s[e] == d.signature[0]);
    }
    lemma_name_end_is(s, k, e);
    assert(s.subrange(k, e) =~= d.name);
    assert(s.subrange(e, n) =~= d.signature);
    assert forall|i: int| 0 <= i < n implies s[i] != '\n' by {
        if i < k {
            assert(s[i] == keyword[i]);
        } else if i < e {
            assert(s[i] == d.name[i - k]);
            assert(is_name_char(d.name[i - k]));
        } else {
            assert(s[i] == d.signature[i - e]);
        }
    }
    if d.signature.len() > 0 {
        assert(s.last() == d.signature.last());
    } else {
        assert(s.last() == d.name.last());
        assert(is_name_char(d.name[d.name.len() - 1]));
    }
}

/// A header line that is rendered is read as the statement it was rendered
/// from, without its decorators.
pub proof fn lemma_header_reads(kind: KindView)
    requires
        canonical_kind(kind),
    ensures
        is_content(header_text(kind)),
        classify(header_text(kind)) == Ok::<HeaderView, ParseError>(
            HeaderView::Statement(kind.with_decorators(Seq::empty())),
        ),
{
    let s = header_text(kind);
    let n = s.len() as int;
    match kind {
        KindView::FunctionDef(d) => {
            let keyword = def_keyword();
            lemma_definition_reads(keyword, d);
            assert(s[0] == keyword[0] && s[3] == keyword[3]);
            assert(s.subrange(0, 3) =~= def_word());
        },
        KindView::AsyncFunctionDef(d) => {
            let keyword = async_def_keyword();
            lemma_definition_reads(keyword, d);
            assert(s[0] == keyword[0]);
            assert(s[5] == keyword[5] && s[6] == keyword[6] && s[9] == keyword[9]);
            assert(s.subrange(0, 3)[0] != def_word()[0]);
            assert(s.subrange(0, 5) =~= async_word());
            lemma_skip_blanks_is(s, 5, 6, n);
            assert(s.subrange(6, 9) =~= def_word()) by {
                assert(s[6] == keyword[6] && s[7] == keyword[7] && s[8] == keyword[8]);
            }
        },
        KindView::ClassDef(d) => {
            let keyword = class_keyword();
            lemma_definition_reads(keyword, d);
            assert(s[0] == keyword[0] && s[5] == keyword[5]);
            assert(s.subrange(0, 3)[0] != def_word()[0]);
            assert(s.subrange(0, 5)[0] != async_word()[0]);
            assert(s.subrange(0, 5) =~= class_word());
        },
        KindView::Other(text) => {},
    }
}

/// The decorator lines of a definition, as logical lines.
pub open spec fn decorator_line_views(list: Seq<Seq<char>>, indent: nat) -> Seq<LineView> {
    Seq::new(list.len(), |i: int| LineView { indent, content: seq!['@'] + list[i] })
}

/// The logical lines that a node is rendered as.
pub open spec fn node_lines(node: NodeView, indent: nat) -> Seq<LineView>
    decreases node,
{
    decorator_line_views(decorators_of(node.kind), indent) + seq![
        LineView { indent, content: header_text(node.kind) },
    ] + nodes_lines(node.body, indent + 4)
}

/// The logical lines that a sequence of nodes is rendered as.
pub open spec fn nodes_lines(nodes: Seq<NodeView>, indent: nat) -> Seq<LineView>
    decreases nodes,
{
    if nodes.len() == 0 {
        Seq::empty()
    } else {
        nodes_lines(nodes.drop_last(), indent) + node_lines(nodes.last(), indent)
    }
}

/// Whether a text holds nothing but blanks.
pub open spec fn is_blanks(text: Seq<char>) -> bool {
    forall|i: int| 0 <= i < text.len() ==> is_blank(#[trigger] text[i])
}

/// The rendered decorator lines of a definition are read as its decorator
/// lines.
proof fn lemma_decorator_lines_read(list: Seq<Seq<char>>, indent: Seq<char>)
    requires
        is_blanks(indent),
        forall|i: int| 0 <= i < list.len() ==> is_decorator_text(#[trigger] list[i]),
    ensures
        ends_lines(decorator_lines(list, indent)),
        logical_lines(decorator_lines(list, indent)) == decorator_line_views(list, indent.len()),
    decreases list.len(),
{
    if list.len() == 0 {
        assert(logical_lines(decorator_lines(list, indent)) =~= decorator_line_views(
            list,
            indent.len(),
        ));
    } else {
        let init = list.drop_last();
        let front = decorator_lines(init, indent);
        let content = seq!['@'] + list.last();
        let line = indent + content + seq!['\n'];
        lemma_decorator_lines_read(init, indent);
        lemma_decorator_line_reads(list.last());
        lemma_one_line(indent, content);
        assert(decorator_lines(list, indent) =~= front + line);
        lemma_lines_of_concat(front, line);
        assert(logical_lines(front + line) =~= decorator_line_views(list, indent.len()));
    }
}

/// The rendered text of a node is read as the lines of the node.
pub proof fn lemma_node_text_lines(node: NodeView, indent: Seq<char>)
    requires
        canonical_node(node),
        is_blanks(indent),
    ensures
        ends_lines(render_node(node, indent)),
        logical_lines(render_node(node, indent)) == node_lines(node, indent.len()),
    decreases node,
{
    let decorators = decorator_lines(decorators_of(node.kind), indent);
    let header = indent + header_text(node.kind) + seq!['\n'];
    let body = render_all(node.body, indent + indent_step());
    assert(is_blanks(indent + indent_step())) by {
        assert forall|i: int| 0 <= i < (indent + indent_step()).len() implies is_blank(
            #[trigger] (indent + indent_step())[i],
        ) by {
            if i < indent.len() {
                assert((indent + indent_step())[i] == indent[i]);
            } else {
                assert((indent + indent_step())[i] == indent_step()[i - indent.len()]);
            }
        }
    }
    lemma_decorator_lines_read(decorators_of(node.kind), indent);
    lemma_header_reads(node.kind);
    lemma_one_line(indent, header_text(node.kind));
    lemma_nodes_text_lines(node.body, indent + indent_step());
    assert(render_node(node, indent) =~= decorators + (header + body));
    lemma_lines_of_concat(decorators, header + body);
    lemma_lines_of_concat(header, body);
    assert((indent + indent_step()).len() == indent.len() + 4);
    assert(ends_lines(render_node(node, indent))) by {
        if body.len() == 0 {
            assert(render_node(node, indent) =~= decorators + header);
        } else {
            assert(render_node(node, indent).last() == body.last());
        }
    }
}

/// The rendered text of a sequence of nodes is read as the lines of the
/// nodes.
pub proof fn lemma_nodes_text_lines(nodes: Seq<NodeView>, indent: Seq<char>)
    requires
        forall|i: int| 0 <= i < nodes.len() ==> canonical_node(#[trigger] nodes[i]),
        is_blanks(indent),
    ensures
        ends_lines(render_all(nodes, indent)),
        logical_lines(render_all(nodes, indent)) == nodes_lines(nodes, indent.len()),
    decreases nodes,
{
    if nodes.len() == 0 {
        assert(logical_lines(render_all(nodes, indent)) =~= nodes_lines(nodes, indent.len()));
    } else {
        let init = nodes.drop_last();
        assert forall|i: int| 0 <= i < init.len() implies canonical_node(#[trigger] init[i]) by {
            assert(init[i] == nodes[i]);
        }
        lemma_nodes_text_lines(init, indent);
        lemma_node_text_lines(nodes.last(), indent);
        lemma_lines_of_concat(render_all(init, indent), render_node(nodes.last(), indent));
        let whole = render_all(nodes, indent);
        let back = render_node(nodes.last(), indent);
        assert(ends_lines(whole)) by {
            if back.len() == 0 {
                assert(whole =~= render_all(init, indent));
            } else {
                assert(whole.last() == back.last());
            }
        }
    }
}

/// Reading a run of lines from a given state on.
pub open spec fn read_from(state: ReaderView, lines: Seq<LineView>) -> Result<
    ReaderView,
    ParseError,
>
    decreases lines.len(),
{
    if lines.len() == 0 {
        Ok(state)
    } else {
        match read_from(state, lines.drop_last()) {
            Err(e) => Err(e),
            Ok(before) => read_line(before, lines.last()),
        }
    }
}

/// The state at the start of a text.
pub open spec fn start_state() -> ReaderView {
    ReaderView { entries: Seq::empty(), pending: Seq::empty(), open: Seq::empty() }
}

/// Reading the first `n` lines of a text is reading them from the start
/// state on.
pub proof fn lemma_read_lines_is_read_from(lines: Seq<LineView>, n: int)
    requires
        0 <= n <= lines.len(),
    ensures
        read_lines(lines, n) == read_from(start_state(), lines.take(n)),
    decreases n,
{
    if n > 0 {
        lemma_read_lines_is_read_from(lines, n - 1);
        assert(lines.take(n).drop_last() =~= lines.take(n - 1));
        assert(lines.take(n).last() == lines[n - 1]);
    }
}

/// Reading two runs of lines, one after the other, is reading the second
/// from the state that the first leaves.
pub proof fn lemma_read_from_concat(state: ReaderView, a: Seq<LineView>, b: Seq<LineView>)
    ensures
        read_from(state, a + b) == match read_from(state, a) {
            Err(e) => Err(e),
            Ok(middle) => read_from(middle, b),
        },
    decreases b.len(),
{
    if b.len() == 0 {
        assert(a + b =~= a);
    } else {
        assert((a + b).drop_last() =~= a + b.drop_last());
        assert((a + b).last() == b.last());
        lemma_read_from_concat(state, a, b.drop_last());
    }
}

/// Reading a run of one line is reading that line.
proof fn lemma_read_one(state: ReaderView, line: LineView)
    ensures
        read_from(state, seq![line]) == read_line(state, line),
{
    assert(seq![line].drop_last() =~= Seq::<LineView>::empty());
    assert(read_from(state, seq![line].drop_last()) == Ok::<ReaderView, ParseError>(state));
    assert(seq![line].last() == line);
}

/// The statements that a node is read as: the node, then what is nested in
/// it.
pub open spec fn node_entries(node: NodeView, indent: nat) -> Seq<EntryView>
    decreases node,
{
    seq![EntryView { indent, kind: node.kind }] + nodes_entries(node.body, indent + 4)
}

/// The statements that a sequence of nodes is read as.
pub open spec fn nodes_entries(nodes: Seq<NodeView>, indent: nat) -> Seq<EntryView>
    decreases nodes,
{
    if nodes.len() == 0 {
        Seq::empty()
    } else {
        nodes_entries(nodes.drop_last(), indent) + node_entries(nodes.last(), indent)
    }
}

/// Closing blocks down to an indentation can be done in two steps.
pub proof fn lemma_unwind_twice(open: Seq<nat>, low: nat, high: nat)
    requires
        low <= high,
    ensures
        unwind(unwind(open, high), low) == unwind(open, low),
    decreases open.len(),
{
    if open.len() > 0 && open.last() > high {
        lemma_unwind_twice(open.drop_last(), low, high);
    }
}

/// Where closing blocks down to `indent` leaves `base` and a block at
/// `indent`, a line at `indent` is placed in that block.
pub proof fn lemma_place_after_unwind(open: Seq<nat>, base: Seq<nat>, indent: nat)
    requires
        unwind(open, indent) == base.push(indent),
    ensures
        place(open, indent) == Ok::<Seq<nat>, ParseError>(base.push(indent)),
{
    assert(base.push(indent).last() == indent);
    if open.len() == 0 {
        assert(unwind(open, indent).len() == 0);
    }
}

/// Reading the decorator lines of a definition leaves its decorators
/// waiting, in a block at the indentation of the definition.
proof fn lemma_read_decorators(state: ReaderView, list: Seq<Seq<char>>, indent: nat, base: Seq<nat>)
    requires
        list.len() > 0,
        forall|i: int| 0 <= i < list.len() ==> is_decorator_text(#[trigger] list[i]),
        state.pending.len() == 0,
        place(state.open, indent) == Ok::<Seq<nat>, ParseError>(base.push(indent)),
    ensures
        read_from(state, decorator_line_views(list, indent)) == Ok::<ReaderView, ParseError>(
            ReaderView { entries: state.entries, pending: list, open: base.push(indent) },
        ),
    decreases list.len(),
{
    let lines = decorator_line_views(list, indent);
    let init = list.drop_last();
    assert(lines.drop_last() =~= decorator_line_views(init, indent));
    assert(lines.last() == LineView { indent, content: seq!['@'] + list.last() });
    lemma_decorator_line_reads(list.last());
    assert(base.push(indent).last() == indent);
    if init.len() == 0 {
        assert(read_from(state, lines.drop_last()) == Ok::<ReaderView, ParseError>(state));
        assert(seq![list.last()] =~= list);
    } else {
        lemma_read_decorators(state, init, indent, base);
        assert(init.push(list.last()) =~= list);
    }
}

/// Reading the lines of a node adds the statements of the node, and leaves
/// the block of the node open.
pub proof fn lemma_read_node(state: ReaderView, node: NodeView, indent: nat, base: Seq<nat>)
    requires
        canonical_node(node),
        state.pending.len() == 0,
        place(state.open, indent) == Ok::<Seq<nat>, ParseError>(base.push(indent)),
    ensures
        read_from(state, node_lines(node, indent)) matches Ok(after) && {
            &&& after.entries == state.entries + node_entries(node, indent)
            &&& after.pending.len() == 0
            &&& unwind(after.open, indent) == base.push(indent)
        },
    decreases node,
{
    let list = decorators_of(node.kind);
    let above = decorator_line_views(list, indent);
    let header = LineView { indent, content: header_text(node.kind) };
    let below = nodes_lines(node.body, indent + 4);
    let block = base.push(indent);
    assert(block.last() == indent);
    lemma_header_reads(node.kind);
    let plain = node.kind.with_decorators(Seq::empty());
    let entry = EntryView { indent, kind: node.kind };
    let headed = ReaderView {
        entries: state.entries.push(entry),
        pending: Seq::empty(),
        open: block,
    };
    if list.len() > 0 {
        lemma_read_decorators(state, list, indent, base);
        let waiting = ReaderView { entries: state.entries, pending: list, open: block };
        assert(plain.with_decorators(list) == node.kind);
        assert(read_line(waiting, header) == Ok::<ReaderView, ParseError>(headed));
    } else {
        assert(above =~= Seq::<LineView>::empty());
        assert(read_from(state, above) == Ok::<ReaderView, ParseError>(state));
        assert(plain == node.kind) by {
            match node.kind {
                KindView::FunctionDef(d) => {
                    assert(d.decorator_list =~= Seq::<Seq<char>>::empty());
                },
                KindView::AsyncFunctionDef(d) => {
                    assert(d.decorator_list =~= Seq::<Seq<char>>::empty());
                },
                KindView::ClassDef(d) => {
                    assert(d.decorator_list =~= Seq::<Seq<char>>::empty());
                },
                KindView::Other(_) => {},
            }
        }
        assert(read_line(state, header) == Ok::<ReaderView, ParseError>(headed));
    }
    lemma_read_from_concat(state, above, seq![header]);
    if list.len() > 0 {
        lemma_read_one(
            ReaderView { entries: state.entries, pending: list, open: block },
            header,
        );
    } else {
        lemma_read_one(state, header);
    }
    assert(read_from(state, above + seq![header]) == Ok::<ReaderView, ParseError>(headed));
    lemma_read_from_concat(state, above + seq![header], below);
    assert(place(block, indent + 4) == Ok::<Seq<nat>, ParseError>(block.push(indent + 4)));
    lemma_read_nodes(headed, node.body, indent + 4, block);
    let after = read_from(headed, below)->Ok_0;
    assert(after.entries =~= state.entries + node_entries(node, indent));
    if node.body.len() > 0 {
        lemma_unwind_twice(after.open, indent, indent + 4);
        assert(block.push(indent + 4).drop_last() =~= block);
    }
}

/// Reading the lines of a sequence of nodes adds the statements of the
/// nodes, and leaves the block of the nodes open.
pub proof fn lemma_read_nodes(
    state: ReaderView,
    nodes: Seq<NodeView>,
    indent: nat,
    base: Seq<nat>,
)
    requires
        forall|i: int| 0 <= i < nodes.len() ==> canonical_node(#[trigger] nodes[i]),
        state.pending.len() == 0,
        nodes.len() > 0 ==> place(state.open, indent) == Ok::<Seq<nat>, ParseError>(
            base.push(indent),
        ),
    ensures
        read_from(state, nodes_lines(nodes, indent)) matches Ok(after) && {
            &&& after.entries == state.entries + nodes_entries(nodes, indent)
            &&& after.pending.len() == 0
            &&& nodes.len() > 0 ==> unwind(after.open, indent) == base.push(indent)
            &&& nodes.len() == 0 ==> after == state
        },
    decreases nodes,
{
    if nodes.len() == 0 {
        assert(state.entries + nodes_entries(nodes, indent) =~= state.entries);
    } else {
        let init = nodes.drop_last();
        assert forall|i: int| 0 <= i < init.len() implies canonical_node(#[trigger] init[i]) by {
            assert(init[i] == nodes[i]);
        }
        lemma_read_nodes(state, init, indent, base);
        let middle = read_from(state, nodes_lines(init, indent))->Ok_0;
        if init.len() > 0 {
            lemma_place_after_unwind(middle.open, base, indent);
        }
        lemma_read_node(middle, nodes.last(), indent, base);
        lemma_read_from_concat(state, nodes_lines(init, indent), node_lines(nodes.last(), indent));
        let after = read_from(middle, node_lines(nodes.last(), indent))->Ok_0;
        assert(after.entries =~= state.entries + nodes_entries(nodes, indent));
    }
}

/// A run of deeper statements ends at `e` where only deeper statements
/// stand before `e` and none stands at `e`.
pub proof fn lemma_deeper_end_is(entries: Seq<EntryView>, indent: nat, from: int, e: int, hi: int)
    requires
        from <= e <= hi,
        forall|i: int| from <= i < e ==> entries[i].indent > indent,
        e == hi || entries[e].indent <= indent,
    ensures
        deeper_end(entries, indent, from, hi) == e,
    decreases e - from,
{
    if from < e {
        lemma_deeper_end_is(entries, indent, from + 1, e, hi);
    }
}

/// The nodes of a run of statements at one indentation can be built in two
/// parts, cut before a statement at that indentation.
pub proof fn lemma_forest_split(entries: Seq<EntryView>, lo: int, mid: int, hi: int, indent: nat)
    requires
        0 <= lo <= mid < hi <= entries.len(),
        forall|i: int| lo <= i < hi ==> entries[i].indent >= indent,
        entries[mid].indent == indent,
        lo < mid ==> entries[lo].indent == indent,
    ensures
        forest(entries, lo, hi) == forest(entries, lo, mid) + forest(entries, mid, hi),
    decreases mid - lo,
{
    if lo == mid {
        assert(forest(entries, lo, mid) + forest(entries, mid, hi) =~= forest(entries, lo, hi));
    } else {
        lemma_deeper_end_bounds(entries, indent, lo + 1, mid);
        let e = deeper_end(entries, indent, lo + 1, mid);
        lemma_deeper_end_is(entries, indent, lo + 1, e, hi);
        lemma_forest_split(entries, e, mid, hi, indent);
        let first = NodeView { kind: entries[lo].kind, body: forest(entries, lo + 1, e) };
        assert(forest(entries, lo, hi) =~= seq![first] + (forest(entries, e, mid) + forest(
            entries,
            mid,
            hi,
        )));
        assert(forest(entries, lo, hi) =~= forest(entries, lo, mid) + forest(entries, mid, hi));
    }
}

/// The statements of a node stand at its indentation or deeper, the node
/// first.
pub proof fn lemma_node_entries_indents(node: NodeView, indent: nat)
    ensures
        node_entries(node, indent).len() > 0,
        node_entries(node, indent)[0] == (EntryView { indent, kind: node.kind }),
        forall|i: int|
            0 < i < node_entries(node, indent).len() ==> (#[trigger] node_entries(
                node,
                indent,
            )[i]).indent > indent,
    decreases node,
{
    lemma_nodes_entries_indents(node.body, indent + 4);
    assert forall|i: int| 0 < i < node_entries(node, indent).len() implies (#[trigger] node_entries(
        node,
        indent,
    )[i]).indent > indent by {
        assert(node_entries(node, indent)[i] == nodes_entries(node.body, indent + 4)[i - 1]);
    }
}

/// The statements of a sequence of nodes stand at its indentation or
/// deeper, the first at its indentation.
pub proof fn lemma_nodes_entries_indents(nodes: Seq<NodeView>, indent: nat)
    ensures
        nodes.len() > 0 ==> nodes_entries(nodes, indent).len() > 0 && nodes_entries(
            nodes,
            indent,
        )[0].indent == indent,
        forall|i: int|
            0 <= i < nodes_entries(nodes, indent).len() ==> (#[trigger] nodes_entries(
                nodes,
                indent,
            )[i]).indent >= indent,
    decreases nodes,
{
    if nodes.len() > 0 {
        let front = nodes_entries(nodes.drop_last(), indent);
        let back = node_entries(nodes.last(), indent);
        lemma_nodes_entries_indents(nodes.drop_last(), indent);
        lemma_node_entries_indents(nodes.last(), indent);
        assert forall|i: int| 0 <= i < nodes_entries(nodes, indent).len() implies (
        #[trigger] nodes_entries(nodes, indent)[i]).indent >= indent by {
            if i < front.len() {
                assert(nodes_entries(nodes, indent)[i] == front[i]);
            } else {
                assert(nodes_entries(nodes, indent)[i] == back[i - front.len()]);
            }
        }
        if nodes.drop_last().len() > 0 {
            assert(nodes_entries(nodes, indent)[0] == front[0]);
        } else {
            assert(nodes_entries(nodes, indent)[0] == back[0]);
        }
    }
}

/// Where the statements of a node stand in a run of statements, the node is
/// built from them.
pub proof fn lemma_forest_of_node(entries: Seq<EntryView>, lo: int, node: NodeView, indent: nat)
    requires
        0 <= lo,
        lo + node_entries(node, indent).len() <= entries.len(),
        entries.subrange(lo, lo + node_entries(node, indent).len()) == node_entries(node, indent),
    ensures
        forest(entries, lo, lo + node_entries(node, indent).len()) == seq![node],
    decreases node,
{
    let own = node_entries(node, indent);
    let hi = lo + own.len();
    let nested = nodes_entries(node.body, indent + 4);
    lemma_node_entries_indents(node, indent);
    assert forall|i: int| lo <= i < hi implies entries[i] == own[i - lo] by {
        assert(entries.subrange(lo, hi)[i - lo] == entries[i]);
    }
    assert(entries[lo] == own[0]);
    assert forall|i: int| lo + 1 <= i < hi implies entries[i].indent > indent by {
        assert(entries[i] == own[i - lo]);
    }
    lemma_deeper_end_is(entries, indent, lo + 1, hi, hi);
    assert(entries.subrange(lo + 1, hi) =~= nested) by {
        assert forall|i: int| 0 <= i < nested.len() implies entries.subrange(lo + 1, hi)[i]
            == nested[i] by {
            assert(entries[lo + 1 + i] == own[i + 1]);
        }
    }
    lemma_forest_of_nodes(entries, lo + 1, node.body, indent + 4);
    let built = NodeView { kind: entries[lo].kind, body: forest(entries, lo + 1, hi) };
    assert(hi == lo + 1 + nested.len());
    assert(built == node);
    assert(forest(entries, hi, hi) =~= Seq::<NodeView>::empty());
    assert(deeper_end(entries, entries[lo].indent, lo + 1, hi) == hi);
    assert(forest(entries, lo, hi) =~= seq![built] + forest(entries, hi, hi));
    assert(forest(entries, lo, hi) =~= seq![node]);
}

/// Where the statements of a sequence of nodes stand in a run of
/// statements, the nodes are built from them.
pub proof fn lemma_forest_of_nodes(
    entries: Seq<EntryView>,
    lo: int,
    nodes: Seq<NodeView>,
    indent: nat,
)
    requires
        0 <= lo,
        lo + nodes_entries(nodes, indent).len() <= entries.len(),
        entries.subrange(lo, lo + nodes_entries(nodes, indent).len()) == nodes_entries(
            nodes,
            indent,
        ),
    ensures
        forest(entries, lo, lo + nodes_entries(nodes, indent).len()) == nodes,
    decreases nodes,
{
    let all = nodes_entries(nodes, indent);
    let hi = lo + all.len();
    if nodes.len() == 0 {
        assert(forest(entries, lo, hi) =~= nodes);
    } else {
        let init = nodes.drop_last();
        let front = nodes_entries(init, indent);
        let back = node_entries(nodes.last(), indent);
        let mid = lo + front.len();
        lemma_nodes_entries_indents(nodes, indent);
        lemma_nodes_entries_indents(init, indent);
        lemma_node_entries_indents(nodes.last(), indent);
        assert forall|i: int| lo <= i < hi implies entries[i] == all[i - lo] by {
            assert(entries.subrange(lo, hi)[i - lo] == entries[i]);
        }
        assert(entries.subrange(lo, mid) =~= front) by {
            assert forall|i: int| 0 <= i < front.len() implies entries.subrange(lo, mid)[i]
                == front[i] by {
                assert(entries[lo + i] == all[i]);
                assert(all[i] == front[i]);
            }
        }
        assert(entries.subrange(mid, hi) =~= back) by {
            assert forall|i: int| 0 <= i < back.len() implies entries.subrange(mid, hi)[i]
                == back[i] by {
                assert(entries[mid + i] == all[front.len() + i]);
                assert(all[front.len() + i] == back[i]);
            }
        }
        lemma_forest_of_nodes(entries, lo, init, indent);
        lemma_forest_of_node(entries, mid, nodes.last(), indent);
        assert(entries[mid] == back[0]);
        if lo < mid {
            assert(entries[lo] == front[0]);
        }
        lemma_forest_split(entries, lo, mid, hi, indent);
        assert(init + seq![nodes.last()] =~= nodes);
    }
}

/// Parsing the rendered text of a tree gives the tree back, where the tree
/// is written as the parser reads it.
pub proof fn lemma_render_then_parse(tree: NodeView)
    requires
        canonical(tree),
    ensures
        renderable(tree),
        parse_outcome(render_text(tree)) == Ok::<NodeView, ParseError>(tree),
{
    lemma_canonical_renders(tree);
    let text = render_text(tree);
    let none = Seq::<char>::empty();
    lemma_nodes_text_lines(tree.body, none);
    let lines = logical_lines(text);
    assert(lines == nodes_lines(tree.body, 0));
    lemma_read_lines_is_read_from(lines, lines.len() as int);
    assert(lines.take(lines.len() as int) =~= lines);
    let base = Seq::<nat>::empty();
    assert(base.push(0) =~= seq![0nat]);
    lemma_read_nodes(start_state(), tree.body, 0, base);
    let after = read_from(start_state(), lines)->Ok_0;
    let entries = nodes_entries(tree.body, 0);
    assert(after.entries =~= entries);
    assert(entries.subrange(0, entries.len() as int) =~= entries);
    lemma_forest_of_nodes(entries, 0, tree.body, 0);
}

/// The tree of a source text is parsed again from its rendered text.
pub proof fn lemma_parse_render_parse(source: Seq<char>)
    ensures
        parse_outcome(source) matches Ok(tree) ==> parse_outcome(render_text(tree)) == Ok::<
            NodeView,
            ParseError,
        >(tree),
{
    lemma_parsed_tree_canonical(source);
    if let Ok(tree) = parse_outcome(source) {
        lemma_render_then_parse(tree);
    }
}

/// Injecting a decorator that can stand behind an `@` keeps a tree written
/// as the parser reads it.
pub proof fn lemma_decorate_keeps_canonical_node(node: NodeView, name: Seq<char>)
    requires
        canonical_node(node),
        is_decorator_text(name),
    ensures
        canonical_node(decorate(node, name)),
    decreases node,
{
    let after = decorate(node, name);
    match node.kind {
        KindView::FunctionDef(d) => lemma_decorated_list(d.decorator_list, name),
        KindView::AsyncFunctionDef(d) => lemma_decorated_list(d.decorator_list, name),
        KindView::ClassDef(d) => lemma_decorated_list(d.decorator_list, name),
        KindView::Other(_) => {},
    }
    assert(canonical_kind(after.kind));
    assert forall|i: int| 0 <= i < after.body.len() implies canonical_node(
        #[trigger] after.body[i],
    ) by {
        lemma_decorate_keeps_canonical_node(node.body[i], name);
    }
}

/// A decorator list stays writable when a writable name is put in front.
proof fn lemma_decorated_list(list: Seq<Seq<char>>, name: Seq<char>)
    requires
        is_decorator_text(name),
        forall|i: int| 0 <= i < list.len() ==> is_decorator_text(#[trigger] list[i]),
    ensures
        forall|i: int|
            0 <= i < (seq![name] + list).len() ==> is_decorator_text(
                #[trigger] (seq![name] + list)[i],
            ),
{
    assert forall|i: int| 0 <= i < (seq![name] + list).len() implies is_decorator_text(
        #[trigger] (seq![name] + list)[i],
    ) by {
        if i > 0 {
            assert((seq![name] + list)[i] == list[i - 1]);
        }
    }
}

/// Annotating a source text with a decorator that can stand behind an `@`
/// gives a text whose tree is the tree of the source with the decorator
/// injected. A source text without a tree is refused with its parse error.
pub proof fn lemma_annotate_then_parse(source: Seq<char>, decorator: Seq<char>)
    requires
        is_decorator_text(decorator),
    ensures
        match parse_outcome(source) {
            Ok(tree) => annotate_outcome(source, decorator) matches Ok(text) && parse_outcome(text)
                == Ok::<NodeView, ParseError>(decorate(tree, decorator)),
            Err(e) => annotate_outcome(source, decorator) == Err::<Seq<char>, AnnotateError>(
                AnnotateError::Parse(e),
            ),
        },
{
    lemma_parsed_tree_canonical(source);
    if let Ok(tree) = parse_outcome(source) {
        let after = decorate(tree, decorator);
        assert forall|i: int| 0 <= i < after.body.len() implies canonical_node(
            #[trigger] after.body[i],
        ) by {
            lemma_decorate_keeps_canonical_node(tree.body[i], decorator);
        }
        assert(canonical(after));
        lemma_render_then_parse(after);
    }
}

} // verus!
