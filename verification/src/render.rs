//! From a syntax tree back to source text: one line per decorator and per
//! statement, nested statements four spaces deeper than what holds them.

use crate::text::{to_chars, to_string, views};
use crate::tree::{
    lemma_body_view, DecoratorReference, Definition, DefinitionView, KindView, NodeKind,
    NodeView, SyntaxNode, SyntaxTree,
};
use vstd::prelude::*;

verus! {

/// The tree cannot be written as text: its root is not a module, or one of
/// its texts is empty where a line needs one, or holds a line feed.
#[derive(Clone, Copy, Debug, PartialEq, Eq)]
pub struct RenderError {}

/// Whether `text` fits on one line.
pub open spec fn is_single_line(text: Seq<char>) -> bool {
    forall|i: int| 0 <= i < text.len() ==> #[trigger] text[i] != '\n'
}

/// Whether `text` fits on one line and is not empty.
pub open spec fn is_line_text(text: Seq<char>) -> bool {
    text.len() > 0 && is_single_line(text)
}

/// Whether every decorator of `list` can be written as a line.
pub open spec fn decorators_renderable(list: Seq<Seq<char>>) -> bool {
    forall|i: int| 0 <= i < list.len() ==> is_line_text(#[trigger] list[i])
}

/// Whether the lines of a definition can be written: it has a name, and
/// neither the name, the signature nor a decorator breaks its line.
pub open spec fn definition_renderable(d: DefinitionView) -> bool {
    &&& is_line_text(d.name)
    &&& is_single_line(d.signature)
    &&& decorators_renderable(d.decorator_list)
}

/// Whether the header of a node can be written: a definition needs a name,
/// any other statement its text, each decorator a name, and none of them may
/// hold a line feed.
pub open spec fn kind_renderable(kind: KindView) -> bool {
    match kind {
        KindView::FunctionDef(d) => definition_renderable(d),
        KindView::AsyncFunctionDef(d) => definition_renderable(d),
        KindView::ClassDef(d) => definition_renderable(d),
        KindView::Other(text) => is_line_text(text),
    }
}

/// Whether a node and every node nested in it can be written.
pub open spec fn node_renderable(node: NodeView) -> bool
    decreases node,
{
    &&& kind_renderable(node.kind)
    &&& forall|i: int| 0 <= i < node.body.len() ==> node_renderable(#[trigger] node.body[i])
}

/// Whether a tree can be written: its root is the module, a statement
/// without text, and every node below the root can be written.
pub open spec fn renderable(tree: NodeView) -> bool {
    &&& tree.kind == KindView::Other(Seq::<char>::empty())
    &&& forall|i: int| 0 <= i < tree.body.len() ==> node_renderable(#[trigger] tree.body[i])
}

/// One level of indentation.
pub open spec fn indent_step() -> Seq<char> {
    seq![' ', ' ', ' ', ' ']
}

/// `def` and the space behind it.
pub open spec fn def_keyword() -> Seq<char> {
    seq!['d', 'e', 'f', ' ']
}

/// `async def` and the space behind it.
pub open spec fn async_def_keyword() -> Seq<char> {
    seq!['a', 's', 'y', 'n', 'c', ' ', 'd', 'e', 'f', ' ']
}

/// `class` and the space behind it.
pub open spec fn class_keyword() -> Seq<char> {
    seq!['c', 'l', 'a', 's', 's', ' ']
}

/// The header line of a node, without indentation and line feed.
pub open spec fn header_text(kind: KindView) -> Seq<char> {
    match kind {
        KindView::FunctionDef(d) => def_keyword() + d.name + d.signature,
        KindView::AsyncFunctionDef(d) => async_def_keyword() + d.name + d.signature,
        KindView::ClassDef(d) => class_keyword() + d.name + d.signature,
        KindView::Other(text) => text,
    }
}

/// The decorator lines of a definition, outermost first.
pub open spec fn decorator_lines(list: Seq<Seq<char>>, indent: Seq<char>) -> Seq<char>
    decreases list.len(),
{
    if list.len() == 0 {
        Seq::empty()
    } else {
        decorator_lines(list.drop_last(), indent) + indent + seq!['@'] + list.last() + seq!['\n']
    }
}

/// The decorators of a kind; none for a statement that is no definition.
pub open spec fn decorators_of(kind: KindView) -> Seq<Seq<char>> {
    match kind.decorator_list() {
        Some(list) => list,
        None => Seq::empty(),
    }
}

/// The text of a node: its decorators, its header, then the nodes nested in
/// it, one level deeper.
pub open spec fn render_node(node: NodeView, indent: Seq<char>) -> Seq<char>
    decreases node,
{
    decorator_lines(decorators_of(node.kind), indent) + indent + header_text(node.kind)
        + seq!['\n'] + render_all(node.body, indent + indent_step())
}

/// The text of a sequence of nodes, one after the other.
pub open spec fn render_all(nodes: Seq<NodeView>, indent: Seq<char>) -> Seq<char>
    decreases nodes,
{
    if nodes.len() == 0 {
        Seq::empty()
    } else {
        render_all(nodes.drop_last(), indent) + render_node(nodes.last(), indent)
    }
}

/// The text of a tree: the statements of the module, not indented.
pub open spec fn render_text(tree: NodeView) -> Seq<char> {
    render_all(tree.body, Seq::empty())
}

/// What rendering gives: the text of a tree that can be written, an error
/// for any other.
pub open spec fn render_outcome(tree: NodeView) -> Result<Seq<char>, RenderError> {
    if renderable(tree) {
        Ok(render_text(tree))
    } else {
        Err(RenderError {  })
    }
}

/// Appends `text` to `out`.
fn append(out: &mut Vec<char>, text: &Vec<char>)
    ensures
        final(out)@ == old(out)@ + text@,
{
    let mut i: usize = 0;
    while i < text.len()
        invariant
            i <= text.len(),
            out@ == old(out)@ + text@.take(i as int),
        decreases text.len() - i,
    {
        out.push(text[i]);
        assert(out@ =~= old(out)@ + text@.take(i + 1));
        i += 1;
    }
    assert(text@.take(text.len() as int) =~= text@);
}

/// Appends the characters of `text` to `out`.
fn append_str(out: &mut Vec<char>, text: &str)
    ensures
        final(out)@ == old(out)@ + text@,
{
    let chars = to_chars(text);
    append(out, &chars);
}

/// Whether `text` holds no line feed.
fn single_line(text: &str) -> (r: bool)
    ensures
        r == is_single_line(text@),
{
    let chars = to_chars(text);
    let mut i: usize = 0;
    while i < chars.len()
        invariant
            i <= chars.len(),
            chars@ == text@,
            forall|j: int| 0 <= j < i ==> #[trigger] text@[j] != '\n',
        decreases chars.len() - i,
    {
        if chars[i] == '\n' {
            return false;
        }
        i += 1;
    }
    true
}

/// Whether `text` is not empty and holds no line feed.
fn line_text(text: &str) -> (r: bool)
    ensures
        r == is_line_text(text@),
{
    let chars = to_chars(text);
    chars.len() > 0 && single_line(text)
}

/// Whether the lines of a definition can be written.
fn check_definition(d: &Definition) -> (r: bool)
    ensures
        r == definition_renderable(d@),
{
    if !line_text(d.name.as_str()) || !single_line(d.signature.as_str()) {
        return false;
    }
    let mut i: usize = 0;
    while i < d.decorator_list.len()
        invariant
            i <= d.decorator_list.len(),
            forall|j: int| 0 <= j < i ==> is_line_text(#[trigger] d@.decorator_list[j]),
        decreases d.decorator_list.len() - i,
    {
        if !line_text(d.decorator_list[i].name.as_str()) {
            assert(!is_line_text(d@.decorator_list[i as int]));
            return false;
        }
        i += 1;
    }
    true
}

/// Whether the header of a node can be written.
fn check_kind(kind: &NodeKind) -> (r: bool)
    ensures
        r == kind_renderable(kind@),
{
    match kind {
        NodeKind::FunctionDef(d) => check_definition(d),
        NodeKind::AsyncFunctionDef(d) => check_definition(d),
        NodeKind::ClassDef(d) => check_definition(d),
        NodeKind::Other(text) => line_text(text.as_str()),
    }
}

/// Whether each of the nodes can be written.
fn check_nodes(nodes: &Vec<SyntaxNode>) -> (r: bool)
    ensures
        r == (forall|i: int| 0 <= i < nodes.len() ==> node_renderable(#[trigger] views(nodes@)[i])),
    decreases nodes,
{
    let mut i: usize = 0;
    while i < nodes.len()
        invariant
            i <= nodes.len(),
            forall|j: int| 0 <= j < i ==> node_renderable(#[trigger] views(nodes@)[j]),
        decreases nodes.len() - i,
    {
        if !check_node(&nodes[i]) {
            assert(!node_renderable(views(nodes@)[i as int]));
            return false;
        }
        i += 1;
    }
    true
}

/// Whether a node and every node nested in it can be written.
fn check_node(node: &SyntaxNode) -> (r: bool)
    ensures
        r == node_renderable(node@),
    decreases node,
{
    proof {
        lemma_body_view(*node);
    }
    check_kind(&node.kind) && check_nodes(&node.body)
}

/// Whether the tree can be rendered.
pub fn is_renderable(tree: &SyntaxTree) -> (r: bool)
    ensures
        r == renderable(tree@),
{
    proof {
        lemma_body_view(tree.root);
    }
    match &tree.root.kind {
        NodeKind::Other(text) => {
            let chars = to_chars(text.as_str());
            assert(chars@.len() == 0 ==> text@ =~= Seq::<char>::empty());
            chars.len() == 0 && check_nodes(&tree.root.body)
        },
        _ => false,
    }
}

/// Writes the decorator lines of a definition.
fn write_decorators(out: &mut Vec<char>, list: &Vec<DecoratorReference>, indent: &Vec<char>)
    ensures
        final(out)@ == old(out)@ + decorator_lines(views(list@), indent@),
{
    let mut i: usize = 0;
    assert(views(list@).take(0) =~= Seq::empty());
    assert(old(out)@ + Seq::<char>::empty() =~= old(out)@);
    while i < list.len()
        invariant
            i <= list.len(),
            out@ == old(out)@ + decorator_lines(views(list@).take(i as int), indent@),
        decreases list.len() - i,
    {
        let ghost before = out@;
        append(out, indent);
        out.push('@');
        append_str(out, list[i].name.as_str());
        out.push('\n');
        assert(views(list@).take(i + 1).drop_last() =~= views(list@).take(i as int));
        assert(views(list@).take(i + 1).last() == list@[i as int]@);
        assert(out@ =~= before + indent@ + seq!['@'] + list@[i as int]@ + seq!['\n']);
        assert(out@ =~= old(out)@ + decorator_lines(views(list@).take(i + 1), indent@));
        i += 1;
    }
    assert(views(list@).take(list.len() as int) =~= views(list@));
}

/// Writes the decorator lines and the header line of a definition.
fn write_definition(out: &mut Vec<char>, keyword: &Vec<char>, d: &Definition, indent: &Vec<char>)
    ensures
        final(out)@ == old(out)@ + decorator_lines(d@.decorator_list, indent@) + indent@
            + keyword@ + d@.name + d@.signature + seq!['\n'],
{
    write_decorators(out, &d.decorator_list, indent);
    append(out, indent);
    append(out, keyword);
    append_str(out, d.name.as_str());
    append_str(out, d.signature.as_str());
    out.push('\n');
    assert(out@ =~= old(out)@ + decorator_lines(d@.decorator_list, indent@) + indent@ + keyword@
        + d@.name + d@.signature + seq!['\n']);
}

/// Writes the decorator lines and the header line of a node.
fn write_header(out: &mut Vec<char>, kind: &NodeKind, indent: &Vec<char>)
    ensures
        final(out)@ == old(out)@ + decorator_lines(decorators_of(kind@), indent@) + indent@
            + header_text(kind@) + seq!['\n'],
{
    match kind {
        NodeKind::FunctionDef(d) => {
            let keyword = vec!['d', 'e', 'f', ' '];
            assert(keyword@ =~= def_keyword());
            write_definition(out, &keyword, d, indent);
            assert(out@ =~= old(out)@ + decorator_lines(decorators_of(kind@), indent@) + indent@
                + header_text(kind@) + seq!['\n']);
        },
        NodeKind::AsyncFunctionDef(d) => {
            let keyword = vec!['a', 's', 'y', 'n', 'c', ' ', 'd', 'e', 'f', ' '];
            assert(keyword@ =~= async_def_keyword());
            write_definition(out, &keyword, d, indent);
            assert(out@ =~= old(out)@ + decorator_lines(decorators_of(kind@), indent@) + indent@
                + header_text(kind@) + seq!['\n']);
        },
        NodeKind::ClassDef(d) => {
            let keyword = vec!['c', 'l', 'a', 's', 's', ' '];
            assert(keyword@ =~= class_keyword());
            write_definition(out, &keyword, d, indent);
            assert(out@ =~= old(out)@ + decorator_lines(decorators_of(kind@), indent@) + indent@
                + header_text(kind@) + seq!['\n']);
        },
        NodeKind::Other(text) => {
            append(out, indent);
            append_str(out, text.as_str());
            out.push('\n');
            assert(decorator_lines(decorators_of(kind@), indent@) =~= Seq::empty());
            assert(out@ =~= old(out)@ + decorator_lines(decorators_of(kind@), indent@) + indent@
                + header_text(kind@) + seq!['\n']);
        },
    }
}

/// Writes the nodes one after the other.
fn write_nodes(out: &mut Vec<char>, nodes: &Vec<SyntaxNode>, indent: &Vec<char>)
    ensures
        final(out)@ == old(out)@ + render_all(views(nodes@), indent@),
    decreases nodes,
{
    let mut i: usize = 0;
    assert(views(nodes@).take(0) =~= Seq::empty());
    assert(old(out)@ + Seq::<char>::empty() =~= old(out)@);
    while i < nodes.len()
        invariant
            i <= nodes.len(),
            out@ == old(out)@ + render_all(views(nodes@).take(i as int), indent@),
        decreases nodes.len() - i,
    {
        let ghost before = out@;
        write_node(out, &nodes[i], indent);
        assert(views(nodes@).take(i + 1).drop_last() =~= views(nodes@).take(i as int));
        assert(views(nodes@).take(i + 1).last() == nodes@[i as int]@);
        assert(out@ =~= old(out)@ + render_all(views(nodes@).take(i + 1), indent@));
        i += 1;
    }
    assert(views(nodes@).take(nodes.len() as int) =~= views(nodes@));
}

/// Writes a node, then the nodes nested in it one level deeper.
fn write_node(out: &mut Vec<char>, node: &SyntaxNode, indent: &Vec<char>)
    ensures
        final(out)@ == old(out)@ + render_node(node@, indent@),
    decreases node,
{
    proof {
        lemma_body_view(*node);
    }
    write_header(out, &node.kind, indent);
    let mut deeper: Vec<char> = Vec::new();
    append(&mut deeper, indent);
    let step = vec![' ', ' ', ' ', ' '];
    assert(step@ =~= indent_step());
    append(&mut deeper, &step);
    assert(deeper@ =~= indent@ + indent_step());
    write_nodes(out, &node.body, &deeper);
    assert(out@ =~= old(out)@ + render_node(node@, indent@));
}

/// Renders a tree as source text. Definitions come out with their
/// decorators above them, outermost first; nesting comes out as four spaces
/// per level. A tree that cannot be written is an error, and nothing is
/// rendered of it.
pub fn render(tree: &SyntaxTree) -> (r: Result<String, RenderError>)
    ensures
        match r {
            Ok(text) => render_outcome(tree@) == Ok::<Seq<char>, RenderError>(text@),
            Err(e) => render_outcome(tree@) == Err::<Seq<char>, RenderError>(e),
        },
{
    if !is_renderable(tree) {
        return Err(RenderError {  });
    }
    proof {
        lemma_body_view(tree.root);
    }
    let mut out: Vec<char> = Vec::new();
    let indent: Vec<char> = Vec::new();
    write_nodes(&mut out, &tree.root.body, &indent);
    assert(out@ =~= render_text(tree@));
    assert(out@.subrange(0, out.len() as int) =~= out@);
    Ok(to_string(&out, 0, out.len()))
}

} // verus!
