//! The syntax tree: definitions, the statements around them, and the order
//! in which a walk visits them.

use crate::text::views;
use vstd::prelude::*;

verus! {

/// A decorator on a definition: its name, and nothing else.
#[derive(Clone, Debug, PartialEq, Eq)]
pub struct DecoratorReference {
    pub name: String,
}

/// What a function or class definition carries.
#[derive(Clone, Debug, PartialEq, Eq)]
pub struct Definition {
    /// The defined name.
    pub name: String,
    /// What follows the name on the header line, parameters and colon included.
    pub signature: String,
    /// The decorators, outermost first.
    pub decorator_list: Vec<DecoratorReference>,
}

/// The kind of a node. Only the three definition kinds carry a decorator
/// list; any other statement is kept as its text.
#[derive(Clone, Debug, PartialEq, Eq)]
pub enum NodeKind {
    FunctionDef(Definition),
    AsyncFunctionDef(Definition),
    ClassDef(Definition),
    Other(String),
}

/// A node and the nodes nested in it.
#[derive(Debug, PartialEq, Eq)]
pub struct SyntaxNode {
    pub kind: NodeKind,
    pub body: Vec<SyntaxNode>,
}

/// A syntax tree: the module, whose body holds the statements of the text.
#[derive(Debug, PartialEq, Eq)]
pub struct SyntaxTree {
    pub root: SyntaxNode,
}

/// What a definition is to the contracts: its texts as sequences of
/// characters.
pub struct DefinitionView {
    pub name: Seq<char>,
    pub signature: Seq<char>,
    pub decorator_list: Seq<Seq<char>>,
}

/// What a kind is to the contracts.
pub enum KindView {
    FunctionDef(DefinitionView),
    AsyncFunctionDef(DefinitionView),
    ClassDef(DefinitionView),
    Other(Seq<char>),
}

/// What a node is to the contracts: its kind, and the nodes nested in it.
pub struct NodeView {
    pub kind: KindView,
    pub body: Seq<NodeView>,
}

impl KindView {
    /// Whether this is one of the three definition kinds.
    pub open spec fn is_definition(self) -> bool {
        !(self is Other)
    }

    /// The decorators of a definition, outermost first; `None` for any other
    /// statement.
    pub open spec fn decorator_list(self) -> Option<Seq<Seq<char>>> {
        match self {
            KindView::FunctionDef(d) => Some(d.decorator_list),
            KindView::AsyncFunctionDef(d) => Some(d.decorator_list),
            KindView::ClassDef(d) => Some(d.decorator_list),
            KindView::Other(_) => None,
        }
    }

    /// This kind with the decorators of a definition replaced by `list`.
    /// Another statement has none, and stays as it is.
    pub open spec fn with_decorators(self, list: Seq<Seq<char>>) -> KindView {
        match self {
            KindView::FunctionDef(d) => KindView::FunctionDef(d.with_decorators(list)),
            KindView::AsyncFunctionDef(d) => KindView::AsyncFunctionDef(d.with_decorators(list)),
            KindView::ClassDef(d) => KindView::ClassDef(d.with_decorators(list)),
            KindView::Other(text) => KindView::Other(text),
        }
    }
}

impl DefinitionView {
    /// This definition with its decorators replaced by `list`.
    pub open spec fn with_decorators(self, list: Seq<Seq<char>>) -> DefinitionView {
        DefinitionView { name: self.name, signature: self.signature, decorator_list: list }
    }
}

impl View for DecoratorReference {
    type V = Seq<char>;

    open spec fn view(&self) -> Seq<char> {
        self.name@
    }
}

impl View for Definition {
    type V = DefinitionView;

    open spec fn view(&self) -> DefinitionView {
        DefinitionView {
            name: self.name@,
            signature: self.signature@,
            decorator_list: views(self.decorator_list@),
        }
    }
}

impl View for NodeKind {
    type V = KindView;

    open spec fn view(&self) -> KindView {
        match self {
            NodeKind::FunctionDef(d) => KindView::FunctionDef(d@),
            NodeKind::AsyncFunctionDef(d) => KindView::AsyncFunctionDef(d@),
            NodeKind::ClassDef(d) => KindView::ClassDef(d@),
            NodeKind::Other(text) => KindView::Other(text@),
        }
    }
}

/// The view of a node: the view of its kind, and the views of the nodes
/// nested in it.
pub open spec fn node_view(node: SyntaxNode) -> NodeView
    decreases node,
{
    NodeView {
        kind: node.kind@,
        body: Seq::new(
            node.body@.len(),
            |i: int|
                if 0 <= i < node.body@.len() {
                    node_view(node.body@[i])
                } else {
                    arbitrary()
                },
        ),
    }
}

impl View for SyntaxNode {
    type V = NodeView;

    open spec fn view(&self) -> NodeView {
        node_view(*self)
    }
}

impl View for SyntaxTree {
    type V = NodeView;

    open spec fn view(&self) -> NodeView {
        self.root@
    }
}

/// The view of a node holds the views of the nodes nested in it.
pub proof fn lemma_body_view(node: SyntaxNode)
    ensures
        node@.kind == node.kind@,
        node@.body == views(node.body@),
{
    assert(node@.body.len() == node.body@.len());
    assert forall|i: int| 0 <= i < node.body@.len() implies node@.body[i] == views(
        node.body@,
    )[i] by {
        assert(node@.body[i] == node.body@[i]@);
    }
    assert(node@.body =~= views(node.body@));
}

impl Definition {
    /// A copy of this definition.
    pub fn duplicate(&self) -> (copy: Definition)
        ensures
            copy@ == self@,
    {
        let mut list: Vec<DecoratorReference> = Vec::new();
        let mut i: usize = 0;
        while i < self.decorator_list.len()
            invariant
                i <= self.decorator_list.len(),
                views(list@) == views(self.decorator_list@).take(i as int),
            decreases self.decorator_list.len() - i,
        {
            let d = DecoratorReference { name: self.decorator_list[i].name.clone() };
            let ghost before = views(list@);
            list.push(d);
            assert(d@ == self.decorator_list@[i as int]@);
            assert(views(list@) =~= before.push(d@));
            assert(views(list@) =~= views(self.decorator_list@).take(i + 1));
            i += 1;
        }
        assert(views(list@) =~= views(self.decorator_list@));
        Definition {
            name: self.name.clone(),
            signature: self.signature.clone(),
            decorator_list: list,
        }
    }
}

impl NodeKind {
    /// A copy of this kind.
    pub fn duplicate(&self) -> (copy: NodeKind)
        ensures
            copy@ == self@,
    {
        match self {
            NodeKind::FunctionDef(d) => NodeKind::FunctionDef(d.duplicate()),
            NodeKind::AsyncFunctionDef(d) => NodeKind::AsyncFunctionDef(d.duplicate()),
            NodeKind::ClassDef(d) => NodeKind::ClassDef(d.duplicate()),
            NodeKind::Other(text) => NodeKind::Other(text.clone()),
        }
    }
}

/// The nodes of a tree in the order of a walk: a node, then the nodes of
/// each nested node in turn.
pub open spec fn preorder(node: NodeView) -> Seq<NodeView>
    decreases node,
{
    seq![node] + preorder_all(node.body)
}

/// The nodes of a sequence of trees in the order of a walk: those of the
/// first tree, then those of the next.
pub open spec fn preorder_all(nodes: Seq<NodeView>) -> Seq<NodeView>
    decreases nodes,
{
    if nodes.len() == 0 {
        Seq::empty()
    } else {
        preorder_all(nodes.drop_last()) + preorder(nodes.last())
    }
}

/// The kinds of a sequence of nodes.
pub open spec fn kinds(nodes: Seq<NodeView>) -> Seq<KindView> {
    Seq::new(nodes.len(), |i: int| nodes[i].kind)
}

/// A walk of two runs of nodes is the walk of the first, then the walk of
/// the second.
pub proof fn lemma_walk_of_concat(a: Seq<NodeView>, b: Seq<NodeView>)
    ensures
        preorder_all(a + b) == preorder_all(a) + preorder_all(b),
    decreases b.len(),
{
    if b.len() == 0 {
        assert(a + b =~= a);
        assert(preorder_all(a) + preorder_all(b) =~= preorder_all(a));
    } else {
        assert((a + b).drop_last() =~= a + b.drop_last());
        assert((a + b).last() == b.last());
        lemma_walk_of_concat(a, b.drop_last());
        assert(preorder_all(a + b) =~= preorder_all(a) + preorder_all(b));
    }
}

impl SyntaxNode {
    /// The decorators of a definition, outermost first; `None` for a node of
    /// any other kind, which has no decorator list.
    pub fn decorator_list(&self) -> (list: Option<&Vec<DecoratorReference>>)
        ensures
            match list {
                Some(l) => self@.kind.decorator_list() == Some(views(l@)),
                None => self@.kind.decorator_list() is None,
            },
    {
        proof {
            lemma_body_view(*self);
        }
        match &self.kind {
            NodeKind::FunctionDef(d) => Some(&d.decorator_list),
            NodeKind::AsyncFunctionDef(d) => Some(&d.decorator_list),
            NodeKind::ClassDef(d) => Some(&d.decorator_list),
            NodeKind::Other(_) => None,
        }
    }

    /// Whether this node is a function or class definition.
    pub fn is_definition(&self) -> (r: bool)
        ensures
            r == self@.kind.is_definition(),
    {
        proof {
            lemma_body_view(*self);
        }
        match &self.kind {
            NodeKind::Other(_) => false,
            _ => true,
        }
    }

    /// Appends the nodes of this tree to `out` in the order of a walk.
    fn collect<'a>(&'a self, out: &mut Vec<&'a SyntaxNode>)
        ensures
            views(final(out)@) == views(old(out)@) + preorder(self@),
        decreases self,
    {
        proof {
            lemma_body_view(*self);
        }
        out.push(self);
        assert(views(out@) =~= views(old(out)@) + seq![self@]);
        let mut i: usize = 0;
        assert(self@.body.take(0) =~= Seq::empty());
        while i < self.body.len()
            invariant
                i <= self.body.len(),
                self@.body == views(self.body@),
                views(out@) == views(old(out)@) + seq![self@] + preorder_all(
                    self@.body.take(i as int),
                ),
            decreases self.body.len() - i,
        {
            self.body[i].collect(out);
            assert(self@.body.take(i + 1).drop_last() =~= self@.body.take(i as int));
            assert(self@.body.take(i + 1).last() == self.body@[i as int]@);
            i += 1;
        }
        assert(self@.body.take(self.body.len() as int) =~= self@.body);
        assert(views(out@) =~= views(old(out)@) + preorder(self@));
    }
}

impl SyntaxTree {
    /// Every node of the tree, the root first: each node before the nodes
    /// nested in it, and those in the order in which they stand in the text.
    pub fn walk(&self) -> (nodes: Vec<&SyntaxNode>)
        ensures
            views(nodes@) == preorder(self@),
    {
        let mut nodes: Vec<&SyntaxNode> = Vec::new();
        assert(views(nodes@) =~= Seq::empty());
        self.root.collect(&mut nodes);
        assert(views(nodes@) =~= preorder(self@));
        nodes
    }
}

} // verus!
