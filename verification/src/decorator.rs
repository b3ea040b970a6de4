//! Decorator injection: every function and class definition of a tree gets
//! one more decorator, in front of those it has.

use crate::text::views;
use crate::tree::{
    lemma_body_view, preorder, preorder_all, DecoratorReference, KindView, NodeKind, NodeView,
    SyntaxNode, SyntaxTree,
};
use vstd::prelude::*;

verus! {

/// A kind after injection. A definition gets `name` as its first, outermost
/// decorator; those it had follow, and a name that is there already is added
/// once more. Any other statement has no decorator list and stays as it is.
pub open spec fn decorate_kind(kind: KindView, name: Seq<char>) -> KindView {
    match kind.decorator_list() {
        Some(list) => kind.with_decorators(seq![name] + list),
        None => kind,
    }
}

/// A tree after injection: every node's kind is decorated, and nothing else
/// changes.
pub open spec fn decorate(node: NodeView, name: Seq<char>) -> NodeView
    decreases node,
{
    NodeView {
        kind: decorate_kind(node.kind, name),
        body: Seq::new(
            node.body.len(),
            |i: int|
                if 0 <= i < node.body.len() {
                    decorate(node.body[i], name)
                } else {
                    arbitrary()
                },
        ),
    }
}

impl NodeKind {
    /// Puts a decorator in front of the decorator list of a definition.
    /// Returns whether there was a list to put it in.
    pub fn add_decorator(&mut self, name: &str) -> (added: bool)
        ensures
            final(self)@ == decorate_kind(old(self)@, name@),
            added == old(self)@.is_definition(),
    {
        match self {
            NodeKind::FunctionDef(d) => {
                d.decorator_list.insert(0, DecoratorReference { name: name.to_owned() });
                assert(views(d.decorator_list@) =~= seq![name@] + old(self)@.decorator_list()->0);
                true
            },
            NodeKind::AsyncFunctionDef(d) => {
                d.decorator_list.insert(0, DecoratorReference { name: name.to_owned() });
                assert(views(d.decorator_list@) =~= seq![name@] + old(self)@.decorator_list()->0);
                true
            },
            NodeKind::ClassDef(d) => {
                d.decorator_list.insert(0, DecoratorReference { name: name.to_owned() });
                assert(views(d.decorator_list@) =~= seq![name@] + old(self)@.decorator_list()->0);
                true
            },
            NodeKind::Other(_) => false,
        }
    }
}

impl SyntaxNode {
    /// Injects a decorator into this node and into every node nested in it.
    pub fn inject(&mut self, name: &str)
        ensures
            final(self)@ == decorate(old(self)@, name@),
        decreases *old(self),
    {
        proof {
            lemma_body_view(*old(self));
        }
        self.kind.add_decorator(name);
        let mut i: usize = 0;
        while i < self.body.len()
            invariant
                i <= self.body.len(),
                self.body.len() == old(self).body.len(),
                self.kind@ == decorate_kind(old(self).kind@, name@),
                forall|j: int|
                    0 <= j < i ==> (#[trigger] self.body@[j])@ == decorate(
                        old(self).body@[j]@,
                        name@,
                    ),
                forall|j: int|
                    i <= j < self.body.len() ==> #[trigger] self.body@[j] == old(self).body@[j],
            decreases self.body.len() - i,
        {
            self.body[i].inject(name);
            i += 1;
        }
        proof {
            lemma_body_view(*self);
            assert(self@.body =~= decorate(old(self)@, name@).body);
        }
    }
}

/// Injects a decorator into every function and class definition of the
/// tree. Each gets the name as its first decorator, so in the rendered text
/// it is the outermost one. Nothing is looked up or removed: injecting a
/// name twice leaves it there twice. The name is taken as it is, legal or
/// not.
pub fn inject(tree: &mut SyntaxTree, decorator_name: &str)
    ensures
        final(tree)@ == decorate(old(tree)@, decorator_name@),
{
    tree.root.inject(decorator_name);
}

/// Each node of a sequence after injection.
pub open spec fn decorate_all(nodes: Seq<NodeView>, name: Seq<char>) -> Seq<NodeView> {
    Seq::new(nodes.len(), |i: int| decorate(nodes[i], name))
}

/// Injection reaches exactly the nodes that a walk visits, and leaves them
/// in their order: walking the tree after injection gives, node for node,
/// the walk of the tree before, each node after injection.
pub proof fn lemma_decorate_walk(node: NodeView, name: Seq<char>)
    ensures
        preorder(decorate(node, name)) == decorate_all(preorder(node), name),
    decreases node,
{
    assert(decorate(node, name).body =~= decorate_all(node.body, name));
    lemma_decorate_walk_all(node.body, name);
    assert(preorder(decorate(node, name)) =~= decorate_all(preorder(node), name));
}

/// The same for the nodes of a sequence.
pub proof fn lemma_decorate_walk_all(nodes: Seq<NodeView>, name: Seq<char>)
    ensures
        preorder_all(decorate_all(nodes, name)) == decorate_all(preorder_all(nodes), name),
    decreases nodes,
{
    if nodes.len() == 0 {
        assert(preorder_all(decorate_all(nodes, name)) =~= decorate_all(
            preorder_all(nodes),
            name,
        ));
    } else {
        lemma_decorate_walk_all(nodes.drop_last(), name);
        lemma_decorate_walk(nodes.last(), name);
        assert(decorate_all(nodes, name).drop_last() =~= decorate_all(nodes.drop_last(), name));
        assert(decorate_all(nodes, name).last() == decorate(nodes.last(), name));
        assert(preorder_all(decorate_all(nodes, name)) =~= decorate_all(
            preorder_all(nodes),
            name,
        ));
    }
}

/// Injection is not idempotent: after injecting a name twice, every
/// definition that a walk visits has that name twice in front of the
/// decorators it had, so a definition without decorators has a list of
/// length two.
pub proof fn lemma_inject_twice(node: NodeView, name: Seq<char>)
    ensures
        preorder(decorate(decorate(node, name), name)).len() == preorder(node).len(),
        forall|i: int|
            0 <= i < preorder(node).len() ==> (#[trigger] preorder(
                decorate(decorate(node, name), name),
            )[i]).kind.decorator_list() == match preorder(node)[i].kind.decorator_list() {
                Some(list) => Some(seq![name, name] + list),
                None => None,
            },
{
    lemma_decorate_walk(node, name);
    lemma_decorate_walk(decorate(node, name), name);
    assert forall|i: int| 0 <= i < preorder(node).len() implies (#[trigger] preorder(
        decorate(decorate(node, name), name),
    )[i]).kind.decorator_list() == match preorder(node)[i].kind.decorator_list() {
        Some(list) => Some(seq![name, name] + list),
        None => None,
    } by {
        let before = preorder(node)[i];
        assert(preorder(decorate(node, name))[i] == decorate(before, name));
        assert(preorder(decorate(decorate(node, name), name))[i] == decorate(
            decorate(before, name),
            name,
        ));
        if let Some(list) = before.kind.decorator_list() {
            assert(seq![name] + (seq![name] + list) =~= seq![name, name] + list);
        }
    }
}

/// A statement that is no definition has no decorator list, before
/// injection and after it: injection leaves its kind as it was.
pub proof fn lemma_other_kinds_untouched(node: NodeView, name: Seq<char>)
    ensures
        preorder(decorate(node, name)).len() == preorder(node).len(),
        forall|i: int|
            0 <= i < preorder(node).len() && !preorder(node)[i].kind.is_definition() ==> {
                &&& (#[trigger] preorder(decorate(node, name))[i]).kind == preorder(node)[i].kind
                &&& preorder(decorate(node, name))[i].kind.decorator_list() is None
            },
{
    lemma_decorate_walk(node, name);
}

/// A node that a walk of `nodes[j]` visits is visited by a walk of `nodes`.
pub proof fn lemma_walk_holds_nested(nodes: Seq<NodeView>, j: int, inner: NodeView)
    requires
        0 <= j < nodes.len(),
        preorder(nodes[j]).contains(inner),
    ensures
        preorder_all(nodes).contains(inner),
    decreases nodes,
{
    let front = preorder_all(nodes.drop_last());
    let back = preorder(nodes.last());
    if j == nodes.len() - 1 {
        let k = choose|k: int| 0 <= k < back.len() && back[k] == inner;
        assert((front + back)[front.len() + k] == inner);
    } else {
        lemma_walk_holds_nested(nodes.drop_last(), j, inner);
        let k = choose|k: int| 0 <= k < front.len() && front[k] == inner;
        assert((front + back)[k] == inner);
    }
}

/// Where a walk meets no function or class definition, injection changes
/// nothing.
pub proof fn lemma_no_definition_no_change(node: NodeView, name: Seq<char>)
    requires
        forall|inner: NodeView| preorder(node).contains(inner) ==> !inner.kind.is_definition(),
    ensures
        decorate(node, name) == node,
    decreases node,
{
    assert(preorder(node)[0] == node);
    assert(preorder(node).contains(node));
    assert forall|j: int| 0 <= j < node.body.len() implies decorate(node.body[j], name)
        == node.body[j] by {
        assert forall|inner: NodeView| preorder(node.body[j]).contains(inner) implies
            !inner.kind.is_definition() by {
            lemma_walk_holds_nested(node.body, j, inner);
            let rest = preorder_all(node.body);
            let k = choose|k: int| 0 <= k < rest.len() && rest[k] == inner;
            assert(preorder(node)[k + 1] == inner);
            assert(preorder(node).contains(inner));
        }
        lemma_no_definition_no_change(node.body[j], name);
    }
    assert(decorate(node, name).body =~= node.body);
}

} // verus!
