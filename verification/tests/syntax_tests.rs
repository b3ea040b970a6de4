use vurze::decorator::inject;
use vurze::parser::{add_decorators_to_functions, parse, AnnotateError, ParseError};
use vurze::render::{render, RenderError};
use vurze::tree::{DecoratorReference, Definition, NodeKind, SyntaxNode, SyntaxTree};

const SAMPLE: &str = "def foo():\n    pass\n\nclass Bar:\n    pass\n";

fn names(list: &Vec<DecoratorReference>) -> Vec<String> {
    list.iter().map(|d| d.name.clone()).collect()
}

fn definition_names(tree: &SyntaxTree) -> Vec<String> {
    let mut found = Vec::new();
    for node in tree.walk() {
        match &node.kind {
            NodeKind::FunctionDef(d) | NodeKind::AsyncFunctionDef(d) | NodeKind::ClassDef(d) => {
                found.push(d.name.clone())
            }
            NodeKind::Other(_) => {}
        }
    }
    found
}

#[test]
fn secured_is_put_on_function_and_class() {
    let out = add_decorators_to_functions(SAMPLE, "secured").unwrap();
    assert_eq!(out, "@secured\ndef foo():\n    pass\n@secured\nclass Bar:\n    pass\n");
    let tree = parse(&out).unwrap();
    let mut seen = 0;
    for node in tree.walk() {
        if let Some(list) = node.decorator_list() {
            assert_eq!(names(list), vec!["secured".to_string()]);
            seen += 1;
        }
    }
    assert_eq!(seen, 2);
    assert_eq!(definition_names(&tree), vec!["foo".to_string(), "Bar".to_string()]);
}

#[test]
fn injecting_twice_leaves_two_entries() {
    let mut tree = parse(SAMPLE).unwrap();
    inject(&mut tree, "secured");
    inject(&mut tree, "secured");
    let mut seen = 0;
    for node in tree.walk() {
        if let Some(list) = node.decorator_list() {
            assert_eq!(names(list), vec!["secured".to_string(), "secured".to_string()]);
            seen += 1;
        }
    }
    assert_eq!(seen, 2);
    assert_eq!(
        render(&tree).unwrap(),
        "@secured\n@secured\ndef foo():\n    pass\n@secured\n@secured\nclass Bar:\n    pass\n"
    );
}

#[test]
fn other_statements_have_no_decorator_list() {
    let mut tree = parse("x = 1\ndef f():\n    return x\n").unwrap();
    inject(&mut tree, "secured");
    let nodes = tree.walk();
    assert_eq!(nodes.len(), 4);
    assert!(nodes[0].decorator_list().is_none());
    assert!(!nodes[0].is_definition());
    assert_eq!(nodes[1].kind, NodeKind::Other("x = 1".to_string()));
    assert!(nodes[1].decorator_list().is_none());
    assert!(nodes[2].is_definition());
    assert_eq!(nodes[2].decorator_list().map(|l| l.len()), Some(1));
    assert_eq!(nodes[3].kind, NodeKind::Other("return x".to_string()));
    assert!(nodes[3].decorator_list().is_none());
}

#[test]
fn text_without_definitions_is_rendered_as_parsed() {
    let source = "import os\n\nif os.name:\n    x = 1\nelse:\n    x = 2\n";
    let plain = render(&parse(source).unwrap()).unwrap();
    assert_eq!(plain, "import os\nif os.name:\n    x = 1\nelse:\n    x = 2\n");
    assert_eq!(add_decorators_to_functions(source, "secured"), Ok(plain.clone()));
    assert_eq!(add_decorators_to_functions(source, "bad\nname"), Ok(plain));
}

#[test]
fn injected_decorator_comes_first() {
    let out = add_decorators_to_functions("@old\ndef f():\n    pass\n", "new").unwrap();
    assert_eq!(out, "@new\n@old\ndef f():\n    pass\n");
    let tree = parse(&out).unwrap();
    let nodes = tree.walk();
    assert_eq!(names(nodes[1].decorator_list().unwrap()), vec!["new".to_string(), "old".to_string()]);
}

#[test]
fn walk_visits_outer_before_nested_and_siblings_in_order() {
    let source = "class A:\n    def f(self):\n        def g():\n            pass\n        return g\n    async def h(self):\n        pass\ndef k():\n    pass\n";
    let tree = parse(source).unwrap();
    assert_eq!(
        definition_names(&tree),
        vec!["A".to_string(), "f".to_string(), "g".to_string(), "h".to_string(), "k".to_string()]
    );
    let nodes = tree.walk();
    assert_eq!(nodes.len(), 10);
    assert_eq!(nodes[0].kind, NodeKind::Other(String::new()));
    match &nodes[6].kind {
        NodeKind::AsyncFunctionDef(d) => {
            assert_eq!(d.name, "h");
            assert_eq!(d.signature, "(self):");
        }
        other => panic!("unexpected kind {:?}", other),
    }
}

#[test]
fn nested_definitions_are_decorated_at_their_depth() {
    let source = "class A:\n  def f(self):\n      pass\n";
    assert_eq!(
        add_decorators_to_functions(source, "m.secured"),
        Ok("@m.secured\nclass A:\n    @m.secured\n    def f(self):\n        pass\n".to_string())
    );
}

#[test]
fn blank_lines_comments_and_line_ends_are_dropped() {
    let source = "# header\r\n\r\ndef f(a, b):   \r\n\t# note\r\n\treturn a\r\n   \r\n";
    let tree = parse(source).unwrap();
    assert_eq!(tree.root.body.len(), 1);
    assert_eq!(
        tree.root.body[0],
        SyntaxNode {
            kind: NodeKind::FunctionDef(Definition {
                name: "f".to_string(),
                signature: "(a, b):".to_string(),
                decorator_list: vec![],
            }),
            body: vec![SyntaxNode { kind: NodeKind::Other("return a".to_string()), body: vec![] }],
        }
    );
    assert_eq!(render(&tree).unwrap(), "def f(a, b):\n    return a\n");
}

#[test]
fn words_that_only_start_like_keywords_are_statements() {
    let tree = parse("default = 1\nclassy()\nasync for x in y:\n    pass\nasync  def z():\n    pass\n").unwrap();
    assert_eq!(tree.root.body[0].kind, NodeKind::Other("default = 1".to_string()));
    assert_eq!(tree.root.body[1].kind, NodeKind::Other("classy()".to_string()));
    assert_eq!(tree.root.body[2].kind, NodeKind::Other("async for x in y:".to_string()));
    assert!(tree.root.body[3].is_definition());
    assert_eq!(definition_names(&tree), vec!["z".to_string()]);
}

#[test]
fn empty_text_is_an_empty_module() {
    let tree = parse("").unwrap();
    assert_eq!(tree.walk().len(), 1);
    assert_eq!(render(&tree), Ok(String::new()));
    assert_eq!(add_decorators_to_functions("\n\n", "d"), Ok(String::new()));
}

#[test]
fn parse_errors_name_what_is_wrong() {
    assert_eq!(parse("@\ndef f():\n    pass\n").unwrap_err(), ParseError::EmptyDecorator);
    assert_eq!(parse("def (x):\n    pass\n").unwrap_err(), ParseError::MissingName);
    assert_eq!(parse("class\n").unwrap_err(), ParseError::MissingName);
    assert_eq!(parse("@a\nx = 1\n").unwrap_err(), ParseError::DecoratorWithoutDefinition);
    assert_eq!(parse("def f():\n    pass\n@a\n").unwrap_err(), ParseError::DecoratorWithoutDefinition);
    assert_eq!(parse("@a\n    def f():\n        pass\n").unwrap_err(), ParseError::DecoratorWithoutDefinition);
    assert_eq!(parse("  x = 1\n").unwrap_err(), ParseError::UnexpectedIndent);
    assert_eq!(parse("if a:\n        b\n    c\n").unwrap_err(), ParseError::InconsistentDedent);
    assert_eq!(
        add_decorators_to_functions("  x = 1\n", "d"),
        Err(AnnotateError::Parse(ParseError::UnexpectedIndent))
    );
}

#[test]
fn first_bad_line_decides_the_error() {
    assert_eq!(parse("  x = 1\ndef :\n").unwrap_err(), ParseError::UnexpectedIndent);
    assert_eq!(parse("def :\n  x = 1\n    y\n").unwrap_err(), ParseError::MissingName);
}

#[test]
fn a_name_that_is_no_line_fails_at_rendering() {
    assert_eq!(
        add_decorators_to_functions(SAMPLE, "a\nb"),
        Err(AnnotateError::Render(RenderError {}))
    );
    assert_eq!(add_decorators_to_functions(SAMPLE, ""), Err(AnnotateError::Render(RenderError {})));
    assert_eq!(add_decorators_to_functions(SAMPLE, "not an identifier").unwrap(),
        "@not an identifier\ndef foo():\n    pass\n@not an identifier\nclass Bar:\n    pass\n");
}

#[test]
fn a_tree_without_module_root_is_not_rendered() {
    let tree = SyntaxTree {
        root: SyntaxNode { kind: NodeKind::Other("x = 1".to_string()), body: vec![] },
    };
    assert_eq!(render(&tree), Err(RenderError {}));
    let tree = SyntaxTree {
        root: SyntaxNode {
            kind: NodeKind::Other(String::new()),
            body: vec![SyntaxNode { kind: NodeKind::Other(String::new()), body: vec![] }],
        },
    };
    assert_eq!(render(&tree), Err(RenderError {}));
}

#[test]
fn a_built_tree_is_rendered() {
    let mut kind = NodeKind::ClassDef(Definition {
        name: "A".to_string(),
        signature: "(B):".to_string(),
        decorator_list: vec![DecoratorReference { name: "first".to_string() }],
    });
    assert!(kind.add_decorator("second"));
    let mut other = NodeKind::Other("pass".to_string());
    assert!(!other.add_decorator("second"));
    let copy = kind.duplicate();
    assert_eq!(copy, kind);
    let tree = SyntaxTree {
        root: SyntaxNode {
            kind: NodeKind::Other(String::new()),
            body: vec![SyntaxNode { kind, body: vec![SyntaxNode { kind: other, body: vec![] }] }],
        },
    };
    assert_eq!(render(&tree).unwrap(), "@second\n@first\nclass A(B):\n    pass\n");
}
