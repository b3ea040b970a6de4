use vurze::decorator::inject;
use vurze::lines::{scan_lines, Line};
use vurze::parser::{
    add_decorators_to_functions, build_tree, parse, read_entries, read_header, Entry, Header,
    ParseError,
};
use vurze::render::{is_renderable, render};
use vurze::text::to_chars;
use vurze::tree::{DecoratorReference, Definition, NodeKind, SyntaxNode};

fn chars(text: &str) -> Vec<char> {
    text.chars().collect()
}

fn line(indent: usize, content: &str) -> Line {
    Line { indent, content: chars(content) }
}

fn definition(name: &str, signature: &str, decorators: &[&str]) -> Definition {
    Definition {
        name: name.to_string(),
        signature: signature.to_string(),
        decorator_list: decorators
            .iter()
            .map(|d| DecoratorReference { name: d.to_string() })
            .collect(),
    }
}

#[test]
fn characters_of_a_text() {
    assert_eq!(to_chars("aé\n"), vec!['a', 'é', '\n']);
    assert_eq!(to_chars(""), Vec::<char>::new());
}

#[test]
fn lines_carry_indentation_and_trimmed_content() {
    let source = chars("a = 1  \n\n  \t b\r\n# c\n    # d\nlast");
    assert_eq!(scan_lines(&source), vec![line(0, "a = 1"), line(4, "b"), line(0, "last")]);
    assert_eq!(scan_lines(&chars("")), vec![]);
    assert_eq!(scan_lines(&chars("\n\n")), vec![]);
    assert_eq!(scan_lines(&chars("x")), vec![line(0, "x")]);
    assert_eq!(scan_lines(&chars("x # not cut")), vec![line(0, "x # not cut")]);
}

#[test]
fn headers_are_told_apart() {
    assert_eq!(
        read_header(&chars("@ app.route('/')")),
        Ok(Header::Decorator(DecoratorReference { name: "app.route('/')".to_string() }))
    );
    assert_eq!(
        read_header(&chars("def  f(a: int) -> int: return a")),
        Ok(Header::Statement(NodeKind::FunctionDef(definition(
            "f",
            "(a: int) -> int: return a",
            &[]
        ))))
    );
    assert_eq!(
        read_header(&chars("async\tdef f():")),
        Ok(Header::Statement(NodeKind::AsyncFunctionDef(definition("f", "():", &[]))))
    );
    assert_eq!(
        read_header(&chars("class Été:")),
        Ok(Header::Statement(NodeKind::ClassDef(definition("Été", ":", &[]))))
    );
    assert_eq!(
        read_header(&chars("class A")),
        Ok(Header::Statement(NodeKind::ClassDef(definition("A", "", &[]))))
    );
    assert_eq!(
        read_header(&chars("async with x:")),
        Ok(Header::Statement(NodeKind::Other("async with x:".to_string())))
    );
    assert_eq!(
        read_header(&chars("define()")),
        Ok(Header::Statement(NodeKind::Other("define()".to_string())))
    );
    assert_eq!(read_header(&chars("def")), Err(ParseError::MissingName));
    assert_eq!(read_header(&chars("async def ()")), Err(ParseError::MissingName));
    assert_eq!(read_header(&chars("class :")), Err(ParseError::MissingName));
    assert_eq!(read_header(&chars("@")), Err(ParseError::EmptyDecorator));
}

#[test]
fn decorators_are_attached_to_the_definition_below() {
    let lines = vec![line(0, "@a"), line(0, "@b"), line(0, "def f():"), line(2, "pass")];
    assert_eq!(
        read_entries(&lines),
        Ok(vec![
            Entry { indent: 0, kind: NodeKind::FunctionDef(definition("f", "():", &["a", "b"])) },
            Entry { indent: 2, kind: NodeKind::Other("pass".to_string()) },
        ])
    );
    assert_eq!(read_entries(&vec![]), Ok(vec![]));
}

#[test]
fn indentation_must_match_an_open_block() {
    let lines = vec![line(0, "a:"), line(4, "b:"), line(8, "c"), line(4, "d"), line(0, "e")];
    assert_eq!(read_entries(&lines).map(|e| e.len()), Ok(5));
    let lines = vec![line(0, "a:"), line(4, "b:"), line(8, "c"), line(6, "d")];
    assert_eq!(read_entries(&lines), Err(ParseError::InconsistentDedent));
    let lines = vec![line(0, "a:"), line(8, "c"), line(4, "d")];
    assert_eq!(read_entries(&lines), Err(ParseError::InconsistentDedent));
    let lines = vec![line(1, "a")];
    assert_eq!(read_entries(&lines), Err(ParseError::UnexpectedIndent));
    let lines = vec![line(0, "@a"), line(0, "@b")];
    assert_eq!(read_entries(&lines), Err(ParseError::DecoratorWithoutDefinition));
    let lines = vec![line(0, "x"), line(2, "@a"), line(0, "def f():")];
    assert_eq!(read_entries(&lines), Err(ParseError::DecoratorWithoutDefinition));
}

#[test]
fn statements_nest_by_indentation() {
    let other = |text: &str| NodeKind::Other(text.to_string());
    let entries = vec![
        Entry { indent: 0, kind: other("a") },
        Entry { indent: 4, kind: other("b") },
        Entry { indent: 8, kind: other("c") },
        Entry { indent: 4, kind: other("d") },
        Entry { indent: 0, kind: other("e") },
    ];
    let tree = build_tree(&entries);
    let leaf = |text: &str| SyntaxNode { kind: other(text), body: vec![] };
    assert_eq!(
        tree.root.body,
        vec![
            SyntaxNode {
                kind: other("a"),
                body: vec![SyntaxNode { kind: other("b"), body: vec![leaf("c")] }, leaf("d")],
            },
            leaf("e"),
        ]
    );
    assert!(is_renderable(&tree));
    assert_eq!(render(&tree).unwrap(), "a\n    b\n        c\n    d\ne\n");
    assert_eq!(build_tree(&vec![]).root.body, vec![]);
}

#[test]
fn rendered_text_parses_to_the_same_tree() {
    let sources = [
        "",
        "x = 1\n",
        "@a\n@b(1)\nclass A(B):\n  '''doc'''\n  @c\n  async   def f(self) -> None:  # note\n         pass\n\n  y = 2\nz()\n",
        "if a:\n\tb\nelse:\n\tc\n",
        "def f(): pass\nclass C: pass\n",
    ];
    for source in sources {
        let tree = parse(source).unwrap();
        let text = render(&tree).unwrap();
        let again = parse(&text).unwrap();
        assert_eq!(again, tree);
        assert_eq!(render(&again).unwrap(), text);
    }
}

#[test]
fn annotated_text_parses_to_the_injected_tree() {
    let source = "@a\nclass A:\n    def f(self):\n        pass\nx = 1\n";
    for name in ["secured", "pkg.mark(1, 2)", "#odd"] {
        let mut tree = parse(source).unwrap();
        inject(&mut tree, name);
        let text = add_decorators_to_functions(source, name).unwrap();
        assert_eq!(parse(&text).unwrap(), tree);
    }
}
