use tapecore::syntax::{self, AstNode, SyntaxKind, SyntaxNode, TreeBuilder};

const ROOT: SyntaxKind = SyntaxKind(0);
const IDENT: SyntaxKind = SyntaxKind(1);
const COMMA: SyntaxKind = SyntaxKind(2);
const LIST: SyntaxKind = SyntaxKind(3);
const ENTRY: SyntaxKind = SyntaxKind(4);

#[derive(Debug, Clone, PartialEq, Eq)]
pub struct ListView {
    syntax: SyntaxNode,
}

impl AstNode for ListView {
    fn cast_of(node: SyntaxNode) -> Option<Self> {
        Self::cast(node)
    }

    fn can_cast(kind: SyntaxKind) -> bool {
        kind == LIST
    }

    fn cast(node: SyntaxNode) -> Option<Self> {
        if Self::can_cast(node.kind()) {
            Some(ListView { syntax: node })
        } else {
            None
        }
    }

    fn syntax(&self) -> &SyntaxNode {
        &self.syntax
    }
}

#[derive(Debug, Clone, PartialEq, Eq)]
pub struct EntryView {
    syntax: SyntaxNode,
}

impl AstNode for EntryView {
    fn cast_of(node: SyntaxNode) -> Option<Self> {
        Self::cast(node)
    }

    fn can_cast(kind: SyntaxKind) -> bool {
        kind == ENTRY
    }

    fn cast(node: SyntaxNode) -> Option<Self> {
        if Self::can_cast(node.kind()) {
            Some(EntryView { syntax: node })
        } else {
            None
        }
    }

    fn syntax(&self) -> &SyntaxNode {
        &self.syntax
    }
}

/// `(x,y)`-shaped tree: ROOT > LIST > [ENTRY("x"), COMMA, ENTRY("y")].
fn sample() -> SyntaxNode {
    let mut b = TreeBuilder::new();
    b.start_node(ROOT);
    b.start_node(LIST);
    b.start_node(ENTRY);
    b.token(IDENT, "x");
    b.finish_node();
    b.token(COMMA, ",");
    b.start_node(ENTRY);
    b.token(IDENT, "y");
    b.finish_node();
    b.finish_node();
    b.finish_node();
    SyntaxNode::new_root(b.finish())
}

#[test]
fn cast_checks_the_kind() {
    let root = sample();
    assert!(ListView::cast(root.clone()).is_none());
    let list_node = root.children().into_iter().next().expect("LIST child");
    let list = ListView::cast(list_node).expect("casts");
    assert_eq!(list.syntax().kind(), LIST);
}

#[test]
fn child_and_children_find_by_view_type() {
    let root = sample();
    let list: ListView = syntax::child(&root).expect("LIST under ROOT");
    let entries: Vec<EntryView> = syntax::children(list.syntax());
    assert_eq!(entries.len(), 2);
    assert_eq!(entries[0].syntax().text(), "x");
    assert_eq!(entries[1].syntax().text(), "y");
}

#[test]
fn token_finds_by_kind() {
    let root = sample();
    let list: ListView = syntax::child(&root).expect("LIST under ROOT");
    let comma = syntax::token(list.syntax(), COMMA).expect("comma token");
    assert_eq!(comma.text(), ",");
    assert!(syntax::token(list.syntax(), IDENT).is_none());
}

#[test]
fn no_castable_child_is_none() {
    let root = sample();
    let entry: Option<EntryView> = syntax::child(&root);
    assert!(entry.is_none());
    let none: Vec<ListView> = syntax::children(&root.children()[0]);
    assert!(none.is_empty());
}
