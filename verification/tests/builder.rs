use tapecore::syntax::{GreenElement, SyntaxKind, TreeBuilder};

const ROOT: SyntaxKind = SyntaxKind(0);
const WS: SyntaxKind = SyntaxKind(1);
const IDENT: SyntaxKind = SyntaxKind(2);
const COMMA: SyntaxKind = SyntaxKind(3);
const LIST: SyntaxKind = SyntaxKind(4);

#[test]
fn builds_nested_tree_in_document_order() {
    let mut b = TreeBuilder::new();
    b.start_node(ROOT);
    b.start_node(LIST);
    b.token(IDENT, "a");
    b.token(COMMA, ",");
    b.token(WS, " ");
    b.token(IDENT, "b");
    b.finish_node();
    b.token(WS, "\n");
    b.finish_node();
    let root = b.finish();
    assert_eq!(root.text(), "a, b\n");
    assert_eq!(root.children().len(), 2);
    assert_eq!(root.children()[0].kind(), LIST);
}

#[test]
fn checkpoint_wraps_an_already_emitted_prefix() {
    let mut b = TreeBuilder::new();
    b.start_node(ROOT);
    let cp = b.checkpoint();
    b.token(IDENT, "a");
    b.start_node_at(cp, LIST);
    b.token(COMMA, ",");
    b.token(IDENT, "b");
    b.finish_node();
    b.finish_node();
    let root = b.finish();
    assert_eq!(root.text(), "a,b");
    let list = match &root.children()[0] {
        GreenElement::Node(list) => list.clone(),
        GreenElement::Token(_) => panic!("expected the LIST node first"),
    };
    assert_eq!(list.kind(), LIST);
    assert_eq!(list.text(), "a,b");
}

#[test]
#[should_panic(expected = "unfinished node")]
fn finish_with_open_frame_panics() {
    let mut b = TreeBuilder::new();
    b.start_node(ROOT);
    let _ = b.finish();
}

#[test]
#[should_panic(expected = "checkpoint predates")]
fn checkpoint_predating_an_open_frame_panics() {
    let mut b = TreeBuilder::new();
    b.start_node(ROOT);
    let cp = b.checkpoint();
    b.token(IDENT, "a");
    b.start_node(LIST);
    b.start_node_at(cp, LIST);
}

#[test]
fn the_builder_is_lossless_whatever_the_nesting() {
    let mut b = TreeBuilder::new();
    b.start_node(ROOT);
    let cp = b.checkpoint();
    b.token(IDENT, "x");
    b.start_node(LIST);
    b.token(WS, " ");
    b.finish_node();
    b.start_node_at(cp, LIST);
    b.token(IDENT, "ÿ");
    b.finish_node();
    b.finish_node();
    let root = b.finish();
    assert_eq!(root.text(), "x ÿ");
    assert_eq!(root.text_len(), 4);
    assert_eq!(root.children().len(), 1);
}
