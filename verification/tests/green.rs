use std::rc::Rc;

use tapecore::syntax::{GreenElement, GreenNode, GreenToken, SyntaxKind};

const ROOT: SyntaxKind = SyntaxKind(0);
const WS: SyntaxKind = SyntaxKind(1);
const IDENT: SyntaxKind = SyntaxKind(2);
const LIST: SyntaxKind = SyntaxKind(3);

#[test]
fn green_tree_reproduces_text_and_caches_len() {
    let inner = GreenNode::new(
        LIST,
        vec![
            GreenElement::Token(GreenToken::new(IDENT, "ab")),
            GreenElement::Token(GreenToken::new(WS, " ")),
            GreenElement::Token(GreenToken::new(IDENT, "cd")),
        ],
    );
    assert_eq!(inner.text_len(), 5);
    let root = GreenNode::new(
        ROOT,
        vec![
            GreenElement::Node(inner),
            GreenElement::Token(GreenToken::new(WS, "\n")),
        ],
    );
    assert_eq!(root.kind(), ROOT);
    assert_eq!(root.text_len(), 6);
    assert_eq!(root.text(), "ab cd\n");
    assert_eq!(root.children().len(), 2);
}

#[test]
fn text_len_counts_bytes_not_chars() {
    let t = GreenToken::new(IDENT, "λ");
    assert_eq!(t.text_len(), 2);
}

#[test]
fn structure_sharing_is_by_rc() {
    let shared = GreenToken::new(IDENT, "x");
    let a = GreenNode::new(LIST, vec![GreenElement::Token(shared.clone())]);
    let b = GreenNode::new(LIST, vec![GreenElement::Token(shared.clone())]);
    assert_eq!(a, b);
    assert_eq!(Rc::strong_count(&shared), 3);
}

#[test]
fn element_kind_and_length_follow_the_slot() {
    let tok = GreenElement::Token(GreenToken::new(IDENT, "héllo"));
    assert_eq!(tok.kind(), IDENT);
    assert_eq!(tok.text_len(), 6);
    let node = GreenElement::Node(GreenNode::new(LIST, vec![tok.clone(), tok]));
    assert_eq!(node.kind(), LIST);
    assert_eq!(node.text_len(), 12);
}

#[test]
fn a_token_keeps_its_kind_and_text() {
    let t = GreenToken::new(WS, " \t");
    assert_eq!(t.kind(), WS);
    assert_eq!(t.text(), " \t");
    let empty = GreenNode::new(ROOT, vec![]);
    assert_eq!(empty.text(), "");
    assert_eq!(empty.text_len(), 0);
}
