use tapecore::syntax::{debug_dump, SyntaxElement, SyntaxKind, SyntaxNode, SyntaxToken, TextRange, TreeBuilder};

const ROOT: SyntaxKind = SyntaxKind(0);
const WS: SyntaxKind = SyntaxKind(1);
const IDENT: SyntaxKind = SyntaxKind(2);
const LIST: SyntaxKind = SyntaxKind(3);

/// `f λx` with the two idents wrapped in a LIST.
fn sample() -> SyntaxNode {
    let mut b = TreeBuilder::new();
    b.start_node(ROOT);
    b.start_node(LIST);
    b.token(IDENT, "f");
    b.token(WS, " ");
    b.token(IDENT, "λx");
    b.finish_node();
    b.token(WS, "\n");
    b.finish_node();
    SyntaxNode::new_root(b.finish())
}

fn first_child(n: &SyntaxNode) -> Option<SyntaxNode> {
    n.children().into_iter().next()
}

#[test]
fn ranges_are_absolute_byte_ranges() {
    let root = sample();
    assert_eq!(root.text_range(), TextRange::new(0, 6));
    let list = first_child(&root).expect("LIST child");
    assert_eq!(list.kind(), LIST);
    assert_eq!(list.text_range(), TextRange::new(0, 5));
    assert_eq!(list.text(), "f λx");
    let tokens: Vec<SyntaxToken> = list
        .children_with_tokens()
        .into_iter()
        .filter_map(|e| match e {
            SyntaxElement::Token(t) => Some(t),
            SyntaxElement::Node(_) => None,
        })
        .collect();
    assert_eq!(tokens.len(), 3);
    assert_eq!(tokens[2].text(), "λx");
    assert_eq!(tokens[2].text_range(), TextRange::new(2, 5));
}

#[test]
fn parent_links_go_back_up() {
    let root = sample();
    let list = first_child(&root).expect("LIST child");
    assert_eq!(list.parent().expect("has parent"), root);
    assert!(root.parent().is_none());
    let first_tok = list.children_with_tokens().into_iter().next().expect("has children");
    assert_eq!(first_tok.text_range(), TextRange::new(0, 1));
}

#[test]
fn equality_is_positional_identity() {
    let root = sample();
    let a = first_child(&root).expect("LIST");
    let b = first_child(&root).expect("LIST again");
    assert_eq!(a, b);
    assert_ne!(a, root);
}

#[test]
fn children_ranges_tile_the_parent() {
    let root = sample();
    let mut cursor = root.text_range().start;
    for e in root.children_with_tokens() {
        assert_eq!(e.text_range().start, cursor);
        cursor = e.text_range().end;
    }
    assert_eq!(cursor, root.text_range().end);
}

fn fake_kind_name(kind: SyntaxKind) -> String {
    match kind {
        ROOT => "ROOT",
        WS => "WS",
        IDENT => "IDENT",
        LIST => "LIST",
        _ => unreachable!("sample() uses only the fake kinds above"),
    }
    .to_owned()
}

#[test]
fn debug_dump_renders_an_indented_tree() {
    let root = sample();
    let dump = debug_dump(&root, &fake_kind_name);
    let expected = [
        "ROOT@0..6",
        "  LIST@0..5",
        "    IDENT@0..1 \"f\"",
        "    WS@1..2 \" \"",
        "    IDENT@2..5 \"λx\"",
        "  WS@5..6 \"\\n\"",
        "",
    ]
    .join("\n");
    assert_eq!(dump, expected);
}

#[test]
fn ancestors_walk_to_the_root() {
    let root = sample();
    let list = first_child(&root).expect("LIST child");
    let chain: Vec<SyntaxKind> = list.ancestors().into_iter().map(|n| n.kind()).collect();
    assert_eq!(chain, vec![ROOT]);
    assert!(root.ancestors().into_iter().next().is_none());
}

#[test]
fn sibling_queries_walk_both_ways() {
    let root = sample();
    let list = first_child(&root).expect("LIST child");
    let next = list.next_sibling_or_token().expect("has next");
    assert_eq!(next.kind(), WS);
    assert!(matches!(
        next,
        SyntaxElement::Token(ref t) if t.text() == "\n"
    ));
    let ws = match next {
        SyntaxElement::Token(t) => t,
        SyntaxElement::Node(_) => unreachable!(),
    };
    let prev = ws.prev_sibling_or_token().expect("has prev");
    assert_eq!(prev.kind(), LIST);
    assert!(list.prev_sibling_or_token().is_none());
}

#[test]
fn token_edges_and_descendant_tokens() {
    let root = sample();
    assert_eq!(root.first_token().expect("first").text(), "f");
    assert_eq!(root.last_token().expect("last").text(), "\n");
    let texts: Vec<String> = root
        .descendant_tokens()
        .into_iter()
        .map(|t| t.text().to_string())
        .collect();
    assert_eq!(texts, vec!["f", " ", "λx", "\n"]);
}

#[test]
fn addressed_children_agree_with_the_iterator_walk() {
    let root = sample();
    for holder in [root.clone()]
        .into_iter()
        .chain(root.children_with_tokens().into_iter().filter_map(|e| match e {
            SyntaxElement::Node(n) => Some(n),
            SyntaxElement::Token(_) => None,
        }))
    {
        let walked: Vec<SyntaxElement> = holder.children_with_tokens();
        for (i, e) in walked.iter().enumerate() {
            let addressed = holder.nth_child_element(i).expect("in range");
            assert_eq!(addressed.kind(), e.kind());
            assert_eq!(addressed.text_range(), e.text_range());
            let prev = match e {
                SyntaxElement::Node(n) => n.prev_sibling_or_token(),
                SyntaxElement::Token(t) => t.prev_sibling_or_token(),
            };
            let next = match e {
                SyntaxElement::Node(n) => n.next_sibling_or_token(),
                SyntaxElement::Token(t) => t.next_sibling_or_token(),
            };
            assert_eq!(
                prev.map(|p| p.text_range()),
                i.checked_sub(1).map(|j| walked[j].text_range())
            );
            assert_eq!(
                next.map(|n| n.text_range()),
                walked.get(i + 1).map(|n| n.text_range())
            );
        }
        assert!(holder.nth_child_element(walked.len()).is_none());
    }
}

#[test]
fn text_range_queries() {
    let r = TextRange::new(2, 5);
    assert_eq!(r.len(), 3);
    assert!(!r.is_empty());
    assert!(r.contains(2));
    assert!(r.contains(4));
    assert!(!r.contains(5));
    assert!(TextRange::new(4, 4).is_empty());
    assert!(!TextRange::new(4, 4).contains(4));
}

#[test]
fn token_parent_and_green_are_reachable() {
    let root = sample();
    let tok = root.last_token().expect("last");
    assert_eq!(tok.parent(), root);
    assert_eq!(root.green().text(), "f λx\n");
    assert_eq!(root.text(), "f λx\n");
    let list = first_child(&root).expect("LIST");
    let inner = list.first_token().expect("f");
    assert_eq!(inner.parent(), list);
    assert_eq!(inner.next_sibling_or_token().expect("ws").kind(), WS);
    assert!(root.last_token().expect("nl").next_sibling_or_token().is_none());
}

#[test]
fn descendant_tokens_tile_the_node() {
    let root = sample();
    let tokens = root.descendant_tokens();
    let joined: String = tokens.iter().map(|t| t.text()).collect();
    assert_eq!(joined, root.text());
    let ranges: Vec<TextRange> = tokens.iter().map(|t| t.text_range()).collect();
    assert_eq!(
        ranges,
        vec![TextRange::new(0, 1), TextRange::new(1, 2), TextRange::new(2, 5), TextRange::new(5, 6)]
    );
}
