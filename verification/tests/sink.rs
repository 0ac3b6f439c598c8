use tapecore::syntax::{
    debug_dump, layout, EndRule, GreenSink, LayoutToken, SigLayout, SyntaxKind, SyntaxNode, TokenClass,
};

/// A fake kind space: nothing here knows any real language's kinds.
#[derive(Clone, Copy, PartialEq, Eq, Debug)]
enum FakeKind {
    Root,
    Wrap,
    Ident,
    Whitespace,
    Comment,
}

impl From<FakeKind> for SyntaxKind {
    fn from(k: FakeKind) -> SyntaxKind {
        SyntaxKind(match k {
            FakeKind::Root => 0,
            FakeKind::Wrap => 1,
            FakeKind::Ident => 2,
            FakeKind::Whitespace => 3,
            FakeKind::Comment => 4,
        })
    }
}

fn kind_name(kind: SyntaxKind) -> String {
    match kind.0 {
        0 => "ROOT",
        1 => "WRAP",
        2 => "IDENT",
        3 => "WHITESPACE",
        4 => "COMMENT",
        _ => "?",
    }
    .to_string()
}

#[test]
fn sink_builds_a_minimal_tree_with_checkpoint_wrap() {
    let entries = vec![
        SigLayout {
            text: "a".to_string(),
            trivia_before: vec![(FakeKind::Whitespace, " ".to_string())],
        },
        SigLayout {
            text: String::new(),
            trivia_before: vec![],
        },
    ];
    let mut sink = GreenSink::new(entries);
    sink.start(FakeKind::Root);
    let cp = sink.checkpoint();
    sink.flush(0);
    sink.start_at(cp, FakeKind::Wrap);
    sink.token(0, FakeKind::Ident);
    sink.finish();
    let tree = sink.finish_tree(1);
    let root = SyntaxNode::new_root(tree);
    assert_eq!(root.text(), " a");
    let dump = debug_dump(&root, &kind_name);
    assert_eq!(
        dump,
        "ROOT@0..2\n  WRAP@0..2\n    WHITESPACE@0..1 \" \"\n    IDENT@1..2 \"a\"\n"
    );
}

#[test]
fn finish_to_unwinds_to_a_recorded_depth() {
    let entries = vec![
        SigLayout {
            text: "a".to_string(),
            trivia_before: vec![],
        },
        SigLayout {
            text: "b".to_string(),
            trivia_before: vec![],
        },
        SigLayout {
            text: String::new(),
            trivia_before: vec![],
        },
    ];
    let mut sink = GreenSink::new(entries);
    sink.start(FakeKind::Root);
    let depth = sink.open_depth();
    assert_eq!(depth, 1);
    let cp = sink.checkpoint();
    sink.start(FakeKind::Wrap);
    sink.token(0, FakeKind::Ident);
    sink.start(FakeKind::Wrap);
    assert_eq!(sink.open_depth(), 3);
    sink.finish_to(depth);
    assert_eq!(sink.open_depth(), depth);
    sink.start_at(cp, FakeKind::Wrap);
    sink.token(1, FakeKind::Ident);
    sink.finish();
    let root = SyntaxNode::new_root(sink.finish_tree(2));
    assert_eq!(root.text(), "ab");
    assert_eq!(root.children().len(), 1);
    let wrap = root.children().into_iter().next().expect("the recovery wrap");
    assert_eq!(wrap.text(), "ab");
}

#[test]
#[should_panic(expected = "emitted twice")]
fn a_token_emitted_twice_is_caught() {
    let entries = vec![SigLayout {
        text: "a".to_string(),
        trivia_before: vec![],
    }];
    let mut sink = GreenSink::new(entries);
    sink.start(FakeKind::Root);
    sink.token(0, FakeKind::Ident);
    sink.token(0, FakeKind::Ident);
}

fn fact(line: u32, col: u32, end: EndRule, class: TokenClass<FakeKind>) -> LayoutToken<FakeKind> {
    LayoutToken { line, col, end, class }
}

#[test]
fn layout_concat_reproduces_the_source() {
    let src = "aa µ\n#to-eol\nbb";
    let tokens = vec![
        fact(1, 1, EndRule::Chars(2), TokenClass::Significant),
        fact(1, 4, EndRule::Chars(1), TokenClass::Trivia(FakeKind::Comment)),
        fact(2, 1, EndRule::ToLineEnd, TokenClass::Significant),
        fact(3, 1, EndRule::Chars(2), TokenClass::Significant),
        fact(3, 3, EndRule::AtStart, TokenClass::Significant),
    ];
    let entries = layout(src, &tokens, FakeKind::Whitespace);
    let mut out = String::new();
    for e in &entries {
        for (_, t) in &e.trivia_before {
            out.push_str(t);
        }
        out.push_str(&e.text);
    }
    assert_eq!(out, src, "layout is not lossless");
    assert_eq!(entries[1].text, "#to-eol");
    assert_eq!(
        entries[1].trivia_before,
        vec![
            (FakeKind::Whitespace, " ".to_string()),
            (FakeKind::Comment, "µ".to_string()),
            (FakeKind::Whitespace, "\n".to_string()),
        ]
    );
}

#[test]
fn eof_entry_carries_trailing_trivia() {
    let src = "a\n";
    let tokens = vec![
        fact(1, 1, EndRule::Chars(1), TokenClass::Significant),
        fact(2, 1, EndRule::AtStart, TokenClass::Significant),
    ];
    let entries = layout(src, &tokens, FakeKind::Whitespace);
    let eof = entries.last().expect("eof entry");
    assert_eq!(eof.text, "");
    assert_eq!(eof.trivia_before, vec![(FakeKind::Whitespace, "\n".to_string())]);
}

#[test]
#[should_panic(expected = "non-whitespace between tokens")]
fn a_non_whitespace_gap_is_refused() {
    let src = "a!b";
    let tokens = vec![
        fact(1, 1, EndRule::Chars(1), TokenClass::Significant),
        fact(1, 3, EndRule::Chars(1), TokenClass::Significant),
        fact(1, 4, EndRule::AtStart, TokenClass::Significant),
    ];
    layout(src, &tokens, FakeKind::Whitespace);
}

#[test]
fn a_char_count_running_past_the_end_stops_at_the_end() {
    let src = "ab";
    let tokens = vec![
        fact(1, 1, EndRule::Chars(7), TokenClass::Significant),
        fact(1, 3, EndRule::AtStart, TokenClass::Significant),
    ];
    let entries = layout(src, &tokens, FakeKind::Whitespace);
    assert_eq!(entries.len(), 2);
    assert_eq!(entries[0].text, "ab");
    assert_eq!(entries[1].text, "");
}

#[test]
fn a_full_schedule_drives_the_sink_losslessly() {
    let src = "x  # note\ny";
    let tokens = vec![
        fact(1, 1, EndRule::Chars(1), TokenClass::Significant),
        fact(1, 4, EndRule::ToLineEnd, TokenClass::Trivia(FakeKind::Comment)),
        fact(2, 1, EndRule::Chars(1), TokenClass::Significant),
        fact(2, 2, EndRule::AtStart, TokenClass::Significant),
    ];
    let entries = layout(src, &tokens, FakeKind::Whitespace);
    assert_eq!(entries.len(), 3);
    let mut sink = GreenSink::new(entries);
    sink.start(FakeKind::Root);
    sink.token(0, FakeKind::Ident);
    sink.token(1, FakeKind::Ident);
    let root = SyntaxNode::new_root(sink.finish_tree(2));
    assert_eq!(root.text(), src);
    assert_eq!(
        debug_dump(&root, &kind_name),
        "ROOT@0..11\n  IDENT@0..1 \"x\"\n  WHITESPACE@1..3 \"  \"\n  COMMENT@3..9 \"# note\"\n  WHITESPACE@9..10 \"\\n\"\n  IDENT@10..11 \"y\"\n"
    );
}

#[test]
fn whitespace_is_the_unicode_white_space_property() {
    for u in 0u32..=0x10FFFF {
        if let Some(c) = char::from_u32(u) {
            assert_eq!(tapecore::syntax::sink::is_whitespace(c), c.is_whitespace(), "U+{:04X}", u);
        }
    }
}
