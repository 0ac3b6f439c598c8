use tapecore::diagnostics::{Pos, Span};
use tapecore::lsp::position::pos_from_lsp;
use tapecore::lsp::types::Position;
use tapecore::syntax::{TextLineIndex, TextRange};

#[test]
fn lines_and_columns_are_one_based() {
    let idx = TextLineIndex::new("ab\ncd\n");
    assert_eq!(idx.line_col(0), (1, 1));
    assert_eq!(idx.line_col(1), (1, 2));
    assert_eq!(idx.line_col(2), (1, 3));
    assert_eq!(idx.line_col(3), (2, 1));
    assert_eq!(idx.line_col(6), (3, 1));
}

#[test]
fn columns_count_chars_not_bytes() {
    let idx = TextLineIndex::new("λx");
    assert_eq!(idx.line_col(0), (1, 1));
    assert_eq!(idx.line_col(2), (1, 2));
    assert_eq!(idx.line_col(3), (1, 3));
}

#[test]
fn span_matches_the_lexers_end_exclusive_convention() {
    let idx = TextLineIndex::new("ab\ncd\n");
    let span = idx.span(TextRange::new(3, 5));
    assert_eq!(span, Span::new(2, 1, 2, 3));
}

#[test]
fn empty_text_has_one_line() {
    let idx = TextLineIndex::new("");
    assert_eq!(idx.line_col(0), (1, 1));
}

#[test]
fn offset_inverts_line_col_at_every_char_boundary() {
    let text = "ab\n\nжc\n";
    let idx = TextLineIndex::new(text);
    for (offset, _) in text
        .char_indices()
        .chain(std::iter::once((text.len(), '\0')))
    {
        let offset = offset as u32;
        let (line, col) = idx.line_col(offset);
        assert_eq!(
            idx.offset(Pos { line, col }),
            offset,
            "round trip at byte {offset} ({line}:{col})"
        );
    }
}

#[test]
fn offset_clamps_a_column_past_the_line_end_to_that_line_end() {
    let idx = TextLineIndex::new("ab\ncd\n");
    assert_eq!(idx.offset(Pos { line: 1, col: 3 }), 2, "one past 'b' is the \\n");
    assert_eq!(idx.offset(Pos { line: 1, col: 99 }), 2, "far past clamps the same");
    assert_eq!(idx.offset(Pos { line: 2, col: 3 }), 5);
}

#[test]
fn offset_clamps_a_line_past_the_end_to_end_of_text() {
    let idx = TextLineIndex::new("ab\ncd\n");
    assert_eq!(idx.offset(Pos { line: 99, col: 1 }), 6);
    assert_eq!(idx.offset(Pos { line: 3, col: 1 }), 6);
}

#[test]
fn offset_handles_an_empty_document() {
    let idx = TextLineIndex::new("");
    assert_eq!(idx.offset(Pos { line: 1, col: 1 }), 0);
    assert_eq!(idx.offset(Pos { line: 9, col: 9 }), 0);
}

#[test]
fn line_zero_resolves_to_end_of_text() {
    let idx = TextLineIndex::new("ab\ncd");
    assert_eq!(idx.offset(Pos { line: 0, col: 1 }), 5);
    assert_eq!(idx.offset(Pos { line: 2, col: 1 }), 3);
    assert_eq!(idx.offset(Pos { line: 2, col: 0 }), 3);
}

#[test]
fn a_span_may_cross_lines() {
    let idx = TextLineIndex::new("aé\nbc");
    assert_eq!(idx.span(TextRange::new(1, 5)), Span::new(1, 2, 2, 2));
}

#[test]
fn converted_protocol_positions_resolve_to_their_characters() {
    let text = "a\u{3bb}\r\nb\u{1f600}c\nd";
    let idx = TextLineIndex::new(text);
    let at = |line: u32, character: u32| idx.offset(pos_from_lsp(text, Position { line, character }));
    assert_eq!(at(0, 0), 0);
    assert_eq!(at(0, 1), 1);
    // Past the content: before the carriage return.
    assert_eq!(at(0, 99), 3);
    // Inside the surrogate pair: the emoji's own start.
    assert_eq!(at(1, 2), 6);
    assert_eq!(at(1, 3), 10);
    assert_eq!(at(2, 1), 13);
    // Past the last line: the end of the text.
    assert_eq!(at(7, 0), 13);
}
