use tapecore::diagnostics::{Pos, Span};
use tapecore::lsp::position::{pack_semantic_tokens, pos_from_lsp, pos_to_lsp, range_to_span, span_to_range, SemToken};
use tapecore::lsp::types::{Position, Range};

fn pos(line: u32, col: u32) -> Pos {
    Pos { line, col }
}

fn position(line: u32, character: u32) -> Position {
    Position { line, character }
}

#[test]
fn ascii_two_lines_maps_both_ways() {
    let text = "abc\ndef";
    assert_eq!(pos_to_lsp(text, pos(2, 2)), position(1, 1));
    assert_eq!(pos_from_lsp(text, position(1, 1)), pos(2, 2));
}

#[test]
fn cyrillic_counts_chars_not_bytes() {
    let text = "привет x";
    assert_eq!(pos_to_lsp(text, pos(1, 8)), position(0, 7));
    assert_eq!(pos_from_lsp(text, position(0, 7)), pos(1, 8));
}

#[test]
fn astral_emoji_counts_two_utf16_units_as_one_char() {
    let text = "😀x";
    assert_eq!(pos_to_lsp(text, pos(1, 2)), position(0, 2));
    assert_eq!(pos_from_lsp(text, position(0, 2)), pos(1, 2));
}

#[test]
fn column_past_end_of_line_clamps_to_line_end() {
    let text = "abc";
    assert_eq!(pos_to_lsp(text, pos(1, 99)), position(0, 3));
    assert_eq!(pos_from_lsp(text, position(0, 99)), pos(1, 4));
}

#[test]
fn line_past_end_of_file_clamps_to_one_past_the_last_lines_end() {
    let text = "ab\ncd";
    assert_eq!(pos_to_lsp(text, pos(99, 1)), position(1, 2));
    assert_eq!(pos_from_lsp(text, position(99, 0)), pos(2, 3));
}

#[test]
fn mid_surrogate_offset_snaps_to_the_character_start() {
    let text = "😀x";
    assert_eq!(pos_from_lsp(text, position(0, 1)), pos(1, 1));
}

#[test]
fn crlf_line_excludes_trailing_cr_from_the_count() {
    let text = "ab\r\ncd";
    assert_eq!(pos_to_lsp(text, pos(1, 3)), position(0, 2));
    assert_eq!(pos_from_lsp(text, position(0, 2)), pos(1, 3));
}

#[test]
fn span_to_range_maps_both_endpoints() {
    let text = "abc\nпривет x\n😀x";
    let span = Span::new(1, 2, 3, 2);
    let range = span_to_range(text, span);
    assert_eq!(
        range,
        Range {
            start: position(0, 1),
            end: position(2, 2),
        }
    );
    assert_eq!(range_to_span(text, range), span);
}

#[test]
fn round_trips_every_valid_position() {
    let samples = ["", "a", "\n", "ab\ncd", "я😀\n\nzz😀", "😀😀\nпривет\n", "x\r\ny"];
    for text in samples {
        let lines: Vec<&str> = text.split('\n').collect();
        for (line_ix, line) in lines.iter().enumerate() {
            let content = line.strip_suffix('\r').unwrap_or(line);
            let char_len = content.chars().count() as u32;
            for col in 1..=(char_len + 1) {
                let p = Pos { line: (line_ix + 1) as u32, col };
                let lsp = pos_to_lsp(text, p);
                assert_eq!(pos_from_lsp(text, lsp), p);
            }
        }
    }
}

#[test]
fn line_zero_clamps_to_the_start() {
    assert_eq!(pos_to_lsp("abc\ndef", pos(0, 5)), position(0, 0));
    assert_eq!(pos_to_lsp("abc", pos(1, 0)), position(0, 0));
}

fn sem_token(span: Span, token_type: u32, modifiers: u32) -> SemToken {
    SemToken {
        span,
        token_type,
        modifiers,
    }
}

#[test]
fn two_tokens_on_one_line_second_delta_start_is_relative() {
    let text = "foo bar";
    let t1 = sem_token(Span::new(1, 1, 1, 4), 1, 2);
    let t2 = sem_token(Span::new(1, 5, 1, 8), 3, 4);
    assert_eq!(
        pack_semantic_tokens(text, &[t1, t2]),
        vec![0, 0, 3, 1, 2, 0, 4, 3, 3, 4]
    );
}

#[test]
fn token_on_a_later_line_delta_start_is_absolute_again() {
    let text = "foo bar\nbaz";
    let t1 = sem_token(Span::new(1, 1, 1, 4), 1, 2);
    let t2 = sem_token(Span::new(1, 5, 1, 8), 3, 4);
    let t3 = sem_token(Span::new(2, 1, 2, 4), 5, 6);
    assert_eq!(
        pack_semantic_tokens(text, &[t1, t2, t3]),
        vec![0, 0, 3, 1, 2, 0, 4, 3, 3, 4, 1, 0, 3, 5, 6]
    );
}

#[test]
fn token_after_an_emoji_uses_utf16_units_not_char_counts() {
    let text = "😀fn😀";
    let t = sem_token(Span::new(1, 2, 1, 5), 9, 10);
    assert_eq!(pack_semantic_tokens(text, &[t]), vec![0, 2, 4, 9, 10]);
}

#[test]
fn unsorted_input_comes_out_sorted_by_span_start() {
    let text = "foo bar";
    let t1 = sem_token(Span::new(1, 1, 1, 4), 1, 2);
    let t2 = sem_token(Span::new(1, 5, 1, 8), 3, 4);
    assert_eq!(
        pack_semantic_tokens(text, &[t2, t1]),
        vec![0, 0, 3, 1, 2, 0, 4, 3, 3, 4]
    );
}

#[test]
fn empty_input_packs_to_an_empty_vec() {
    assert_eq!(pack_semantic_tokens("anything", &[]), Vec::<u32>::new());
}

#[test]
fn tokens_with_equal_starts_keep_their_input_order() {
    let text = "abcdef";
    let t1 = sem_token(Span::new(1, 2, 1, 3), 7, 0);
    let t2 = sem_token(Span::new(1, 2, 1, 4), 8, 0);
    let t0 = sem_token(Span::new(1, 1, 1, 2), 9, 0);
    assert_eq!(
        pack_semantic_tokens(text, &[t1, t2, t0]),
        vec![0, 0, 1, 9, 0, 0, 1, 1, 7, 0, 0, 0, 2, 8, 0]
    );
}
