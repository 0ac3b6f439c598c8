use tapecore::linker::layout::{layout_pass, relax_widths, Piece};

fn bytes(orig: u32, n: usize) -> Piece {
    Piece::Verbatim { orig, bytes: vec![0; n] }
}

fn call(orig: u32, callee: usize) -> Piece {
    Piece::CallSite { orig, callee }
}

#[test]
fn a_near_call_is_made_short() {
    let functions = vec![vec![bytes(0, 1), call(1, 1), bytes(6, 1)], vec![bytes(0, 4)]];
    let has_short = vec![vec![false, true, false], vec![false]];
    assert_eq!(relax_widths(&functions, &has_short, true), vec![vec![false, true, false], vec![false]]);
}

#[test]
fn without_relaxation_every_call_stays_far() {
    let functions = vec![vec![bytes(0, 1), call(1, 1), bytes(6, 1)], vec![bytes(0, 4)]];
    let has_short = vec![vec![false, true, false], vec![false]];
    assert_eq!(relax_widths(&functions, &has_short, false), vec![vec![false, false, false], vec![false]]);
}

#[test]
fn a_call_without_a_short_form_stays_far() {
    let functions = vec![vec![bytes(0, 1), call(1, 1), bytes(6, 1)], vec![bytes(0, 4)]];
    let has_short = vec![vec![false, false, false], vec![false]];
    assert_eq!(relax_widths(&functions, &has_short, true), vec![vec![false, false, false], vec![false]]);
}

#[test]
fn a_call_out_of_byte_range_stays_far() {
    let functions = vec![vec![call(0, 2)], vec![bytes(0, 200)], vec![bytes(0, 1)]];
    let has_short = vec![vec![true], vec![false], vec![false]];
    assert_eq!(relax_widths(&functions, &has_short, true), vec![vec![false], vec![false], vec![false]]);
    let backward = vec![vec![bytes(0, 1)], vec![bytes(0, 200), call(200, 0)]];
    let has_short = vec![vec![false], vec![false, true]];
    assert_eq!(relax_widths(&backward, &has_short, true), vec![vec![false], vec![false, false]]);
}

#[test]
fn a_call_brought_into_range_by_another_shrinking_is_made_short() {
    let functions = vec![vec![call(0, 2), bytes(5, 123)], vec![call(0, 2)], vec![bytes(0, 1)]];
    let has_short = vec![vec![true, false], vec![true], vec![false]];
    let widths = relax_widths(&functions, &has_short, true);
    assert_eq!(widths, vec![vec![true, false], vec![true], vec![false]]);
    let (bases, _) = layout_pass(&functions, &widths);
    assert_eq!(bases, vec![0, 125, 127]);
}

use tapecore::linker::layout::emit_function;
use tapecore::linker::LinkError;

fn emit_sample(short: bool, jump_target: u32) -> (Vec<u8>, Result<(u32, u32), LinkError>) {
    let blob = vec![0x0E, 0x20, 0, 0, 0, 0, 0x30, 0xF8];
    let functions = vec![
        vec![
            Piece::Verbatim { orig: 0, bytes: vec![0x0E] },
            call(1, 1),
            Piece::Jump { orig: 6, opcode: 0x30, width: 1, orig_target: jump_target },
        ],
        vec![Piece::Verbatim { orig: 0, bytes: vec![0x0E, 0x02] }],
    ];
    let widths = vec![vec![false, short, false], vec![false]];
    let (bases, offsets) = layout_pass(&functions, &widths);
    let mut code = vec![0xAA];
    let r = emit_function(&mut code, &functions, &widths, &bases, &offsets[0], 0, &blob, "f", &[(0x20, 0x21)]);
    (code, r)
}

#[test]
fn a_short_call_is_emitted_as_its_short_form() {
    let (code, r) = emit_sample(true, 0);
    assert_eq!(r, Ok((1, 0)));
    assert_eq!(code, vec![0xAA, 0x0E, 0x21, 0x02, 0x30, 0xFB]);
}

#[test]
fn a_far_call_keeps_its_opcode_and_a_four_byte_displacement() {
    let (code, r) = emit_sample(false, 0);
    assert_eq!(r, Ok((0, 1)));
    assert_eq!(code, vec![0xAA, 0x0E, 0x20, 0x02, 0, 0, 0, 0x30, 0xF8]);
}

#[test]
fn a_jump_to_no_piece_boundary_is_malformed() {
    let (_, r) = emit_sample(true, 4);
    assert_eq!(r, Err(LinkError::MalformedBlob { symbol: "f".to_string(), at: 6 }));
}

#[test]
fn a_framed_call_keeps_its_frame_half() {
    let blob = vec![0x0E, 0x40, 0, 0, 0, 0, 7, 8, 9, 10];
    let functions = vec![
        vec![Piece::Verbatim { orig: 0, bytes: vec![0x0E] }, Piece::FramedCall { orig: 1, callee: 0 }],
    ];
    let widths = vec![vec![false, false]];
    let (bases, offsets) = layout_pass(&functions, &widths);
    let mut code = Vec::new();
    let r = emit_function(&mut code, &functions, &widths, &bases, &offsets[0], 0, &blob, "f", &[]);
    assert_eq!(r, Ok((0, 1)));
    assert_eq!(code, vec![0x0E, 0x40, 0xF6, 0xFF, 0xFF, 0xFF, 7, 8, 9, 10]);
}
