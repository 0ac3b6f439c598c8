use tapecore::linker::engine::{DirSource, FramesPlan};
use tapecore::linker::layout::{emit_planned_region, layout_pass, piece_size, Piece};

fn verbatim(orig: u32, n: usize) -> Piece {
    Piece::Verbatim {
        orig,
        bytes: vec![0x90; n],
    }
}

#[test]
fn pieces_have_their_emitted_sizes() {
    assert_eq!(piece_size(&verbatim(0, 3), false), 3);
    let jump = Piece::Jump {
        orig: 3,
        opcode: 0x10,
        width: 4,
        orig_target: 0,
    };
    assert_eq!(piece_size(&jump, true), 5);
    let call = Piece::CallSite { orig: 8, callee: 1 };
    assert_eq!(piece_size(&call, true), 2);
    assert_eq!(piece_size(&call, false), 5);
    assert_eq!(piece_size(&Piece::FramedCall { orig: 13, callee: 1 }, true), 9);
    assert_eq!(call.orig(), 8);
    assert_eq!(jump.orig(), 3);
}

#[test]
fn functions_lay_out_back_to_back_from_the_entry() {
    let functions = vec![
        vec![verbatim(0, 1), Piece::CallSite { orig: 1, callee: 1 }, verbatim(6, 1)],
        vec![verbatim(0, 4), Piece::FramedCall { orig: 4, callee: 0 }],
    ];
    let far = vec![vec![false, false, false], vec![false, false]];
    let (bases, offsets) = layout_pass(&functions, &far);
    assert_eq!(bases, vec![0, 7]);
    assert_eq!(offsets, vec![vec![0, 1, 6], vec![0, 4]]);
    let short = vec![vec![false, true, false], vec![false, false]];
    let (bases, offsets) = layout_pass(&functions, &short);
    assert_eq!(bases, vec![0, 4]);
    assert_eq!(offsets, vec![vec![0, 1, 3], vec![0, 4]]);
}

#[test]
fn the_planned_frames_region_follows_the_tables() {
    let plan = FramesPlan {
        engine_descriptors: vec![vec![1, 0, 0], vec![2, 0, 0, 7]],
        directory: vec![
            DirSource::Engine(1),
            DirSource::Raw {
                func: 1,
                table_offset: 3,
            },
            DirSource::Engine(0),
        ],
        compose: vec![vec![1, 0], vec![3, 2]],
    };
    let mut code = vec![0u8; 12];
    let mut tables = vec![0xEE; 5];
    let offset = emit_planned_region(&plan, &mut code, &mut tables, &vec![6, 1], &vec![0, 100]);
    assert_eq!(offset, 12);
    assert_eq!(
        tables,
        vec![
            0xEE, 0xEE, 0xEE, 0xEE, 0xEE, // what was there
            1, 0, 0, 2, 0, 0, 7, // the engine's descriptors, at 5 and 8
            3, 0, 2, 0, // three composites, two sites
            8, 0, 0, 0, 103, 0, 0, 0, 5, 0, 0, 0, // the directory
            1, 0, 0, 0, 3, 0, 2, 0, // the compose table
        ]
    );
    assert_eq!(code, vec![0, 1, 0, 0, 0, 0, 0, 0, 0, 0, 0, 0]);
}
