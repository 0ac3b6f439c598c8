use std::collections::HashMap;
use tapecore::linker::compose::{identity_composite, Composite, CompositeTape, SparseMap};
use tapecore::linker::stamp::{
    cartesian, emit_move, encode_vec_into, project_moves, project_writes, read_dispatch, read_image, write_image,
    TapeProj,
};
use tapecore::linker::LinkError;

fn proj(phys: usize, phys_card: u32) -> TapeProj {
    TapeProj { phys, phys_card, preimage: HashMap::new(), holes: Vec::new() }
}

fn remapped_tape(phys: u8, pairs: &[(u16, u16)], holes: &[u16]) -> CompositeTape {
    let mut m = SparseMap::identity();
    for &(s, d) in pairs {
        m.insert_pair(s, d);
    }
    for &h in holes {
        m.insert_hole(h);
    }
    CompositeTape { phys, rmap: m.clone(), wmap: m }
}

#[test]
fn read_image_keeps_symbols_up_to_the_opaque_index() {
    let t = remapped_tape(0, &[(2, 5)], &[3]);
    assert_eq!(read_image(&t, 1, 4), Some(1));
    assert_eq!(read_image(&t, 4, 4), Some(4));
    assert_eq!(read_image(&t, 2, 4), None);
    assert_eq!(read_image(&t, 2, 5), Some(5));
    assert_eq!(read_image(&t, 3, 9), None);
}

#[test]
fn write_image_stays_inside_the_physical_alphabet() {
    let t = remapped_tape(0, &[(1, 6)], &[2]);
    assert_eq!(write_image(&t, 1, 7), Some(6));
    assert_eq!(write_image(&t, 1, 6), None);
    assert_eq!(write_image(&t, 2, 9), None);
    assert_eq!(write_image(&t, 0, 1), Some(0));
}

#[test]
fn read_dispatch_reads_its_offsets() {
    let table = vec![0xAA, 2, 0, 0x10, 0, 0, 0, 0x04, 0x03, 0x02, 0x01];
    assert_eq!(read_dispatch(&table, 1, "f"), Ok(vec![0x10, 0x0102_0304]));
}

#[test]
fn read_dispatch_cut_short_is_malformed_at_its_start() {
    let table = vec![0xAA, 2, 0, 0x10, 0, 0, 0, 0x04];
    assert_eq!(
        read_dispatch(&table, 1, "f"),
        Err(LinkError::MalformedTable { symbol: "f".to_string(), at: 1 })
    );
    assert_eq!(
        read_dispatch(&[1u8], 0, "g"),
        Err(LinkError::MalformedTable { symbol: "g".to_string(), at: 0 })
    );
}

#[test]
fn moves_land_on_their_physical_tapes() {
    let projs = vec![proj(2, 4), proj(0, 4)];
    assert_eq!(project_moves(&[1, 3], &projs, 4), vec![3, 0, 1, 0]);
}

#[test]
fn a_vector_operand_ends_on_its_top_bit() {
    let mut blob = vec![0x42];
    encode_vec_into(&mut blob, &[1, 2, 3]);
    assert_eq!(blob, vec![0x42, 1, 2, 0x83]);
}

#[test]
fn an_emitted_move_is_its_opcode_then_the_projected_vector() {
    let projs = vec![proj(1, 4)];
    let mut blob = Vec::new();
    emit_move(&mut blob, 0x20, &[2], &projs, 3);
    assert_eq!(blob, vec![0x20, 0, 2, 0x80]);
}

fn two_tape_composite() -> Composite {
    let mut c = identity_composite(2, 1);
    c.tapes[1] = remapped_tape(1, &[(1, 3)], &[2]);
    c
}

#[test]
fn writes_project_through_the_write_maps() {
    let c = two_tape_composite();
    let projs = vec![proj(2, 5), proj(0, 5)];
    assert_eq!(project_writes(&[0x7F, 1], &c, &projs, 3, "s"), Ok(Some(vec![3, 0x7F, 0x7F])));
    assert_eq!(project_writes(&[4, 0], &c, &projs, 3, "s"), Ok(Some(vec![0, 0x7F, 4])));
}

#[test]
fn a_write_into_a_hole_traps_the_whole_write() {
    let c = two_tape_composite();
    let projs = vec![proj(2, 5), proj(0, 5)];
    assert_eq!(project_writes(&[1, 2], &c, &projs, 3, "s"), Ok(None));
}

#[test]
fn a_write_past_the_symbol_budget_is_refused() {
    let mut c = identity_composite(1, 0);
    c.tapes[0] = remapped_tape(0, &[(1, 0x80)], &[]);
    let projs = vec![proj(0, 0x100)];
    assert_eq!(
        project_writes(&[1], &c, &projs, 1, "s"),
        Err(LinkError::BadFrameDescriptor {
            symbol: "s".to_string(),
            message: "a stamped write maps onto a physical symbol past the 7-bit budget".to_string(),
        })
    );
}

#[test]
fn the_product_keeps_position_and_option_order() {
    let r = cartesian(&[(0, vec![1, 2]), (3, vec![7, 8, 9])]);
    assert_eq!(
        r,
        vec![
            vec![(0, 1), (3, 7)],
            vec![(0, 1), (3, 8)],
            vec![(0, 1), (3, 9)],
            vec![(0, 2), (3, 7)],
            vec![(0, 2), (3, 8)],
            vec![(0, 2), (3, 9)],
        ]
    );
    assert_eq!(cartesian(&[]), vec![Vec::<(usize, u8)>::new()]);
    assert!(cartesian(&[(1, vec![]), (2, vec![5])]).is_empty());
}
