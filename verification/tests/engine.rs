use tapecore::linker::compose::{canonical_key, identity_composite, SparseMap};
use tapecore::linker::engine::{
    bad_binding, check_descriptor_phys, dense_map, intern_composite, raw_framed_sites, routine_sig, validate_binding,
    FramedSite, SiteKind,
};
use tapecore::linker::tables::{
    append_frame_descriptor, append_function_tables, rebase_entry, shift_frame_descriptor, shift_table, TableKind,
};
use std::collections::HashMap;
use tapecore::linker::object::{BoundCall, MapPair, RoutineSig, TapeBinding};
use tapecore::linker::resolve::FuncRef;
use tapecore::linker::LinkError;

fn sig(cardinalities: &[u32]) -> RoutineSig {
    RoutineSig {
        arity: cardinalities.len() as u8,
        cardinalities: cardinalities.to_vec(),
    }
}

fn bound(tapes: Vec<TapeBinding>) -> BoundCall {
    BoundCall {
        blob: 0,
        offset: 0,
        symbol: 0,
        binding: tapes,
    }
}

fn tape(caller_tape: u8, pairs: &[(u32, u32)]) -> TapeBinding {
    TapeBinding {
        caller_tape,
        pairs: pairs.iter().map(|&(src, dst)| MapPair { src, dst, one_way: false }).collect(),
    }
}

fn bad(message: &str) -> LinkError {
    LinkError::BadBinding {
        callee: "sub".to_string(),
        message: message.to_string(),
    }
}

#[test]
fn a_swap_on_equal_alphabets_validates() {
    let record = bound(vec![tape(0, &[(1, 2), (2, 1)])]);
    let c = validate_binding(&sig(&[3]), &sig(&[3]), "sub", &record).expect("a bijection");
    assert_eq!(c.routine, 0);
    assert_eq!(c.tapes.len(), 1);
    assert_eq!(c.tapes[0].rmap.apply(1), Some(2));
    assert_eq!(c.tapes[0].rmap.apply(2), Some(1));
}

#[test]
fn identity_completion_must_stay_injective_on_equal_alphabets() {
    let record = bound(vec![tape(0, &[(1, 2)])]);
    assert_eq!(validate_binding(&sig(&[3]), &sig(&[3]), "sub", &record).err(), Some(bad("binding tape 0 is not injective on an equal-size alphabet: identity completion collides on 2")));
}

#[test]
fn unequal_alphabets_need_no_completion() {
    let record = bound(vec![tape(0, &[(1, 2)])]);
    assert!(validate_binding(&sig(&[4]), &sig(&[3]), "sub", &record).is_ok());
}

#[test]
fn a_caller_symbol_outside_the_caller_alphabet_is_refused() {
    let record = bound(vec![tape(0, &[(2, 1)])]);
    assert_eq!(validate_binding(&sig(&[2]), &sig(&[3]), "sub", &record).err(), Some(bad("binding tape 0 maps caller symbol 2 outside the caller alphabet (cardinality 2)")));
}

#[test]
fn the_algebra_refuses_first() {
    let record = bound(vec![]);
    assert_eq!(validate_binding(&sig(&[2]), &sig(&[3]), "sub", &record).err(), Some(bad("binding arity 0 does not match callee arity 1")));
    let record = bound(vec![tape(1, &[])]);
    let err = validate_binding(&sig(&[2]), &sig(&[3]), "sub", &record).unwrap_err();
    assert_eq!(err, bad("binding tape 0 names caller tape 1, but the caller has only 1 tapes"));
}

#[test]
fn descriptor_tapes_within_the_machine_pass() {
    // arity 2, no exits; tape 0 -> phys 0 with a one-entry read map, tape 1 -> phys 1.
    let table = [2u8, 0, 0, 0, 1, 0, 7, 0, 0, 0, 1, 0, 0, 0, 0];
    assert_eq!(check_descriptor_phys(&table, 0, 2, "f"), Ok(()));
}

#[test]
fn a_descriptor_tape_past_the_machine_is_refused() {
    let table = [9u8, 2, 0, 0, 0, 1, 0, 7, 0, 0, 0, 3, 0, 0, 0, 0];
    assert_eq!(
        check_descriptor_phys(&table, 1, 2, "f"),
        Err(LinkError::BadFrameDescriptor {
            symbol: "f".to_string(),
            message: "physical tape 3 is at or past the machine arity 2".to_string(),
        })
    );
}

#[test]
fn a_cut_descriptor_reads_only_what_is_there() {
    assert_eq!(check_descriptor_phys(&[2u8, 0, 0, 0, 1], 0, 2, "f"), Ok(()));
    assert_eq!(check_descriptor_phys(&[2u8, 0], 5, 2, "f"), Ok(()));
}

#[test]
fn dense_maps_spell_out_every_symbol() {
    let identity = SparseMap::identity();
    assert!(dense_map(&identity, true, 3, 3).is_empty());
    assert_eq!(dense_map(&identity, true, 3, 2), vec![0, 1, 0xFFFF]);
    let mut m = SparseMap::identity();
    m.insert_pair(0, 0);
    m.insert_pair(1, 2);
    m.insert_hole(2);
    m.canonicalize();
    assert_eq!(dense_map(&m, false, 4, 3), vec![0, 2, 0xFFFF, 0xFFFF]);
}

#[test]
fn composites_intern_once_by_key() {
    let mut comps = Vec::new();
    let mut keys = Vec::new();
    assert_eq!(intern_composite(&mut comps, &mut keys, identity_composite(1, 1)), 1);
    assert_eq!(intern_composite(&mut comps, &mut keys, identity_composite(2, 1)), 2);
    assert_eq!(intern_composite(&mut comps, &mut keys, identity_composite(1, 1)), 1);
    assert_eq!(comps.len(), 2);
    assert_eq!(keys[1], canonical_key(&identity_composite(2, 1)));
}

#[test]
fn a_callee_without_a_signature_cannot_be_bound() {
    let mut f = FuncRef {
        name: "sub".to_string(),
        blob: Vec::new(),
        debug: None,
        calls: Vec::new(),
        bound: Vec::new(),
        table: Vec::new(),
        table_fixups: Vec::new(),
        signature: None,
        origin: 0,
    };
    assert_eq!(
        routine_sig(std::slice::from_ref(&f), 0),
        Err(bad("callee has no routine signature to bind against"))
    );
    f.signature = Some(sig(&[2]));
    assert_eq!(routine_sig(std::slice::from_ref(&f), 0), Ok(&sig(&[2])));
}

#[test]
fn a_composition_error_becomes_a_bad_binding() {
    let err = tapecore::linker::compose::ComposeError::Arity { expected: 2, got: 1 };
    assert_eq!(bad_binding("sub", &err), bad("binding arity 1 does not match callee arity 2"));
}

fn malformed(at: u32) -> LinkError {
    LinkError::MalformedTable {
        symbol: "f".to_string(),
        at,
    }
}

#[test]
fn an_empty_table_stays_empty() {
    assert_eq!(shift_table(&vec![(0, TableKind::Dispatch)], &[], "f", &vec![1]), Ok(vec![]));
}

#[test]
fn match_rows_are_copied_as_they_are() {
    let table = [2u8, 1, 0, 0x7f, 3];
    assert_eq!(shift_table(&vec![(0, TableKind::Match)], &table, "f", &vec![0, 1, 2]), Ok(table.to_vec()));
}

#[test]
fn dispatch_entries_move_past_the_widened_sites_before_them() {
    let table = [2u8, 0, 10, 0, 0, 0, 20, 0, 0, 0];
    assert_eq!(
        shift_table(&vec![(0, TableKind::Dispatch)], &table, "f", &vec![15, 5]),
        Ok(vec![2, 0, 14, 0, 0, 0, 28, 0, 0, 0])
    );
}

#[test]
fn frame_exits_move_and_maps_stay() {
    let table = [1u8, 1, 0, 0, 1, 0, 9, 0, 0, 0, 8, 0, 0, 0];
    let mut out = Vec::new();
    assert_eq!(shift_frame_descriptor(&table, 0, &vec![3], "f", &mut out), Ok(14));
    assert_eq!(out, vec![1, 1, 0, 0, 1, 0, 9, 0, 0, 0, 12, 0, 0, 0]);
    assert_eq!(shift_table(&vec![(0, TableKind::Frame)], &table, "f", &vec![3]), Ok(out));
}

#[test]
fn regions_follow_in_offset_order_first_kind_winning() {
    // Match rows at 0, a dispatch table at 4; the second reference to 0
    // does not change its kind.
    let table = [1u8, 1, 0, 5, 1, 0, 4, 0, 0, 0];
    let classified = vec![(4, TableKind::Dispatch), (0, TableKind::Match), (0, TableKind::Dispatch)];
    assert_eq!(shift_table(&classified, &table, "f", &vec![2]), Ok(vec![1, 1, 0, 5, 1, 0, 8, 0, 0, 0]));
}

#[test]
fn gaps_overlaps_and_stray_bytes_are_malformed() {
    let table = [1u8, 1, 0, 5, 7];
    assert_eq!(shift_table(&vec![(0, TableKind::Match)], &table, "f", &vec![]), Err(malformed(4)));
    assert_eq!(shift_table(&vec![(2, TableKind::Match)], &table, "f", &vec![]), Err(malformed(0)));
    assert_eq!(shift_table(&vec![], &table, "f", &vec![]), Err(malformed(0)));
    assert_eq!(shift_table(&vec![(0, TableKind::Dispatch)], &table, "f", &vec![]), Err(malformed(0)));
}

#[test]
fn a_frame_descriptor_of_arity_zero_or_cut_short_is_malformed() {
    let mut out = Vec::new();
    assert_eq!(shift_frame_descriptor(&[0u8, 0, 0], 0, &vec![], "f", &mut out), Err(malformed(0)));
    assert_eq!(shift_frame_descriptor(&[9u8, 1, 0, 0, 0, 2, 0], 1, &vec![], "f", &mut out), Err(malformed(1)));
    assert_eq!(shift_frame_descriptor(&[17u8, 0, 0], 0, &vec![], "f", &mut out), Err(malformed(0)));
}

fn final_offsets(pairs: &[(u32, u32)]) -> HashMap<u32, u32> {
    pairs.iter().copied().collect()
}

#[test]
fn dispatch_entries_rebase_to_their_linked_addresses() {
    let table = [2u8, 0, 10, 0, 0, 0, 20, 0, 0, 0];
    let map = final_offsets(&[(10, 7), (20, 15)]);
    let mut out = vec![0xAA];
    assert_eq!(append_function_tables(&vec![(0, TableKind::Dispatch)], &table, "f", 100, &map, &mut out), Ok(()));
    assert_eq!(out, vec![0xAA, 2, 0, 107, 0, 0, 0, 115, 0, 0, 0]);
}

#[test]
fn an_entry_off_an_instruction_boundary_is_malformed_where_it_is_stored() {
    let table = [2u8, 0, 10, 0, 0, 0, 21, 0, 0, 0];
    let map = final_offsets(&[(10, 7), (20, 15)]);
    let mut out = Vec::new();
    assert_eq!(
        append_function_tables(&vec![(0, TableKind::Dispatch)], &table, "f", 100, &map, &mut out),
        Err(malformed(6))
    );
}

#[test]
fn frame_exits_rebase_and_a_table_may_be_absent() {
    let table = [1u8, 1, 0, 0, 0, 0, 0, 0, 8, 0, 0, 0];
    let map = final_offsets(&[(8, 3)]);
    let mut out = Vec::new();
    assert_eq!(append_frame_descriptor(&table, 0, "f", 0x100, &map, &mut out), Ok(12));
    assert_eq!(out, vec![1, 1, 0, 0, 0, 0, 0, 0, 3, 1, 0, 0]);
    let mut none = Vec::new();
    assert_eq!(append_function_tables(&vec![], &[], "f", 0, &map, &mut none), Ok(()));
    assert!(none.is_empty());
}

#[test]
fn a_single_entry_rebases_or_is_malformed() {
    let table = [0u8, 5, 0, 0, 0];
    let map = final_offsets(&[(5, 2)]);
    let mut out = Vec::new();
    assert_eq!(rebase_entry(&table, 1, "f", 40, &map, &mut out), Ok(()));
    assert_eq!(out, vec![42, 0, 0, 0]);
    assert_eq!(rebase_entry(&table, 0, "f", 40, &map, &mut out), Err(malformed(0)));
}

#[test]
fn raw_framed_calls_name_their_descriptors() {
    let f = FuncRef {
        name: "f".to_string(),
        blob: Vec::new(),
        debug: None,
        calls: Vec::new(),
        bound: Vec::new(),
        table: Vec::new(),
        table_fixups: vec![(6, 0), (15, 12), (6, 99)],
        signature: None,
        origin: 0,
    };
    let sites = vec![
        SiteKind::RawCallM { frame_hole: 15 },
        SiteKind::Plain { callee: 0 },
        SiteKind::RawCallM { frame_hole: 6 },
    ];
    assert_eq!(
        raw_framed_sites(&f, &sites),
        Ok(vec![FramedSite::Raw { table_off: 12 }, FramedSite::Raw { table_off: 0 }])
    );
    let unnamed = vec![SiteKind::RawCallM { frame_hole: 7 }];
    assert_eq!(
        raw_framed_sites(&f, &unnamed),
        Err(LinkError::MalformedBlob {
            symbol: "f".to_string(),
            at: 7,
        })
    );
}
