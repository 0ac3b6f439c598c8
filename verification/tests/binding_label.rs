use tapecore::linker::binding_label::{
    build_bindings, decode_descriptor, disambiguate, entry, entry_digest, label, tape_record, LabelTape, HOLE,
};

fn tape<'a>(phys: u8, rmap: &'a [u16], wmap: &'a [u16]) -> LabelTape<'a> {
    LabelTape { phys, rmap, wmap }
}

#[test]
fn empty_maps_are_a_bare_phys_index() {
    assert_eq!(label("f", &[tape(0, &[], &[])]), "f@[0]");
    assert_eq!(label("f", &[tape(2, &[], &[]), tape(0, &[], &[])]), "f@[2,0]");
}

#[test]
fn equal_size_bijection_omits_identity_pairs() {
    let rmap = [0, 2, 1, 3];
    let wmap = [0, 2, 1, 3];
    assert_eq!(label("f", &[tape(1, &rmap, &wmap)]), "f@[1{1->2,2->1}]");
}

#[test]
fn one_way_pair_renders_with_a_fat_arrow() {
    let rmap = [0, 1, 2, 1];
    let wmap = [];
    assert_eq!(label("g", &[tape(0, &rmap, &wmap)]), "g@[0{3=>1}]");
}

#[test]
fn holey_tape_lists_all_mapped_pairs_including_identity() {
    let rmap = [0, 1, HOLE, HOLE];
    let wmap = [0, 1];
    assert_eq!(label("h", &[tape(0, &rmap, &wmap)]), "h@[0{1->1}]");
}

#[test]
fn blank_pair_is_never_written() {
    let rmap = [0, 1, 2, 0];
    let wmap = [];
    assert_eq!(label("k", &[tape(0, &rmap, &wmap)]), "k@[0{3=>0}]");
}

#[test]
fn over_budget_entry_collapses_to_a_digest() {
    let rmap: Vec<u16> = (0..10u16).map(|s| (s + 1) % 10).collect();
    let mut wmap = vec![0u16; 10];
    for s in 0..10u16 {
        wmap[usize::from((s + 1) % 10)] = s;
    }
    let text = label("big", &[tape(0, &rmap, &wmap)]);
    assert!(text.starts_with("big@[0{#") && text.ends_with("}]"), "{text}");
    assert_eq!(text, label("big", &[tape(0, &rmap, &wmap)]));
}

#[test]
fn digest_is_stable_and_distinguishes_content() {
    let ra: Vec<u16> = (0..10u16).map(|s| (s + 1) % 10).collect();
    let rb: Vec<u16> = (0..10u16).map(|s| (s + 2) % 10).collect();
    let t_a = tape(0, &ra, &[]);
    let t_b = tape(0, &rb, &[]);
    assert_eq!(entry_digest(&t_a), entry_digest(&t_a));
    assert_ne!(entry_digest(&t_a), entry_digest(&t_b));
}

#[test]
fn disambiguate_suffixes_collisions_deterministically() {
    let mut labels = vec![
        "f@[0]".to_string(),
        "g@[1]".to_string(),
        "f@[0]".to_string(),
        "f@[0]".to_string(),
    ];
    disambiguate(&mut labels);
    assert_eq!(
        labels,
        vec!["f@[0]", "g@[1]", "f@[0].2", "f@[0].3"],
        "first bare, later collisions get .2/.3"
    );
}

#[test]
fn tape_record_is_sparse_truth_with_holes() {
    let rmap = [0, 2, 2, 1, HOLE];
    let wmap = [0, 0, 1, HOLE];
    let (pairs, read_holes, write_holes) = tape_record(&rmap, &wmap);
    assert_eq!(read_holes, vec![4]);
    assert_eq!(write_holes, vec![3]);
    assert_eq!(pairs, vec![(1, 2, false), (3, 1, true)]);
}

#[test]
fn the_digest_is_eight_lowercase_hex_digits_of_the_crc() {
    let rmap: Vec<u16> = (0..10u16).map(|s| (s + 1) % 10).collect();
    let t = tape(3, &rmap, &[]);
    let text = entry(&t);
    assert_eq!(text, format!("3{{#{:08x}}}", entry_digest(&t)));
    let mut bytes = Vec::new();
    bytes.extend_from_slice(&10u32.to_le_bytes());
    for v in &rmap {
        bytes.extend_from_slice(&v.to_le_bytes());
    }
    bytes.extend_from_slice(&0u32.to_le_bytes());
    assert_eq!(entry_digest(&t), crc32_reference(&bytes));
}

fn crc32_reference(data: &[u8]) -> u32 {
    let mut c: u32 = 0xFFFF_FFFF;
    for &b in data {
        c ^= u32::from(b);
        for _ in 0..8 {
            c = if c & 1 == 1 { (c >> 1) ^ 0xEDB8_8320 } else { c >> 1 };
        }
    }
    !c
}

fn push16(buf: &mut Vec<u8>, v: u16) {
    buf.extend_from_slice(&v.to_le_bytes());
}

/// A table section with a frames region at `region`: count, spare word,
/// directory, then one descriptor per entry.
fn frames_section(descriptors: &[Vec<(u8, Vec<u16>, Vec<u16>)>]) -> (Vec<u8>, u32) {
    let mut t = vec![0xAAu8; 4];
    let region = t.len() as u32;
    push16(&mut t, descriptors.len() as u16);
    push16(&mut t, 0);
    let dir_at = t.len();
    t.extend(std::iter::repeat(0u8).take(4 * descriptors.len()));
    for (i, d) in descriptors.iter().enumerate() {
        let off = t.len() as u32;
        t[dir_at + 4 * i..dir_at + 4 * i + 4].copy_from_slice(&off.to_le_bytes());
        t.push(d.len() as u8);
        push16(&mut t, 0);
        for (phys, r, w) in d {
            t.push(*phys);
            push16(&mut t, r.len() as u16);
            for v in r {
                push16(&mut t, *v);
            }
            push16(&mut t, w.len() as u16);
            for v in w {
                push16(&mut t, *v);
            }
        }
    }
    (t, region)
}

#[test]
fn bindings_decode_label_and_disambiguate_the_directory() {
    let swap = (1u8, vec![0u16, 2, 1], vec![0u16, 2, 1]);
    let (t, region) = frames_section(&[vec![swap.clone()], vec![swap.clone()], vec![(0, vec![], vec![])]]);
    let routines = vec!["f".to_string(), "f".to_string()];
    let b = build_bindings(&t, region, &routines);
    assert_eq!(b.len(), 3);
    assert_eq!(b[0].index, 1);
    assert_eq!(b[0].label, "f@[1{1->2,2->1}]");
    assert_eq!(b[1].label, "f@[1{1->2,2->1}].2");
    assert_eq!(b[2].routine, "");
    assert_eq!(b[2].label, "@[0]");
    assert_eq!(b[0].tapes[0].pairs, vec![(1, 2, false), (2, 1, false)]);
    assert!(build_bindings(&t, 0, &routines).is_empty());
    let dense = decode_descriptor(&t, u32::from_le_bytes([t[8], t[9], t[10], t[11]])).expect("decodes");
    assert_eq!(dense, vec![swap]);
}

#[test]
fn a_truncated_descriptor_ends_the_directory() {
    let (mut t, region) = frames_section(&[vec![(0, vec![0, 1], vec![])], vec![(2, vec![0, 1, 1], vec![])]]);
    t.truncate(t.len() - 1);
    let b = build_bindings(&t, region, &["a".to_string(), "b".to_string()]);
    assert_eq!(b.len(), 1);
    assert_eq!(b[0].label, "a@[0]");
    assert!(decode_descriptor(&t, t.len() as u32).is_none());
}
