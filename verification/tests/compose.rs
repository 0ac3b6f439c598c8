use tapecore::linker::compose::{
    absolutize, canonical_key, canonicalize, compose, compose_composites, digest, identity_composite, is_full_passthrough,
    is_identity, ComposeError, Composite, CompositeTape, MapDir, SparseMap,
};
use tapecore::linker::object::{MapPair, RoutineSig, TapeBinding};

fn sig(cardinalities: &[u32]) -> RoutineSig {
    RoutineSig {
        arity: cardinalities.len() as u8,
        cardinalities: cardinalities.to_vec(),
    }
}

fn pair(src: u32, dst: u32, one_way: bool) -> MapPair {
    MapPair { src, dst, one_way }
}

fn tape(caller_tape: u8, pairs: Vec<MapPair>) -> TapeBinding {
    TapeBinding { caller_tape, pairs }
}

fn map_of(pairs: &[(u16, u16)], holes: &[u16]) -> SparseMap {
    let mut m = SparseMap::identity();
    for &(s, d) in pairs {
        m.insert_pair(s, d);
    }
    for &h in holes {
        m.insert_hole(h);
    }
    m.canonicalize();
    m
}

fn ctape(phys: u8, rpairs: &[(u16, u16)], rholes: &[u16], wpairs: &[(u16, u16)], wholes: &[u16]) -> CompositeTape {
    CompositeTape {
        phys,
        rmap: map_of(rpairs, rholes),
        wmap: map_of(wpairs, wholes),
    }
}

#[test]
fn arity_mismatch_is_rejected() {
    let s = sig(&[4, 4]);
    let err = absolutize(3, 0, &vec![tape(0, vec![])], &s).unwrap_err();
    assert_eq!(err, ComposeError::Arity { expected: 2, got: 1 });
}

#[test]
fn caller_tape_out_of_range_is_rejected() {
    let s = sig(&[4]);
    let err = absolutize(2, 0, &vec![tape(5, vec![])], &s).unwrap_err();
    assert!(matches!(err, ComposeError::CallerTape { caller_tape: 5, .. }));
}

#[test]
fn callee_symbol_out_of_cardinality_is_rejected() {
    let s = sig(&[3]);
    let err = absolutize(1, 0, &vec![tape(0, vec![pair(1, 7, false)])], &s).unwrap_err();
    assert!(matches!(err, ComposeError::SymbolRange { symbol: 7, cardinality: 3, .. }));
}

#[test]
fn conflicting_read_pairs_are_rejected() {
    let s = sig(&[5]);
    let err = absolutize(1, 0, &vec![tape(0, vec![pair(1, 2, false), pair(1, 3, false)])], &s).unwrap_err();
    assert!(matches!(err, ComposeError::Conflict { dir: MapDir::Read, symbol: 1, .. }));
}

#[test]
fn two_way_write_collision_is_rejected() {
    let s = sig(&[5]);
    let err = absolutize(1, 0, &vec![tape(0, vec![pair(1, 2, false), pair(3, 2, false)])], &s).unwrap_err();
    assert!(matches!(err, ComposeError::Conflict { dir: MapDir::Write, symbol: 2, .. }));
}

#[test]
fn one_way_collapse_is_excluded_from_the_write_direction() {
    let s = sig(&[5]);
    let c = absolutize(1, 0, &vec![tape(0, vec![pair(1, 2, true), pair(3, 2, true)])], &s).unwrap();
    assert_eq!(c.tapes[0].rmap.apply(1), Some(2));
    assert_eq!(c.tapes[0].rmap.apply(3), Some(2));
    assert!(c.tapes[0].wmap.has_no_pairs());
}

#[test]
fn blank_read_pin_is_enforced() {
    let s = sig(&[5]);
    let err = absolutize(1, 0, &vec![tape(0, vec![pair(0, 2, false)])], &s).unwrap_err();
    assert!(matches!(err, ComposeError::Blank { src: 0, dst: 2, .. }));
}

#[test]
fn two_way_collapse_onto_blank_is_rejected_but_one_way_is_allowed() {
    let s = sig(&[5]);
    let err = absolutize(1, 0, &vec![tape(0, vec![pair(2, 0, false)])], &s).unwrap_err();
    assert!(matches!(err, ComposeError::Blank { src: 2, dst: 0, .. }));
    let c = absolutize(1, 0, &vec![tape(0, vec![pair(2, 0, true)])], &s).unwrap();
    assert_eq!(c.tapes[0].rmap.apply(2), Some(0));
    assert!(c.tapes[0].wmap.has_no_pairs());
}

#[test]
fn absolutize_projects_and_maps() {
    let s = sig(&[4, 4]);
    let binding = vec![tape(2, vec![pair(1, 3, false), pair(2, 0, true)]), tape(0, vec![])];
    let c = absolutize(4, 9, &binding, &s).unwrap();
    assert_eq!(c.routine, 9);
    assert_eq!(c.tapes[0].phys, 2);
    assert_eq!(c.tapes[0].rmap.apply(1), Some(3));
    assert_eq!(c.tapes[0].rmap.apply(2), Some(0));
    assert_eq!(c.tapes[0].wmap.apply(3), Some(1));
    assert_eq!(c.tapes[0].wmap.apply(2), Some(2));
    assert_eq!(c.tapes[1].phys, 0);
    assert!(is_identity(&identity_composite(4, 0)));
    assert!(!is_identity(&c));
}

#[test]
fn compose_threads_a_binding_through_a_non_identity_outer() {
    let e = Composite {
        routine: 1,
        tapes: vec![ctape(2, &[(4, 1)], &[], &[(1, 4)], &[])],
    };
    let s = sig(&[4]);
    let composed = compose(&e, 2, &vec![tape(0, vec![pair(1, 3, false)])], &s).unwrap();
    assert_eq!(composed.routine, 2);
    assert_eq!(composed.tapes[0].phys, 2);
    assert_eq!(composed.tapes[0].rmap.apply(4), Some(3));
    assert_eq!(composed.tapes[0].wmap.apply(3), Some(4));
    let bad = compose(&e, 2, &vec![tape(1, vec![])], &s);
    assert!(matches!(bad, Err(ComposeError::CallerTape { caller_tape: 1, .. })));
}

#[test]
fn identity_binding_absolutizes_to_the_identity_composite() {
    let s = sig(&[4, 4]);
    let binding = vec![tape(0, vec![]), tape(1, vec![])];
    let c = absolutize(2, 7, &binding, &s).unwrap();
    assert!(is_identity(&c));
}

#[test]
fn left_identity_law() {
    let f = Composite {
        routine: 3,
        tapes: vec![ctape(1, &[(1, 2)], &[3], &[(2, 1)], &[])],
    };
    let id = identity_composite(2, 99);
    let composed = compose_composites(&id, &f);
    assert_eq!(canonical_key(&composed), canonical_key(&f));
}

#[test]
fn right_identity_law() {
    let e = Composite {
        routine: 5,
        tapes: vec![
            ctape(0, &[(1, 2)], &[], &[(2, 1)], &[]),
            ctape(2, &[(3, 4)], &[5], &[(4, 3)], &[]),
        ],
    };
    let id = identity_composite(e.tapes.len(), e.routine);
    let composed = compose_composites(&e, &id);
    assert_eq!(canonical_key(&composed), canonical_key(&e));
}

#[test]
fn is_identity_iff_no_op_on_compose() {
    let e = Composite {
        routine: 8,
        tapes: vec![ctape(0, &[(1, 2)], &[3], &[(2, 1)], &[])],
    };
    let id = identity_composite(1, 8);
    assert!(is_identity(&id));
    assert_eq!(canonical_key(&compose_composites(&e, &id)), canonical_key(&e));
}

#[test]
fn is_full_passthrough_requires_equal_cardinalities() {
    assert!(is_full_passthrough(&identity_composite(2, 7), &sig(&[4, 4]), &sig(&[4, 4])));
    assert!(!is_full_passthrough(&identity_composite(1, 0), &sig(&[4]), &sig(&[3])));
    assert!(!is_full_passthrough(&identity_composite(1, 0), &sig(&[3]), &sig(&[4])));
    assert!(!is_full_passthrough(&identity_composite(2, 0), &sig(&[4, 4]), &sig(&[4, 3])));
    let swap = Composite {
        routine: 0,
        tapes: vec![ctape(0, &[(1, 2), (2, 1)], &[], &[(1, 2), (2, 1)], &[])],
    };
    assert!(!is_full_passthrough(&swap, &sig(&[4]), &sig(&[4])));
    assert!(!is_full_passthrough(&identity_composite(1, 0), &sig(&[4, 4]), &sig(&[4])));
}

#[test]
fn canonicalize_is_idempotent_and_elides_identity_pairs() {
    let mut m = SparseMap::identity();
    m.insert_pair(3, 3);
    m.insert_pair(1, 2);
    m.insert_hole(4);
    m.insert_pair(4, 9);
    let mut c = Composite {
        routine: 0,
        tapes: vec![CompositeTape {
            phys: 0,
            rmap: m,
            wmap: SparseMap::identity(),
        }],
    };
    canonicalize(&mut c);
    let once = canonical_key(&c);
    canonicalize(&mut c);
    assert_eq!(once, canonical_key(&c), "canonicalize is idempotent");
    assert_eq!(c.tapes[0].rmap.pair(3), None);
    assert_eq!(c.tapes[0].rmap.pair(4), None);
    assert_eq!(c.tapes[0].rmap.pair(1), Some(2));
}

#[test]
fn digest_is_stable_across_pair_insertion_order() {
    let mut a = SparseMap::identity();
    for &(s, d) in &[(1u16, 5u16), (2, 6), (3, 7)] {
        a.insert_pair(s, d);
    }
    let mut b = SparseMap::identity();
    for &(s, d) in &[(3u16, 7u16), (1, 5), (2, 6)] {
        b.insert_pair(s, d);
    }
    let ca = Composite {
        routine: 1,
        tapes: vec![CompositeTape { phys: 0, rmap: a, wmap: SparseMap::identity() }],
    };
    let cb = Composite {
        routine: 1,
        tapes: vec![CompositeTape { phys: 0, rmap: b, wmap: SparseMap::identity() }],
    };
    assert_eq!(digest(&ca), digest(&cb));
    assert_eq!(canonical_key(&ca), canonical_key(&cb));
}

#[test]
fn digest_distinguishes_routine_and_maps() {
    let base = Composite {
        routine: 1,
        tapes: vec![ctape(0, &[(1, 2)], &[], &[(2, 1)], &[])],
    };
    let other_routine = Composite { routine: 2, ..base.clone() };
    let other_map = Composite {
        routine: 1,
        tapes: vec![ctape(0, &[(1, 3)], &[], &[(3, 1)], &[])],
    };
    assert_ne!(digest(&base), digest(&other_routine));
    assert_ne!(digest(&base), digest(&other_map));
}

/// Every sparse map over symbols `0..6` with blank pinned, from a small
/// deterministic family: identity, a swap, a collapse, and holes.
fn sample_maps() -> Vec<SparseMap> {
    vec![
        map_of(&[], &[]),
        map_of(&[(1, 2), (2, 1)], &[]),
        map_of(&[(3, 1)], &[5]),
        map_of(&[(4, 0), (5, 3)], &[2]),
        map_of(&[], &[1, 4]),
    ]
}

fn sample_composites(routine: usize) -> Vec<Composite> {
    let maps = sample_maps();
    let mut out = Vec::new();
    for (i, r) in maps.iter().enumerate() {
        let w = &maps[(i + 2) % maps.len()];
        out.push(Composite {
            routine,
            tapes: vec![
                CompositeTape { phys: (i % 3) as u8, rmap: r.clone(), wmap: w.clone() },
                CompositeTape { phys: ((i + 1) % 3) as u8, rmap: w.clone(), wmap: r.clone() },
                CompositeTape { phys: 2, rmap: SparseMap::identity(), wmap: r.clone() },
            ],
        });
    }
    out
}

#[test]
fn compose_matches_step_by_step_simulation() {
    for outer in sample_composites(1) {
        for inner in sample_composites(2) {
            let result = compose_composites(&outer, &inner);
            assert_eq!(result.routine, inner.routine);
            for (k, it) in inner.tapes.iter().enumerate() {
                let ot = &outer.tapes[usize::from(it.phys)];
                assert_eq!(result.tapes[k].phys, ot.phys);
                for p in 0..6u16 {
                    let expected_read = ot.rmap.apply(p).and_then(|m| it.rmap.apply(m));
                    assert_eq!(result.tapes[k].rmap.apply(p), expected_read);
                    let expected_write = it.wmap.apply(p).and_then(|m| ot.wmap.apply(m));
                    assert_eq!(result.tapes[k].wmap.apply(p), expected_write);
                }
            }
        }
    }
}

#[test]
fn composition_is_associative() {
    for a in sample_composites(10) {
        for b in sample_composites(20) {
            for c in sample_composites(30) {
                let left = compose_composites(&compose_composites(&a, &b), &c);
                let right = compose_composites(&a, &compose_composites(&b, &c));
                assert_eq!(canonical_key(&left), canonical_key(&right));
            }
        }
    }
}

#[test]
fn identity_laws_hold() {
    for f in sample_composites(4) {
        let left_id = identity_composite(3, 4);
        assert_eq!(canonical_key(&compose_composites(&left_id, &f)), canonical_key(&f));
        let right_id = identity_composite(f.tapes.len(), f.routine);
        assert_eq!(canonical_key(&compose_composites(&f, &right_id)), canonical_key(&f));
    }
}

#[test]
fn canonicalize_stable_under_repetition() {
    for f in sample_composites(0) {
        let mut once = f.clone();
        canonicalize(&mut once);
        let key = canonical_key(&once);
        let d = digest(&once);
        canonicalize(&mut once);
        assert_eq!(canonical_key(&once), key);
        assert_eq!(digest(&once), d);
    }
}

#[test]
fn compose_errors_render_their_messages() {
    assert_eq!(
        ComposeError::Arity { expected: 2, got: 1 }.message(),
        "binding arity 1 does not match callee arity 2"
    );
    assert_eq!(
        ComposeError::CallerTape { tape: 0, caller_tape: 5, caller_arity: 2 }.message(),
        "binding tape 0 names caller tape 5, but the caller has only 2 tapes"
    );
    assert_eq!(
        ComposeError::SymbolRange { tape: 1, symbol: 7, cardinality: 3 }.message(),
        "binding tape 1 maps symbol 7 outside the alphabet (cardinality 3)"
    );
    assert_eq!(
        ComposeError::Conflict { tape: 0, dir: MapDir::Write, symbol: 2, existing: 1, incoming: 3 }.message(),
        "binding tape 0 maps write symbol 2 to both 1 and 3"
    );
    assert_eq!(
        ComposeError::Blank { tape: 0, src: 0, dst: 2 }.message(),
        "binding tape 0 maps blank symbol 0 to 2; blank is pinned"
    );
    assert_eq!(
        ComposeError::Blank { tape: 3, src: 2, dst: 0 }.message(),
        "binding tape 3 folds symbol 2 onto blank two-way; spell it => for a read-only collapse"
    );
    assert_eq!(MapDir::Read.name(), "read");
}
