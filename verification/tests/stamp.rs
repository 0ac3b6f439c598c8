use tapecore::linker::compose::{digest, identity_composite};
use tapecore::linker::object::RoutineSig;
use tapecore::linker::resolve::FuncRef;
use tapecore::linker::engine::SiteKind;
use tapecore::linker::object::BoundCall;
use tapecore::linker::stamp::{identity_world, Closure, PendingSite, SpliceSite};
use tapecore::linker::LinkError;

fn func_ref(name: &str) -> FuncRef {
    FuncRef {
        name: name.to_string(),
        blob: Vec::new(),
        debug: None,
        calls: Vec::new(),
        bound: Vec::new(),
        table: Vec::new(),
        table_fixups: Vec::new(),
        signature: None,
        origin: 0,
    }
}

fn machine_sig() -> RoutineSig {
    RoutineSig {
        arity: 1,
        cardinalities: vec![1],
    }
}

#[test]
fn a_fresh_stamp_name_is_dot_separated() {
    let order = vec![func_ref("main"), func_ref("sub")];
    let sig = machine_sig();
    let mut closure = Closure::new(&order, &sig);

    let (idx, dup) = closure
        .intern(1, identity_composite(1, 1), None)
        .expect("a fresh name mints cleanly");
    assert!(!dup);
    assert_eq!(idx, order.len(), "the stamp lands right past order");
    assert_eq!(closure.nodes.len(), 1);
    assert!(
        closure.nodes[0].name.starts_with("sub."),
        "stamp name should be `sub.<digest>`: {}",
        closure.nodes[0].name
    );
    assert!(
        !closure.nodes[0].name.contains('$'),
        "must not regress to the unlexable `$` separator: {}",
        closure.nodes[0].name
    );
}

#[test]
fn a_name_matching_an_existing_routine_is_refused() {
    let mut keyed = identity_composite(1, 1);
    keyed.routine = 1;
    let expected_name = format!("sub.{:08x}", digest(&keyed));

    let order = vec![func_ref("main"), func_ref("sub"), func_ref(&expected_name)];
    let sig = machine_sig();
    let mut closure = Closure::new(&order, &sig);

    let err = closure
        .intern(1, identity_composite(1, 1), None)
        .expect_err("the reserved name is already taken by a hand-written routine");
    assert_eq!(err, LinkError::StampNameCollision(expected_name));
    assert!(
        closure.nodes.is_empty(),
        "a refused intern must not leave a partial node behind"
    );
}

#[test]
fn the_same_copy_interns_once() {
    let order = vec![func_ref("main"), func_ref("sub")];
    let sig = machine_sig();
    let mut closure = Closure::new(&order, &sig);
    assert_eq!(closure.intern(1, identity_composite(1, 7), None), Ok((2, false)));
    assert_eq!(closure.intern(1, identity_composite(1, 1), None), Ok((2, true)));
    assert_eq!(closure.intern(0, identity_composite(1, 1), None), Ok((3, false)));
    assert_eq!(closure.nodes.len(), 2);
    assert_eq!(closure.pop(), Some(0));
    assert_eq!(closure.pop(), Some(1));
    assert_eq!(closure.pop(), None);
}

#[test]
fn splices_of_one_copy_are_numbered() {
    let order = vec![func_ref("main"), func_ref("sub")];
    let sig = machine_sig();
    let mut closure = Closure::new(&order, &sig);
    let site = |return_to: u32| {
        Some(PendingSite::Resolved(SpliceSite {
            caller: 0,
            return_to,
            exits: vec![return_to + 10],
        }))
    };
    let mut keyed = identity_composite(1, 1);
    keyed.routine = 1;
    let base = format!("sub.{:08x}", digest(&keyed));

    assert_eq!(closure.intern(1, identity_composite(1, 1), site(5)), Ok((2, false)));
    assert_eq!(closure.intern(1, identity_composite(1, 1), site(9)), Ok((3, false)));
    assert_eq!(closure.intern(1, identity_composite(1, 1), site(5)), Ok((2, true)));
    assert_eq!(closure.intern(1, identity_composite(1, 1), None), Err(LinkError::StampNameCollision(base.clone())));
    assert_eq!(closure.nodes[0].name, base);
    assert_eq!(closure.nodes[1].name, format!("{base}.1"));
}

#[test]
fn a_site_in_a_copy_counts_past_the_order() {
    let site = PendingSite::InStamp {
        slot: 3,
        return_to: 12,
        exits: vec![20, 24],
    };
    assert_eq!(site.key_parts(5), (8, 12, &[20u32, 24][..]));
    let sig = machine_sig();
    let order = vec![func_ref("main")];
    let closure = Closure::new(&order, &sig);
    assert_eq!(closure.stamp_index(4), 5);
    let identity = closure.identity();
    assert_eq!(identity.routine, 0);
    assert_eq!(identity.tapes.len(), 1);
    let child = closure.plain_child(&identity, 7);
    assert_eq!(child.routine, 7);
}

fn bound_site(callee: usize, collapse: bool) -> SiteKind {
    SiteKind::Bound {
        addr: 0,
        callee,
        record: BoundCall {
            blob: 0,
            offset: 0,
            symbol: 0,
            binding: Vec::new(),
        },
        collapse,
    }
}

#[test]
fn the_identity_world_follows_plain_and_collapsing_calls() {
    let sites = vec![
        vec![SiteKind::Plain { callee: 1 }, bound_site(2, false)],
        vec![bound_site(3, true), SiteKind::RawCallM { frame_hole: 5 }],
        vec![SiteKind::Plain { callee: 4 }],
        vec![SiteKind::Plain { callee: 0 }],
        vec![],
    ];
    assert_eq!(identity_world(&sites, 5), vec![true, true, false, true, false]);
    assert_eq!(identity_world(&sites, 0), Vec::<bool>::new());
}
