use tapecore::linker::object::{BlobVariant, BoundCall, ObjectFile, Relocation, Symbol, SymbolDef};
use tapecore::linker::resolve::resolve;
use tapecore::linker::{resolve_names, LinkError, ResolvedName, ResolvedNames, SymbolOrigin};

/// Object with `funcs` = (name, callees-by-name). Blob content is a
/// stub: [0x0E] + one 5-byte call hole per callee (opcode 0x21).
fn obj(arch: u8, funcs: &[(&str, &[&str])]) -> ObjectFile {
    let mut symbols: Vec<Symbol> = funcs
        .iter()
        .enumerate()
        .map(|(i, (n, _))| Symbol {
            name: (*n).into(),
            def: SymbolDef::Defined { blob: i as u32 },
        })
        .collect();
    let mut blobs = Vec::new();
    let mut relocations = Vec::new();
    for (bi, (_, callees)) in funcs.iter().enumerate() {
        let mut blob = vec![0x0E];
        for callee in *callees {
            let sym = symbols
                .iter()
                .position(|s| s.name == **callee)
                .unwrap_or_else(|| {
                    symbols.push(Symbol {
                        name: (*callee).into(),
                        def: SymbolDef::External,
                    });
                    symbols.len() - 1
                });
            blob.push(0x21);
            relocations.push(Relocation {
                blob: bi as u32,
                offset: blob.len() as u32,
                symbol: sym as u32,
            });
            blob.extend([0u8; 4]);
        }
        blob.push(0x02);
        blobs.push(blob);
    }
    ObjectFile::v2(arch, symbols, blobs, relocations, None)
}

#[test]
fn bfs_order_is_main_first_discovery_order() {
    let a = obj(
        0x7E,
        &[
            ("helper", &[]),
            ("main", &["helper", "second"]),
            ("second", &["helper"]),
        ],
    );
    let r = resolve(std::slice::from_ref(&a), &[], "main").unwrap();
    let names: Vec<&str> = r.order.iter().map(|f| f.name.as_str()).collect();
    assert_eq!(names, vec!["main", "helper", "second"]);
    assert_eq!(r.order[0].calls, vec![(2, 1), (7, 2)]); // holes at 2 and 7
}

#[test]
fn dead_functions_are_dropped_and_may_be_broken() {
    // "dead" calls a missing symbol — fine, it's unreachable.
    let a = obj(0x7E, &[("main", &[]), ("dead", &["missing"])]);
    let r = resolve(std::slice::from_ref(&a), &[], "main").unwrap();
    assert_eq!(r.order.len(), 1);
    assert_eq!(r.order[0].name, "main");
}

#[test]
fn reachable_unresolved_errors_sorted() {
    let a = obj(0x7E, &[("main", &["zeta", "alpha"])]);
    let e = resolve(std::slice::from_ref(&a), &[], "main").unwrap_err();
    assert_eq!(e, LinkError::Unresolved(vec!["alpha".into(), "zeta".into()]));
}

#[test]
fn libraries_resolve_lazily_and_users_shadow() {
    let user = obj(0x7E, &[("main", &["go"]), ("go", &[])]);
    let lib = obj(0x7E, &[("go", &[]), ("unused_pulls_nothing", &["ghost"])]);
    // user's `go` shadows the library's; the library's broken function
    // is never reached, so `ghost` doesn't error.
    let r = resolve(std::slice::from_ref(&user), std::slice::from_ref(&lib), "main").unwrap();
    let names: Vec<&str> = r.order.iter().map(|f| f.name.as_str()).collect();
    assert_eq!(names, vec!["main", "go"]);
    // dropped is name-level, post-shadowing: only the library function
    // nobody reaches is reported.
    assert_eq!(r.dropped, vec!["unused_pulls_nothing".to_string()]);

    let needy = obj(0x7E, &[("main", &["go"])]);
    let r2 = resolve(std::slice::from_ref(&needy), std::slice::from_ref(&lib), "main").unwrap();
    assert_eq!(r2.order.len(), 2); // library's go pulled in
    assert_eq!(r2.dropped, vec!["unused_pulls_nothing".to_string()]);
}

#[test]
fn duplicate_user_symbols_error_but_library_shadowing_does_not() {
    let a = obj(0x7E, &[("main", &[]), ("f", &[])]);
    let b = obj(0x7E, &[("f", &[])]);
    let e = resolve(&[a.clone(), b], &[], "main").unwrap_err();
    assert_eq!(e, LinkError::DuplicateSymbol("f".into()));
    let lib1 = obj(0x7E, &[("f", &[])]);
    let lib2 = obj(0x7E, &[("f", &[])]);
    assert!(resolve(std::slice::from_ref(&a), &[lib1, lib2], "main").is_ok()); // first-wins, silent
}

#[test]
fn no_main_and_arch_mismatch() {
    let a = obj(0x7E, &[("helper", &[])]);
    assert_eq!(
        resolve(std::slice::from_ref(&a), &[], "main").unwrap_err(),
        LinkError::NoEntrySymbol("main".into())
    );
    let b = obj(0x11, &[("main", &[])]);
    let mixed = [obj(0x7E, &[("x", &[])]), b];
    assert_eq!(
        resolve(&mixed, &[], "main").unwrap_err(),
        LinkError::ArchMismatch {
            expected: 0x7E,
            found: 0x11
        }
    );
}

/// Demote the named symbols to `Local` defs.
fn make_local(object: &mut ObjectFile, locals: &[&str]) {
    for s in &mut object.symbols {
        if locals.contains(&s.name.as_str()) {
            if let SymbolDef::Defined { blob } = s.def {
                s.def = SymbolDef::Local { blob };
            }
        }
    }
}

/// Like `obj`, but functions whose name is in `locals` get Local defs.
fn obj_with_locals(arch: u8, funcs: &[(&str, &[&str])], locals: &[&str]) -> ObjectFile {
    let mut o = obj(arch, funcs);
    make_local(&mut o, locals);
    o
}

/// Like `obj`, but every entry carries its build-variant tag and is one
/// blob, so a split function appears twice under one name. Bodies are
/// distinguishable: each carries one `0x01` filler per column (Normal 1,
/// Volatile 2, Both 3) right after its `ent`. Callee names bind
/// column-coherently.
fn variant_obj(arch: u8, funcs: &[(&str, BlobVariant, &[&str])]) -> ObjectFile {
    let fillers = |tag: BlobVariant| match tag {
        BlobVariant::Normal => 1,
        BlobVariant::Volatile => 2,
        BlobVariant::Both => 3,
    };
    let column_symbol = |name: &str, caller: BlobVariant| -> Option<usize> {
        let columns: Vec<usize> = funcs
            .iter()
            .enumerate()
            .filter(|(_, (n, _, _))| *n == name)
            .map(|(i, _)| i)
            .collect();
        match columns.len() {
            0 => None,
            1 => Some(columns[0]),
            _ => columns
                .iter()
                .find(|&&i| funcs[i].1 == caller)
                .or(columns.first())
                .copied(),
        }
    };
    let mut symbols: Vec<Symbol> = funcs
        .iter()
        .enumerate()
        .map(|(i, (n, _, _))| Symbol {
            name: (*n).into(),
            def: SymbolDef::Defined { blob: i as u32 },
        })
        .collect();
    let mut blobs = Vec::new();
    let mut relocations = Vec::new();
    for (bi, (_, tag, callees)) in funcs.iter().enumerate() {
        let mut blob = vec![0x0E];
        blob.resize(blob.len() + fillers(*tag), 0x01);
        for callee in *callees {
            let sym = column_symbol(callee, *tag).unwrap_or_else(|| {
                symbols.push(Symbol {
                    name: (*callee).into(),
                    def: SymbolDef::External,
                });
                symbols.len() - 1
            });
            blob.push(0x21);
            relocations.push(Relocation {
                blob: bi as u32,
                offset: blob.len() as u32,
                symbol: sym as u32,
            });
            blob.extend([0u8; 4]);
        }
        blob.push(0x02);
        blobs.push(blob);
    }
    let variants = funcs.iter().map(|&(_, tag, _)| tag).collect();
    let mut object = ObjectFile::v2(arch, symbols, blobs, relocations, None);
    object.variants = Some(variants);
    object
}

#[test]
fn locals_bind_directly_and_may_repeat_across_objects() {
    // Both objects define a LOCAL `helper`; each binds to its own.
    let a = obj_with_locals(0x7E, &[("main", &["helper", "api"]), ("helper", &[])], &["helper"]);
    let b = obj_with_locals(0x7E, &[("api", &["helper"]), ("helper", &[])], &["helper"]);
    let objs = [a, b];
    let r = resolve(&objs, &[], "main").unwrap();
    let names: Vec<&str> = r.order.iter().map(|f| f.name.as_str()).collect();
    // main, its own helper, api, api's own helper: BOTH helpers linked.
    assert_eq!(names, vec!["main", "helper", "api", "helper"]);
}

#[test]
fn foreign_locals_are_unresolvable_and_locals_never_shadow() {
    // Object B's `helper` is local; A's external ref must NOT see it.
    let a = obj(0x7E, &[("main", &["helper"])]);
    let b = obj_with_locals(0x7E, &[("helper", &[])], &["helper"]);
    let e = resolve(&[a, b], &[], "main").unwrap_err();
    assert_eq!(e, LinkError::Unresolved(vec!["helper".into()]));
}

#[test]
fn a_variant_pair_in_one_object_is_not_a_duplicate_symbol() {
    // main is built twice; the volatile column's blob is a distinct body,
    // tagged so the namespace can tell the two apart.
    let mut a = obj(0x7E, &[("main", &[]), ("main", &[])]);
    a.blobs[1].push(0x0E);
    a.variants = Some(vec![BlobVariant::Normal, BlobVariant::Volatile]);
    let r = resolve(std::slice::from_ref(&a), &[], "main").expect("a variant pair links");
    let names: Vec<&str> = r.order.iter().map(|f| f.name.as_str()).collect();
    assert_eq!(names, vec!["main"], "one definition reaches the image");
    assert_eq!(
        r.order[0].blob.as_slice(),
        a.blobs[0].as_slice(),
        "the normal column is the one linked"
    );

    // Without the tags the same shape stays a duplicate.
    let mut untagged = a.clone();
    untagged.variants = None;
    assert_eq!(
        resolve(std::slice::from_ref(&untagged), &[], "main").unwrap_err(),
        LinkError::DuplicateSymbol("main".into())
    );
}

#[test]
fn the_program_bit_selects_the_entry_column_and_its_call_graph() {
    let build = |program_volatile: bool| {
        let mut a = variant_obj(
            0x7E,
            &[
                ("main", BlobVariant::Normal, &["helper"][..]),
                ("main", BlobVariant::Volatile, &["helper"][..]),
                ("helper", BlobVariant::Normal, &[][..]),
                ("helper", BlobVariant::Volatile, &[][..]),
            ],
        );
        make_local(&mut a, &["helper"]);
        a.program_volatile = program_volatile;
        a
    };

    let volatile = build(true);
    let r = resolve(std::slice::from_ref(&volatile), &[], "main").unwrap();
    let linked: Vec<&[u8]> = r.order.iter().map(|f| f.blob.as_slice()).collect();
    assert_eq!(
        linked,
        vec![volatile.blobs[1].as_slice(), volatile.blobs[3].as_slice(),],
        "a volatile program enters the volatile main and reaches the volatile helper"
    );
    assert!(r.variant_fallbacks.is_empty(), "{:?}", r.variant_fallbacks);

    // The same object with the bit clear links the normal columns.
    let normal = build(false);
    let r = resolve(std::slice::from_ref(&normal), &[], "main").unwrap();
    let linked: Vec<&[u8]> = r.order.iter().map(|f| f.blob.as_slice()).collect();
    assert_eq!(linked, vec![normal.blobs[0].as_slice(), normal.blobs[2].as_slice()],);
    assert!(r.variant_fallbacks.is_empty(), "{:?}", r.variant_fallbacks);
}

#[test]
fn a_missing_column_falls_back_and_is_counted() {
    // A tag-free library is all-normal, so a volatile program takes its
    // normal column — visible in the report, never an error. The names
    // are sorted and each is named once however often it is referenced.
    let mut user = variant_obj(0x7E, &[("main", BlobVariant::Both, &["zeta", "alpha", "zeta"][..])]);
    user.program_volatile = true;
    let lib = obj(0x7E, &[("zeta", &[]), ("alpha", &[])]);
    assert!(lib.variants.is_none(), "the library is tag-free");
    let r = resolve(std::slice::from_ref(&user), std::slice::from_ref(&lib), "main").unwrap();
    assert_eq!(r.variant_fallbacks, vec!["alpha".to_string(), "zeta".to_string()]);

    // The same library in a normal program is no fallback at all.
    let mut plain = user.clone();
    plain.program_volatile = false;
    let r = resolve(std::slice::from_ref(&plain), std::slice::from_ref(&lib), "main").unwrap();
    assert!(r.variant_fallbacks.is_empty(), "{:?}", r.variant_fallbacks);
}

#[test]
fn an_unreached_missing_column_is_not_counted() {
    // `dead` is defined in the tag-free library and never reached, so it
    // is dropped, not a fallback.
    let mut user = variant_obj(0x7E, &[("main", BlobVariant::Volatile, &[][..])]);
    user.program_volatile = true;
    let lib = obj(0x7E, &[("dead", &[])]);
    let r = resolve(std::slice::from_ref(&user), std::slice::from_ref(&lib), "main").unwrap();
    assert!(r.variant_fallbacks.is_empty(), "{:?}", r.variant_fallbacks);
    assert_eq!(r.dropped, vec!["dead".to_string()]);
}

#[test]
fn a_fallback_entry_is_counted_too() {
    // A program bit with no volatile entry column to match.
    let mut a = variant_obj(0x7E, &[("main", BlobVariant::Normal, &[][..])]);
    a.program_volatile = true;
    let r = resolve(std::slice::from_ref(&a), &[], "main").unwrap();
    assert_eq!(r.order[0].blob.as_slice(), a.blobs[0].as_slice());
    assert_eq!(r.variant_fallbacks, vec!["main".to_string()]);
}

#[test]
fn a_both_column_serves_either_program_without_a_fallback() {
    for program_volatile in [false, true] {
        let mut a = variant_obj(
            0x7E,
            &[
                ("main", BlobVariant::Both, &["helper"][..]),
                ("helper", BlobVariant::Both, &[][..]),
            ],
        );
        a.program_volatile = program_volatile;
        let r = resolve(std::slice::from_ref(&a), &[], "main").unwrap();
        let linked: Vec<&[u8]> = r.order.iter().map(|f| f.blob.as_slice()).collect();
        assert_eq!(
            linked,
            vec![a.blobs[0].as_slice(), a.blobs[1].as_slice()],
            "the one deduped column serves both program kinds"
        );
        assert!(
            r.variant_fallbacks.is_empty(),
            "program_volatile = {program_volatile}: {:?}",
            r.variant_fallbacks
        );
    }
}

#[test]
fn only_a_normal_volatile_pair_shares_one_name_in_one_object() {
    for tags in [
        [BlobVariant::Normal, BlobVariant::Normal],
        [BlobVariant::Volatile, BlobVariant::Volatile],
        [BlobVariant::Both, BlobVariant::Both],
        [BlobVariant::Both, BlobVariant::Normal],
        [BlobVariant::Volatile, BlobVariant::Both],
    ] {
        let a = variant_obj(0x7E, &[("main", tags[0], &[][..]), ("main", tags[1], &[][..])]);
        assert_eq!(
            resolve(std::slice::from_ref(&a), &[], "main").unwrap_err(),
            LinkError::DuplicateSymbol("main".into()),
            "{tags:?} is not a legal column pair"
        );
    }
}

#[test]
fn a_shadowing_normal_only_pair_forces_a_counted_fallback() {
    // A name's pair is filled from ONE input and shadowing takes that
    // input's pair whole.
    let mut user = variant_obj(
        0x7E,
        &[
            ("main", BlobVariant::Normal, &["f"][..]),
            ("main", BlobVariant::Volatile, &["f"][..]),
            ("f", BlobVariant::Normal, &[][..]),
        ],
    );
    user.program_volatile = true;
    let lib = variant_obj(
        0x7E,
        &[
            ("f", BlobVariant::Normal, &[][..]),
            ("f", BlobVariant::Volatile, &[][..]),
        ],
    );
    let r = resolve(std::slice::from_ref(&user), std::slice::from_ref(&lib), "main").unwrap();
    assert_eq!(r.variant_fallbacks, vec!["f".to_string()]);
    let f = r.order.iter().find(|func| func.name == "f").expect("f is reached");
    assert_eq!(f.origin, 0, "the user object's column won, not the library's");
    assert_eq!(
        f.blob.as_slice(),
        user.blobs[2].as_slice(),
        "the shadowing normal body linked, not the library's volatile column"
    );

    // The same rule between two libraries: first-wins keeps the earlier
    // library's one-column pair whole.
    let mut caller = variant_obj(0x7E, &[("main", BlobVariant::Volatile, &["g"][..])]);
    caller.program_volatile = true;
    let first = variant_obj(0x7E, &[("g", BlobVariant::Normal, &[][..])]);
    let second = variant_obj(
        0x7E,
        &[
            ("g", BlobVariant::Normal, &[][..]),
            ("g", BlobVariant::Volatile, &[][..]),
        ],
    );
    let libs = [first, second];
    let r = resolve(std::slice::from_ref(&caller), &libs, "main").unwrap();
    assert_eq!(r.variant_fallbacks, vec!["g".to_string()]);
    let g = r.order.iter().find(|func| func.name == "g").expect("g is reached");
    assert_eq!(g.origin, 1, "the FIRST library won (origin = objects.len() + 0)");
}

#[test]
fn columns_of_one_name_never_span_two_objects() {
    let a = variant_obj(
        0x7E,
        &[
            ("main", BlobVariant::Normal, &[][..]),
            ("f", BlobVariant::Normal, &[][..]),
        ],
    );
    let b = variant_obj(0x7E, &[("f", BlobVariant::Volatile, &[][..])]);
    assert_eq!(
        resolve(&[a, b], &[], "main").unwrap_err(),
        LinkError::DuplicateSymbol("f".into())
    );
}

#[test]
fn local_and_global_same_name_coexist_without_duplicate_error() {
    // A exports `helper`; B has a LOCAL `helper` — no DuplicateSymbol, and
    // B's caller binds to B's own local, not A's export.
    let a = obj(0x7E, &[("main", &["api"]), ("helper", &[])]);
    let b = obj_with_locals(0x7E, &[("api", &["helper"]), ("helper", &[])], &["helper"]);
    let objs = [a, b];
    let r = resolve(&objs, &[], "main").unwrap();
    let api = r.order.iter().position(|f| f.name == "api").unwrap();
    let callee_idx = r.order[api].calls[0].1;
    assert_eq!(r.dropped, vec!["helper".to_string()]);
    assert!(callee_idx < r.order.len());
}

/// Add a bound-call site to `obj`'s blob 0, targeting `callee` by name.
fn push_bound(obj: &mut ObjectFile, offset: u32, callee: &str) {
    let symbol = obj.symbols.iter().position(|s| s.name == callee).unwrap_or_else(|| {
        obj.symbols.push(Symbol {
            name: callee.into(),
            def: SymbolDef::External,
        });
        obj.symbols.len() - 1
    }) as u32;
    obj.bound_calls.push(BoundCall {
        blob: 0,
        offset,
        symbol,
        binding: Vec::new(),
    });
}

#[test]
fn bound_callees_enter_reachability_and_are_not_dropped() {
    let mut a = obj(0x7E, &[("main", &[]), ("sub", &[])]);
    push_bound(&mut a, 1, "sub");
    let r = resolve(std::slice::from_ref(&a), &[], "main").unwrap();
    let names: Vec<&str> = r.order.iter().map(|f| f.name.as_str()).collect();
    assert_eq!(names, vec!["main", "sub"]);
    // hole at 1 -> order index 1, carrying the source record.
    let bound: Vec<(u32, usize)> = r.order[0].bound.iter().map(|&(o, i, _)| (o, i)).collect();
    assert_eq!(bound, vec![(1, 1)]);
    assert!(r.order[0].calls.is_empty());
    assert!(r.dropped.is_empty());
}

#[test]
fn entry_override_selects_a_different_root() {
    let a = obj(0x7E, &[("main", &[]), ("alt", &[])]);
    let r = resolve(std::slice::from_ref(&a), &[], "alt").unwrap();
    let names: Vec<&str> = r.order.iter().map(|f| f.name.as_str()).collect();
    assert_eq!(names, vec!["alt"]);
    assert_eq!(r.dropped, vec!["main".to_string()]);
}

#[test]
fn unresolved_bound_callee_joins_the_unresolved_error() {
    let mut a = obj(0x7E, &[("main", &[])]);
    push_bound(&mut a, 1, "ghost");
    let e = resolve(std::slice::from_ref(&a), &[], "main").unwrap_err();
    assert_eq!(e, LinkError::Unresolved(vec!["ghost".into()]));
}

#[test]
fn missing_entry_symbol_is_named() {
    let a = obj(0x7E, &[("main", &[])]);
    let e = resolve(std::slice::from_ref(&a), &[], "start").unwrap_err();
    assert_eq!(e, LinkError::NoEntrySymbol("start".into()));
}

#[test]
fn resolve_names_reports_reached_with_provenance_and_dropped() {
    let a = obj(0x7E, &[("main", &["lib_fn"]), ("helper", &[])]);
    let lib = obj(0x7E, &[("lib_fn", &[])]);
    let names = resolve_names(std::slice::from_ref(&a), std::slice::from_ref(&lib), "main").unwrap();
    assert_eq!(
        names,
        ResolvedNames {
            reached: vec![
                ResolvedName {
                    name: "main".into(),
                    origin: SymbolOrigin::Object(0),
                },
                ResolvedName {
                    name: "lib_fn".into(),
                    origin: SymbolOrigin::Library(0),
                },
            ],
            dropped: vec!["helper".to_string()],
        }
    );
}

#[test]
fn resolve_names_user_definition_shadows_library() {
    let a = obj(0x7E, &[("main", &["dup"]), ("dup", &[])]);
    let lib = obj(0x7E, &[("dup", &[])]);
    let names = resolve_names(std::slice::from_ref(&a), std::slice::from_ref(&lib), "main").unwrap();
    let dup = names.reached.iter().find(|r| r.name == "dup").expect("dup is reached");
    assert_eq!(dup.origin, SymbolOrigin::Object(0));
}

#[test]
fn resolve_names_reachable_unresolved_is_an_error() {
    let a = obj(0x7E, &[("main", &["ghost"])]);
    let e = resolve_names(std::slice::from_ref(&a), &[], "main").unwrap_err();
    assert_eq!(e, LinkError::Unresolved(vec!["ghost".into()]));
}

#[test]
fn resolve_names_dead_code_may_be_broken() {
    let a = obj(0x7E, &[("main", &[]), ("dead", &["ghost"])]);
    let names = resolve_names(std::slice::from_ref(&a), &[], "main").unwrap();
    assert_eq!(
        names,
        ResolvedNames {
            reached: vec![ResolvedName {
                name: "main".into(),
                origin: SymbolOrigin::Object(0),
            }],
            dropped: vec!["dead".to_string()],
        }
    );
}
