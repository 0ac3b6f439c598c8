use tapecore::linker::{CallMech, LinkError, LinkOptions};

#[test]
fn link_errors_render_their_messages() {
    assert_eq!(LinkError::DuplicateSymbol("f".to_string()).message(), "duplicate symbol: f");
    assert_eq!(
        LinkError::Unresolved(vec!["a".to_string(), "b".to_string(), "c".to_string()]).message(),
        "unresolved symbols: a, b, c"
    );
    assert_eq!(LinkError::Unresolved(vec![]).message(), "unresolved symbols: ");
    assert_eq!(LinkError::NoEntrySymbol("main".to_string()).message(), "no `main` entry symbol");
    assert_eq!(
        LinkError::ArchMismatch { expected: 1, found: 0xab }.message(),
        "architecture mismatch: expected 0x01, found 0xab"
    );
    assert_eq!(
        LinkError::MalformedBlob { symbol: "g".to_string(), at: 1207 }.message(),
        "malformed blob for `g` at offset 1207"
    );
    assert_eq!(
        LinkError::MalformedTable { symbol: "g".to_string(), at: 0 }.message(),
        "malformed table data for `g` at table offset 0"
    );
    assert_eq!(
        LinkError::MissingSignature("main".to_string()).message(),
        "entry function `main` has no routine signature to fill the sectioned executable header"
    );
    assert_eq!(
        LinkError::UnsupportedCallMech(CallMech::Mono).message(),
        "the mono call mechanism is not implemented yet (it lands with the stamping engine)"
    );
    assert_eq!(
        LinkError::MonoHoleyMatchBranch("h".to_string()).message(),
        "a holey binding needs `h`'s match tables consumed by dispatch jumps, but `h` reads a match result through a conditional branch; the synthesized unmapped-read trap rows would misroute — build with --call-mech=frames"
    );
}

#[test]
fn mechanism_names_and_default_options() {
    assert_eq!(CallMech::Frames.name(), "frames");
    assert_eq!(CallMech::default_mech(), CallMech::Hybrid);
    let o = LinkOptions::default();
    assert!(o.relax);
    assert_eq!(o.entry, None);
    assert_eq!(o.call_mech, CallMech::Hybrid);
    assert!(o.sources.is_empty());
}
