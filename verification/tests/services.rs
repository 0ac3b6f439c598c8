use tapecore::diagnostics::{Pos, Span};
use tapecore::lsp::position::{pack_semantic_tokens, SemToken};
use tapecore::lsp::services::{
    bind_service, merge_legend, merge_trigger_characters, merge_watched_globs, pos_to_position_identity, remap_token,
    span_to_range_identity,
};
use tapecore::lsp::types::{Position, Range};

fn strings(items: &[&str]) -> Vec<String> {
    items.iter().map(|s| s.to_string()).collect()
}

fn two_services() -> Vec<(String, Vec<String>)> {
    vec![
        ("fake".to_string(), strings(&[".fake"])),
        ("fake2".to_string(), strings(&[".f2"])),
    ]
}

fn token(token_type: u32, modifiers: u32) -> SemToken {
    SemToken {
        span: Span {
            start: Pos { line: 1, col: 1 },
            end: Pos { line: 1, col: 3 },
        },
        token_type,
        modifiers,
    }
}

#[test]
fn trigger_characters_are_unioned_in_first_seen_order() {
    let merged = merge_trigger_characters(&vec![strings(&["."]), strings(&["@", "."])]);
    assert_eq!(merged, strings(&[".", "@"]));
}

#[test]
fn a_lone_service_keeps_its_trigger_characters() {
    let merged = merge_trigger_characters(&vec![strings(&["(", ",", "("])]);
    assert_eq!(merged, strings(&["(", ","]));
    assert!(merge_trigger_characters(&vec![]).is_empty());
}

#[test]
fn watched_globs_are_unioned() {
    let merged = merge_watched_globs(&vec![strings(&["**/fake.json"]), strings(&["**/fake2.json", "**/fake.json"])]);
    assert_eq!(merged, strings(&["**/fake.json", "**/fake2.json"]));
}

#[test]
fn legend_concatenates_types_and_unions_modifiers() {
    let legends = vec![
        (strings(&["function"]), strings(&["declaration"])),
        (strings(&["kw", "function"]), strings(&["deprecated", "declaration"])),
    ];
    let merged = merge_legend(&legends);
    assert_eq!(merged.token_types, strings(&["function", "kw", "function"]));
    assert_eq!(merged.token_modifiers, strings(&["declaration", "deprecated"]));
    assert_eq!(merged.type_offsets, vec![0, 1]);
    assert_eq!(merged.modifier_maps, vec![vec![0], vec![1, 0]]);
}

#[test]
fn second_service_token_moves_up_by_its_offset_and_bit() {
    let moved = remap_token(token(0, 0b1), 1, &[1, 0]);
    assert_eq!(moved.token_type, 1);
    assert_eq!(moved.modifiers, 0b10);
    assert_eq!(moved.span, token(0, 0).span);
}

#[test]
fn higher_local_bit_can_land_on_a_lower_merged_bit() {
    let moved = remap_token(token(0, 0b10), 1, &[1, 0]);
    assert_eq!(moved.token_type, 1);
    assert_eq!(moved.modifiers, 0b1);
    let both = remap_token(token(2, 0b11), 0, &[1, 0]);
    assert_eq!(both.token_type, 2);
    assert_eq!(both.modifiers, 0b11);
}

#[test]
fn undeclared_modifier_bit_is_dropped() {
    let moved = remap_token(token(0, 0b101), 3, &[4]);
    assert_eq!(moved.token_type, 3);
    assert_eq!(moved.modifiers, 0b1_0000);
}

#[test]
fn identity_maps_leave_a_token_as_it_is() {
    let t = token(5, 0b110);
    assert_eq!(remap_token(t, 0, &[0, 1, 2]), t);
}

#[test]
fn language_id_binds_first() {
    let services = two_services();
    assert_eq!(bind_service(&services, "file:///b.f2", "fake2"), 1);
    assert_eq!(bind_service(&services, "file:///a.f2", "fake"), 0);
}

#[test]
fn unclaimed_document_binds_to_the_first_service() {
    let services = two_services();
    assert_eq!(bind_service(&services, "file:///x.unknown", "plaintext"), 0);
    assert_eq!(bind_service(&vec![], "file:///x.unknown", "plaintext"), 0);
}

#[test]
fn identity_conversion_subtracts_one_and_stops_at_zero() {
    assert_eq!(pos_to_position_identity(Pos { line: 3, col: 7 }), Position { line: 2, character: 6 });
    assert_eq!(pos_to_position_identity(Pos { line: 0, col: 0 }), Position { line: 0, character: 0 });
    let range = span_to_range_identity(Span {
        start: Pos { line: 1, col: 1 },
        end: Pos { line: 2, col: 5 },
    });
    assert_eq!(
        range,
        Range {
            start: Position { line: 0, character: 0 },
            end: Position { line: 1, character: 4 },
        }
    );
}

#[test]
fn single_service_capabilities_are_its_own() {
    let legend = (strings(&["function", "kw"]), strings(&["declaration", "deprecated"]));
    let merged = merge_legend(&vec![legend.clone()]);
    assert_eq!(merged.token_types, legend.0);
    assert_eq!(merged.token_modifiers, legend.1);
    assert_eq!(merged.type_offsets, vec![0]);
    assert_eq!(merged.modifier_maps, vec![vec![0, 1]]);
    let triggers = strings(&[".", ":"]);
    assert_eq!(merge_trigger_characters(&vec![triggers.clone()]), triggers);
    let t = token(1, 0b11);
    assert_eq!(remap_token(t, merged.type_offsets[0], &merged.modifier_maps[0]), t);
}

fn fake_pair_legends() -> Vec<(Vec<String>, Vec<String>)> {
    vec![
        (strings(&["function"]), strings(&["declaration"])),
        (strings(&["kw", "function"]), strings(&["deprecated", "declaration"])),
    ]
}

#[test]
fn initialize_merges_trigger_characters_and_the_token_legend() {
    assert_eq!(
        merge_trigger_characters(&vec![strings(&["."]), strings(&[".", "@"])]),
        strings(&[".", "@"])
    );
    let merged = merge_legend(&fake_pair_legends());
    assert_eq!(merged.token_types, strings(&["function", "kw", "function"]));
    assert_eq!(merged.token_modifiers, strings(&["declaration", "deprecated"]));
}

#[test]
fn initialized_registers_the_union_of_watched_globs() {
    assert_eq!(
        merge_watched_globs(&vec![strings(&["**/fake.json"]), strings(&["**/fake2.json"])]),
        strings(&["**/fake.json", "**/fake2.json"])
    );
}

#[test]
fn semantic_tokens_from_the_second_service_are_remapped_on_the_wire() {
    let merged = merge_legend(&fake_pair_legends());
    let local = SemToken { span: Span::new(1, 1, 1, 3), token_type: 0, modifiers: 0b1 };
    let moved = remap_token(local, merged.type_offsets[1], &merged.modifier_maps[1]);
    assert_eq!(pack_semantic_tokens("kw", &[moved]), vec![0, 0, 2, 1, 2]);
}

#[test]
fn semantic_tokens_local_declaration_bit_remaps_down_to_merged_bit_zero() {
    let merged = merge_legend(&fake_pair_legends());
    assert_eq!(merged.modifier_maps[1], vec![1, 0]);
    let local = SemToken { span: Span::new(1, 1, 1, 4), token_type: 0, modifiers: 0b10 };
    let moved = remap_token(local, merged.type_offsets[1], &merged.modifier_maps[1]);
    assert_eq!(pack_semantic_tokens("old", &[moved]), vec![0, 0, 3, 1, 1]);
}

#[test]
fn unknown_language_id_falls_back_to_the_extension_binding() {
    assert_eq!(bind_service(&two_services(), "file:///foo.f2", "plaintext"), 1);
}

#[test]
fn unmatched_language_id_and_extension_falls_back_to_service_zero() {
    assert_eq!(bind_service(&two_services(), "file:///x.unknown", "plaintext"), 0);
}

#[test]
fn uppercase_uri_extension_falls_back_to_the_extension_binding() {
    assert_eq!(bind_service(&two_services(), "file:///FOO.F2", "plaintext"), 1);
}

#[test]
fn two_did_opens_route_did_update_to_the_bound_service() {
    let services = two_services();
    assert_eq!(bind_service(&services, "file:///a.fake", "fake"), 0);
    assert_eq!(bind_service(&services, "file:///b.f2", "fake2"), 1);
}
