use tapecore::source_path::{fold_parts, lexical_absolute, relative_parts, relative_to, PathPart};

fn normal(s: &str) -> PathPart {
    PathPart::Normal(s.to_string())
}

#[test]
fn absolute_input_is_folded_not_reanchored() {
    assert_eq!(lexical_absolute("/anchor", "/a/b/../c/./d"), "/a/c/d");
}

#[test]
fn relative_input_joins_the_base() {
    assert_eq!(lexical_absolute("/work/out", "../src/main.pmc"), "/work/src/main.pmc");
}

#[test]
fn parent_past_root_is_dropped() {
    assert_eq!(lexical_absolute("/", "../../x"), "/x");
}

#[test]
fn rootless_base_keeps_leading_parents() {
    assert_eq!(lexical_absolute("..", "x/../y"), "../y");
}

#[test]
fn relative_to_sibling_directory() {
    assert_eq!(relative_to("/work/out", "/work/src/main.pmc"), Some("../src/main.pmc".to_string()));
}

#[test]
fn relative_to_same_directory() {
    assert_eq!(relative_to("/work", "/work/main.pmc"), Some("main.pmc".to_string()));
}

#[test]
fn relative_to_the_directory_itself_is_dot() {
    assert_eq!(relative_to("/work", "/work"), Some(".".to_string()));
}

#[test]
fn no_common_root_is_none() {
    assert_eq!(relative_to("rel/base", "/abs"), None);
}

#[test]
fn round_trip_recovers_the_source() {
    let map_dir = "/proj/build";
    let source = "/proj/src/a.pmc";
    let stored = relative_to(map_dir, source).unwrap();
    assert_eq!(lexical_absolute(map_dir, &stored), source);
}

#[test]
fn folding_drops_dots_and_takes_back_names() {
    let parts = vec![PathPart::RootDir, normal("a"), PathPart::CurDir, normal("b"), PathPart::ParentDir, normal("c")];
    assert_eq!(fold_parts(&parts), vec![PathPart::RootDir, normal("a"), normal("c")]);
    let climbing = vec![PathPart::ParentDir, normal("x"), PathPart::ParentDir, PathPart::ParentDir];
    assert_eq!(fold_parts(&climbing), vec![PathPart::ParentDir, PathPart::ParentDir]);
    let rooted = vec![PathPart::RootDir, PathPart::ParentDir, normal("x")];
    assert_eq!(fold_parts(&rooted), vec![PathPart::RootDir, normal("x")]);
}

#[test]
fn the_relative_walk_climbs_then_descends() {
    let base = vec![PathPart::RootDir, normal("w"), normal("out"), normal("deep")];
    let target = vec![PathPart::RootDir, normal("w"), normal("src")];
    assert_eq!(
        relative_parts(&base, &target),
        Some(vec![PathPart::ParentDir, PathPart::ParentDir, normal("src")])
    );
    assert_eq!(relative_parts(&target, &target), Some(vec![PathPart::CurDir]));
    assert_eq!(relative_parts(&[normal("a")], &[PathPart::RootDir]), None);
    let mut resolved = base.clone();
    resolved.extend(relative_parts(&base, &target).unwrap());
    assert_eq!(fold_parts(&resolved), target);
}
