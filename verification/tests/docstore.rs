use tapecore::lsp::docstore::DocStore;

#[test]
fn test_open_and_get() {
    let mut store = DocStore::new();
    store.open("file:///a.pmc", 1, "let x = 5;".to_string());
    let doc = store.get("file:///a.pmc");
    assert!(doc.is_some());
    let doc = doc.unwrap();
    assert_eq!(doc.version, 1);
    assert_eq!(doc.text, "let x = 5;");
}

#[test]
fn test_change_replaces_text_and_version() {
    let mut store = DocStore::new();
    store.open("file:///a.pmc", 1, "old".to_string());
    store.change("file:///a.pmc", 2, "new".to_string());
    let doc = store.get("file:///a.pmc").unwrap();
    assert_eq!(doc.version, 2);
    assert_eq!(doc.text, "new");
}

#[test]
fn test_close_removes_document() {
    let mut store = DocStore::new();
    store.open("file:///a.pmc", 1, "text".to_string());
    assert!(store.get("file:///a.pmc").is_some());
    store.close("file:///a.pmc");
    assert!(store.get("file:///a.pmc").is_none());
}

#[test]
fn test_uris_sorted() {
    let mut store = DocStore::new();
    store.open("file:///c.pmc", 1, "".to_string());
    store.open("file:///a.pmc", 1, "".to_string());
    store.open("file:///b.pmc", 1, "".to_string());
    let uris = store.uris();
    assert_eq!(uris, vec!["file:///a.pmc", "file:///b.pmc", "file:///c.pmc"]);
}

#[test]
fn test_change_on_unknown_uri_is_noop() {
    let mut store = DocStore::new();
    store.open("file:///a.pmc", 1, "text".to_string());
    store.change("file:///unknown.pmc", 99, "new".to_string());
    assert_eq!(store.get("file:///a.pmc").unwrap().version, 1);
    assert_eq!(store.get("file:///a.pmc").unwrap().text, "text");
    assert!(store.get("file:///unknown.pmc").is_none());
}

#[test]
fn reopening_replaces_without_duplicating() {
    let mut store = DocStore::new();
    store.open("file:///b", 1, "one".to_string());
    store.open("file:///a", 1, "x".to_string());
    store.open("file:///b", 7, "two".to_string());
    assert_eq!(store.uris(), vec!["file:///a", "file:///b"]);
    assert_eq!(store.get("file:///b").unwrap().version, 7);
    assert_eq!(store.get("file:///b").unwrap().text, "two");
    store.close("file:///zzz");
    assert_eq!(store.uris().len(), 2);
    store.close("file:///a");
    assert_eq!(store.uris(), vec!["file:///b"]);
}
