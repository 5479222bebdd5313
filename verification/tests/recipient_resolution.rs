use pass_store::errors::ResolveError;
use pass_store::model::Store;

fn path(segments: &[&str]) -> Vec<String> {
    segments.iter().map(|s| s.to_string()).collect()
}

#[test]
fn nearest_enclosing_recipient_file_wins() {
    let mut store = Store::new();
    store.init(vec!["id-a".to_string()], &path(&["a"]));
    store.init(vec!["id-c".to_string()], &path(&["a", "b", "c"]));

    assert_eq!(
        store.resolve(&path(&["a", "b"])).unwrap(),
        vec!["id-a".to_string()]
    );
    assert_eq!(
        store.resolve(&path(&["a", "b", "c"])).unwrap(),
        vec!["id-c".to_string()]
    );
    assert_eq!(
        store.resolve(&path(&["a"])).unwrap(),
        vec!["id-a".to_string()]
    );
}

#[test]
fn resolution_fails_when_no_recipient_file_on_path() {
    let mut store = Store::new();
    store.init(vec!["id-a".to_string()], &path(&["a"]));
    assert_eq!(
        store.resolve(&path(&["b"])),
        Err(ResolveError::NotInitialized)
    );
    assert_eq!(store.resolve(&path(&[])), Err(ResolveError::NotInitialized));
}

#[test]
fn resolution_trims_lines_and_drops_blank_ones() {
    let mut store = Store::new();
    store.init(
        vec![
            "  alice  ".to_string(),
            "".to_string(),
            "\t".to_string(),
            "bob".to_string(),
            "alice".to_string(),
        ],
        &path(&[]),
    );
    assert_eq!(
        store.resolve(&path(&[])).unwrap(),
        vec!["alice".to_string(), "bob".to_string(), "alice".to_string()]
    );
}

#[test]
fn deeper_directories_inherit_from_the_root() {
    let mut store = Store::new();
    store.init(vec!["root-id".to_string()], &path(&[]));
    assert_eq!(
        store.resolve(&path(&["x", "y", "z"])).unwrap(),
        vec!["root-id".to_string()]
    );
}
