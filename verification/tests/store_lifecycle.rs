use pass_store::errors::LifecycleError;
use pass_store::model::Store;

fn path(segments: &[&str]) -> Vec<String> {
    segments.iter().map(|s| s.to_string()).collect()
}

#[test]
fn deinit_without_recipient_file_fails_and_changes_nothing() {
    let mut store = Store::new();
    store.init(vec!["alice".to_string()], &path(&[]));
    store.commit_add(&path(&["keep", "me"]), b"ct".to_vec());
    let before = store.render();

    assert!(matches!(
        store.deinit(&path(&["keep"])),
        Err(LifecycleError::NotInitialized)
    ));

    assert_eq!(store.render(), before);
    assert_eq!(store.read(&path(&["keep", "me"])).unwrap(), b"ct".to_vec());
    assert_eq!(store.resolve(&path(&["keep"])).unwrap(), vec!["alice".to_string()]);
}

#[test]
fn init_then_deinit_on_empty_subfolder_leaves_no_residue() {
    let mut store = Store::new();
    store.init(vec!["root-id".to_string()], &path(&[]));
    let before = store.render();

    store.init(vec!["sub-id".to_string()], &path(&["team"]));
    assert_eq!(store.resolve(&path(&["team"])).unwrap(), vec!["sub-id".to_string()]);

    assert!(store.deinit(&path(&["team"])).is_ok());
    assert_eq!(store.render(), before);
    assert_eq!(store.resolve(&path(&["team"])).unwrap(), vec!["root-id".to_string()]);
}

#[test]
fn init_replaces_an_existing_recipient_file() {
    let mut store = Store::new();
    store.init(vec!["old".to_string()], &path(&[]));
    store.init(vec!["new-one".to_string(), "new-two".to_string()], &path(&[]));
    assert_eq!(
        store.resolve(&path(&[])).unwrap(),
        vec!["new-one".to_string(), "new-two".to_string()]
    );
}

#[test]
fn deinit_keeps_a_subfolder_that_still_has_entries() {
    let mut store = Store::new();
    store.init(vec!["root-id".to_string()], &path(&[]));
    store.init(vec!["sub-id".to_string()], &path(&["team"]));
    store.commit_add(&path(&["team", "secret"]), b"ct".to_vec());

    assert!(store.deinit(&path(&["team"])).is_ok());
    assert_eq!(store.read(&path(&["team", "secret"])).unwrap(), b"ct".to_vec());
    assert_eq!(
        store.resolve(&path(&["team"])).unwrap(),
        vec!["root-id".to_string()]
    );
}

#[test]
fn deinit_at_the_root_removes_its_recipient_file() {
    let mut store = Store::new();
    store.init(vec!["root-id".to_string()], &path(&[]));
    assert!(store.deinit(&path(&[])).is_ok());
    assert!(store.resolve(&path(&[])).is_err());
    assert!(matches!(
        store.deinit(&path(&[])),
        Err(LifecycleError::NotInitialized)
    ));
}

#[test]
fn signing_failure_surfaces_with_its_message() {
    assert!(pass_store::lifecycle::complete_signing(Ok(())).is_ok());
    match pass_store::lifecycle::complete_signing(Err("no secret key".to_string())) {
        Err(LifecycleError::BackendFailure(msg)) => assert_eq!(msg, "no secret key"),
        _ => panic!("expected a backend failure"),
    }
}
