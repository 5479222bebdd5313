use pass_store::errors::ReencryptError;
use pass_store::model::Store;

fn path(segments: &[&str]) -> Vec<String> {
    segments.iter().map(|s| s.to_string()).collect()
}

#[test]
fn partial_reencryption_stops_at_first_failure() {
    let mut store = Store::new();
    store.init(vec!["old-key".to_string()], &path(&[]));
    store.commit_add(&path(&["one"]), b"old-1".to_vec());
    store.commit_add(&path(&["two"]), b"old-2".to_vec());
    store.commit_add(&path(&["three"]), b"old-3".to_vec());

    store.init(vec!["new-key".to_string()], &path(&[]));
    let mut session = store.begin_reencrypt(&path(&[])).unwrap();
    assert_eq!(session.recipients, vec!["new-key".to_string()]);

    // First entry converts.
    assert_eq!(session.current().unwrap(), path(&["one"]));
    session.step_converted(&mut store, b"new-1".to_vec());

    // Second entry fails to decrypt; the run stops.
    assert_eq!(session.current().unwrap(), path(&["two"]));
    session.step_failed("decryption failed".to_string());

    // The third entry is never offered.
    assert_eq!(session.current(), None);

    match session.finish() {
        Err(ReencryptError::StepFailed { path: failed, cause }) => {
            assert_eq!(failed, path(&["two"]));
            assert_eq!(cause, "decryption failed");
        }
        other => panic!("expected a step failure, got {:?}", other.is_ok()),
    }

    // Entry one stays converted, entries two and three keep their old
    // ciphertext.
    assert_eq!(store.read(&path(&["one"])).unwrap(), b"new-1".to_vec());
    assert_eq!(store.read(&path(&["two"])).unwrap(), b"old-2".to_vec());
    assert_eq!(store.read(&path(&["three"])).unwrap(), b"old-3".to_vec());
}

#[test]
fn full_reencryption_reports_every_entry_in_depth_first_order() {
    let mut store = Store::new();
    store.init(vec!["key".to_string()], &path(&[]));
    store.commit_add(&path(&["a", "inner"]), b"ct-a".to_vec());
    store.commit_add(&path(&["top"]), b"ct-top".to_vec());

    let mut session = store.begin_reencrypt(&path(&[])).unwrap();
    let mut converted_bytes = 0u8;
    while let Some(_) = session.current() {
        converted_bytes += 1;
        session.step_converted(&mut store, vec![converted_bytes]);
    }
    let report = session.finish().unwrap();
    assert_eq!(report.converted, vec![path(&["a", "inner"]), path(&["top"])]);
    assert_eq!(store.read(&path(&["a", "inner"])).unwrap(), vec![1]);
    assert_eq!(store.read(&path(&["top"])).unwrap(), vec![2]);
}

#[test]
fn reencryption_scopes_to_the_subtree() {
    let mut store = Store::new();
    store.init(vec!["key".to_string()], &path(&[]));
    store.commit_add(&path(&["in", "x"]), b"inside".to_vec());
    store.commit_add(&path(&["out"]), b"outside".to_vec());

    let mut session = store.begin_reencrypt(&path(&["in"])).unwrap();
    assert_eq!(session.current().unwrap(), path(&["in", "x"]));
    session.step_converted(&mut store, b"inside-new".to_vec());
    assert_eq!(session.current(), None);
    let report = session.finish().unwrap();
    assert_eq!(report.converted, vec![path(&["in", "x"])]);
    assert_eq!(store.read(&path(&["out"])).unwrap(), b"outside".to_vec());
}

#[test]
fn reencryption_without_recipients_fails_not_initialized() {
    let store = Store::new();
    assert!(matches!(
        store.begin_reencrypt(&path(&[])),
        Err(ReencryptError::NotInitialized)
    ));

    let mut blank = Store::new();
    blank.init(vec!["   ".to_string()], &path(&[]));
    assert!(matches!(
        blank.begin_reencrypt(&path(&[])),
        Err(ReencryptError::NotInitialized)
    ));
}

// A backend whose ciphertext differs between runs: a run marker byte,
// then the plaintext. Decryption drops the marker.
fn enc(run: u8, plaintext: &[u8]) -> Vec<u8> {
    let mut ct = vec![run];
    ct.extend_from_slice(plaintext);
    ct
}

fn dec(ciphertext: &[u8]) -> Vec<u8> {
    ciphertext[1..].to_vec()
}

#[test]
fn repeated_reencryption_keeps_plaintext_even_when_ciphertext_differs() {
    let mut store = Store::new();
    store.init(vec!["key".to_string()], &path(&[]));
    store.commit_add(&path(&["a"]), enc(0, b"alpha"));
    store.commit_add(&path(&["b"]), enc(0, b"beta"));

    for run in [1u8, 2u8] {
        let mut session = store.begin_reencrypt(&path(&[])).unwrap();
        while let Some(name) = session.current() {
            let plaintext = dec(&store.read(&name).unwrap());
            session.step_converted(&mut store, enc(run, &plaintext));
        }
        session.finish().unwrap();
    }

    assert_ne!(store.read(&path(&["a"])).unwrap(), enc(1, b"alpha"));
    assert_eq!(dec(&store.read(&path(&["a"])).unwrap()), b"alpha".to_vec());
    assert_eq!(dec(&store.read(&path(&["b"])).unwrap()), b"beta".to_vec());
}
