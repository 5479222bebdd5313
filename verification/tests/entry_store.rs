use pass_store::errors::EntryError;
use pass_store::model::Store;

fn path(segments: &[&str]) -> Vec<String> {
    segments.iter().map(|s| s.to_string()).collect()
}

/// A deterministic stand-in for the encryption backend: the recipient
/// list length, then one length-prefixed recipient line, then the
/// plaintext.
fn fake_encrypt(plaintext: &[u8], recipients: &[String]) -> Vec<u8> {
    let mut ct = Vec::new();
    ct.push(recipients.len() as u8);
    for r in recipients {
        ct.push(r.len() as u8);
        ct.extend_from_slice(r.as_bytes());
    }
    ct.extend_from_slice(plaintext);
    ct
}

fn fake_decrypt(ciphertext: &[u8]) -> Vec<u8> {
    let n = ciphertext[0] as usize;
    let mut at = 1;
    for _ in 0..n {
        at += 1 + ciphertext[at] as usize;
    }
    ciphertext[at..].to_vec()
}

#[test]
fn add_then_read_returns_plaintext_unchanged() {
    let mut store = Store::new();
    store.init(vec!["alice".to_string()], &path(&[]));
    let name = path(&["bank", "chase"]);
    let plaintext = b"hunter2\nsecond line".to_vec();

    let recipients = store.prepare_add(&name, true).unwrap();
    assert_eq!(recipients, vec!["alice".to_string()]);
    let ciphertext = fake_encrypt(&plaintext, &recipients);
    store.commit_add(&name, ciphertext);

    let back = store.read(&name).unwrap();
    assert_eq!(fake_decrypt(&back), plaintext);
}

#[test]
fn add_without_overwrite_fails_on_existing_entry() {
    let mut store = Store::new();
    store.init(vec!["alice".to_string()], &path(&[]));
    let name = path(&["mail"]);
    store.commit_add(&name, b"ct-one".to_vec());
    assert!(matches!(
        store.prepare_add(&name, false),
        Err(EntryError::AlreadyExists)
    ));
    let recipients = store.prepare_add(&name, true).unwrap();
    assert_eq!(recipients, vec!["alice".to_string()]);
}

#[test]
fn add_fails_not_initialized_without_recipient_file() {
    let store = Store::new();
    assert!(matches!(
        store.prepare_add(&path(&["a"]), true),
        Err(EntryError::NotInitialized)
    ));
}

#[test]
fn read_missing_entry_fails_not_found() {
    let store = Store::new();
    assert!(matches!(
        store.read(&path(&["nope"])),
        Err(EntryError::NotFound)
    ));
}

#[test]
fn overwrite_replaces_ciphertext() {
    let mut store = Store::new();
    store.init(vec!["alice".to_string()], &path(&[]));
    let name = path(&["site"]);
    store.commit_add(&name, b"old".to_vec());
    store.commit_add(&name, b"new".to_vec());
    assert_eq!(store.read(&name).unwrap(), b"new".to_vec());
}

#[test]
fn remove_deletes_exactly_one_entry() {
    let mut store = Store::new();
    store.init(vec!["alice".to_string()], &path(&[]));
    store.commit_add(&path(&["a", "x"]), b"one".to_vec());
    store.commit_add(&path(&["a", "y"]), b"two".to_vec());
    assert!(store.remove(&path(&["a", "x"])).is_ok());
    assert!(matches!(
        store.read(&path(&["a", "x"])),
        Err(EntryError::NotFound)
    ));
    assert_eq!(store.read(&path(&["a", "y"])).unwrap(), b"two".to_vec());
}

#[test]
fn remove_missing_entry_fails_not_found() {
    let mut store = Store::new();
    assert!(matches!(
        store.remove(&path(&["ghost"])),
        Err(EntryError::NotFound)
    ));
}

#[test]
fn contains_entry_tracks_adds() {
    let mut store = Store::new();
    store.init(vec!["alice".to_string()], &path(&[]));
    let name = path(&["deep", "down", "here"]);
    assert!(!store.contains_entry(&name));
    store.commit_add(&name, b"ct".to_vec());
    assert!(store.contains_entry(&name));
    assert!(!store.contains_entry(&path(&["deep", "down"])));
}

#[test]
fn backend_failure_surfaces_with_its_message() {
    let ok = pass_store::entry_ops::complete_read(Ok(b"plain".to_vec()));
    assert_eq!(ok.unwrap(), b"plain".to_vec());
    match pass_store::entry_ops::complete_read(Err("gpg exited with status 2".to_string())) {
        Err(EntryError::BackendFailure(msg)) => assert_eq!(msg, "gpg exited with status 2"),
        _ => panic!("expected a backend failure"),
    }
}
