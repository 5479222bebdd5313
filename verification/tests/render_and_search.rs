use pass_store::errors::SearchError;
use pass_store::model::Store;
use pass_store::render::TreeLine;

fn path(segments: &[&str]) -> Vec<String> {
    segments.iter().map(|s| s.to_string()).collect()
}

fn terms(words: &[&str]) -> Vec<String> {
    words.iter().map(|s| s.to_string()).collect()
}

fn lines(pairs: &[(usize, &str)]) -> Vec<TreeLine> {
    pairs
        .iter()
        .map(|(depth, label)| TreeLine { depth: *depth, label: label.to_string() })
        .collect()
}

fn sample_store() -> Store {
    let mut store = Store::new();
    store.init(vec!["alice".to_string()], &path(&[]));
    store.commit_add(&path(&["bank", "chase"]), b"ct1".to_vec());
    store.commit_add(&path(&["email", "work"]), b"ct2".to_vec());
    store.commit_add(&path(&["misc"]), b"ct3".to_vec());
    store
}

#[test]
fn render_lists_every_visible_node_with_depth() {
    let store = sample_store();
    assert_eq!(
        store.render(),
        lines(&[(0, "bank"), (1, "chase"), (0, "email"), (1, "work"), (0, "misc")])
    );
}

#[test]
fn render_twice_is_identical() {
    let store = sample_store();
    let first = store.render();
    let second = store.render();
    assert_eq!(first, second);
}

#[test]
fn render_of_empty_store_is_empty() {
    let store = Store::new();
    assert_eq!(store.render(), Vec::<TreeLine>::new());
}

#[test]
fn search_or_across_terms_returns_both_and_nothing_else() {
    let store = sample_store();
    let found = store.search(&terms(&["bank", "work"])).unwrap();
    assert_eq!(
        found,
        lines(&[(0, "bank"), (1, "chase"), (0, "email"), (1, "work")])
    );
}

#[test]
fn search_empty_query_is_rejected() {
    let store = sample_store();
    assert_eq!(store.search(&terms(&[])), Err(SearchError::EmptyQuery));
}

#[test]
fn search_is_case_insensitive() {
    let store = sample_store();
    let found = store.search(&terms(&["CHASE"])).unwrap();
    assert_eq!(found, lines(&[(0, "bank"), (1, "chase")]));
}

#[test]
fn search_prunes_directories_without_matches() {
    let store = sample_store();
    let found = store.search(&terms(&["work"])).unwrap();
    assert_eq!(found, lines(&[(0, "email"), (1, "work")]));
}

#[test]
fn search_with_no_match_is_empty() {
    let store = sample_store();
    assert_eq!(store.search(&terms(&["zzz"])).unwrap(), Vec::<TreeLine>::new());
}

#[test]
fn render_omits_metadata_named_nodes() {
    let mut store = Store::new();
    store.init(vec!["alice".to_string()], &path(&[]));
    store.commit_add(&path(&["visible"]), b"ct".to_vec());
    store.commit_add(&path(&[".hidden"]), b"ct".to_vec());
    assert_eq!(store.render(), lines(&[(0, "visible")]));
}
