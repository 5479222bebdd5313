use pass_store::errors::PathError;
use pass_store::paths::{check_sneaky_paths, segment_ok, segments_valid, validate};

#[test]
fn rejects_bare_parent_segment() {
    assert_eq!(validate(".."), Err(PathError::Traversal));
}

#[test]
fn rejects_leading_parent_segment() {
    assert_eq!(validate("../x"), Err(PathError::Traversal));
}

#[test]
fn rejects_inner_parent_segment() {
    assert_eq!(validate("x/../y"), Err(PathError::Traversal));
}

#[test]
fn rejects_trailing_parent_segment() {
    assert_eq!(validate("x/.."), Err(PathError::Traversal));
}

#[test]
fn accepts_ordinary_names() {
    assert_eq!(validate("bank/chase"), Ok(()));
    assert_eq!(validate("a"), Ok(()));
    assert_eq!(validate(""), Ok(()));
    assert_eq!(validate("dots..inside/are.fine"), Ok(()));
    assert_eq!(validate("..."), Ok(()));
}

#[test]
fn batch_check_rejects_one_bad_name() {
    assert_eq!(
        check_sneaky_paths(vec!["safe/path", "../unsafe/path"]),
        Err(PathError::Traversal)
    );
}

#[test]
fn batch_check_accepts_all_good_names() {
    assert_eq!(check_sneaky_paths(vec!["safe/path", "another"]), Ok(()));
    assert_eq!(check_sneaky_paths(vec![]), Ok(()));
}

#[test]
fn segment_rules() {
    assert!(segment_ok(&String::from("bank")));
    assert!(segment_ok(&String::from("..x")));
    assert!(!segment_ok(&String::from("")));
    assert!(!segment_ok(&String::from(".")));
    assert!(!segment_ok(&String::from("..")));
    assert!(!segment_ok(&String::from("a/b")));
}

#[test]
fn segment_batch_rules() {
    assert!(segments_valid(&vec![String::from("bank"), String::from("chase")]));
    assert!(!segments_valid(&vec![String::from("bank"), String::from("..")]));
}

#[test]
fn splitting_follows_the_raw_text() {
    assert_eq!(
        pass_store::paths::split_name("bank/chase"),
        vec!["bank".to_string(), "chase".to_string()]
    );
    assert_eq!(pass_store::paths::split_name("solo"), vec!["solo".to_string()]);
    assert_eq!(pass_store::paths::split_name(""), vec!["".to_string()]);
    assert_eq!(
        pass_store::paths::split_name("a//b"),
        vec!["a".to_string(), "".to_string(), "b".to_string()]
    );
    assert_eq!(
        pass_store::paths::split_name("a/"),
        vec!["a".to_string(), "".to_string()]
    );
}
