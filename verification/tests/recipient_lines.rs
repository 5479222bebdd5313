use pass_store::text::{clean_recipient_lines, trim_line};

#[test]
fn trim_removes_surrounding_whitespace_only() {
    assert_eq!(trim_line(&"  alice  ".to_string()), "alice");
    assert_eq!(trim_line(&"\t bob\r\n".to_string()), "bob");
    assert_eq!(trim_line(&"in the middle".to_string()), "in the middle");
    assert_eq!(trim_line(&"   ".to_string()), "");
    assert_eq!(trim_line(&"".to_string()), "");
}

#[test]
fn cleaning_keeps_order_and_duplicates_and_drops_blanks() {
    let lines = vec![
        " alice ".to_string(),
        "".to_string(),
        "bob".to_string(),
        " \t ".to_string(),
        "alice".to_string(),
    ];
    assert_eq!(
        clean_recipient_lines(&lines),
        vec!["alice".to_string(), "bob".to_string(), "alice".to_string()]
    );
}

#[test]
fn cleaning_an_empty_file_yields_no_recipients() {
    assert_eq!(clean_recipient_lines(&Vec::new()), Vec::<String>::new());
}

#[test]
fn trim_also_removes_other_unicode_whitespace() {
    assert_eq!(trim_line(&"\u{A0}carol\u{2003}".to_string()), "carol");
    assert_eq!(trim_line(&"\u{3000}dave".to_string()), "dave");
}
