use pass_store::keyring::{
    filter_signing_keys, list_fingerprints, primary_fingerprint, signature_accepted,
    validsig_fingerprints,
};
use pass_store::naming::{entry_file_name, strip_secret_suffix};

fn row(tokens: &[&str]) -> Vec<String> {
    tokens.iter().map(|s| s.to_string()).collect()
}

const FPR_A: &str = "0123456789ABCDEF0123456789ABCDEF01234567";
const FPR_B: &str = "FEDCBA9876543210FEDCBA9876543210FEDCBA98";

#[test]
fn entry_file_name_appends_the_suffix() {
    assert_eq!(entry_file_name(&"chase".to_string()), "chase.gpg");
}

#[test]
fn strip_suffix_recovers_the_entry_name() {
    assert_eq!(strip_secret_suffix(&"chase.gpg".to_string()), Some("chase".to_string()));
    assert_eq!(strip_secret_suffix(&".gpg".to_string()), Some("".to_string()));
    assert_eq!(strip_secret_suffix(&"notes.txt".to_string()), None);
    assert_eq!(strip_secret_suffix(&"gpg".to_string()), None);
}

#[test]
fn round_trip_through_the_file_name() {
    let name = "bank".to_string();
    assert_eq!(strip_secret_suffix(&entry_file_name(&name)), Some(name));
}

#[test]
fn validsig_rows_yield_their_fingerprint() {
    let rows = vec![
        row(&["[GNUPG:]", "NEWSIG"]),
        row(&["[GNUPG:]", "VALIDSIG", FPR_A, "2018-01-01", "1514764800"]),
        row(&["noise"]),
        row(&["[GNUPG:]", "VALIDSIG", FPR_B]),
    ];
    assert_eq!(
        validsig_fingerprints(&rows),
        vec![FPR_A.to_string(), FPR_B.to_string()]
    );
}

#[test]
fn valid_signature_of_a_configured_key_is_accepted() {
    // The whole decision chain on a realistic status listing: the
    // fingerprint is read from the valid-signature row and matched
    // against the configured signing keys.
    let rows = vec![
        row(&["[GNUPG:]", "NEWSIG"]),
        row(&["[GNUPG:]", "SIG_ID", "abc", "2018-01-01", "1514764800"]),
        row(&["[GNUPG:]", "VALIDSIG", FPR_A, "2018-01-01", "1514764800", "0", "4", "0", "1", "8", "00", FPR_A]),
    ];
    let reported = validsig_fingerprints(&rows);
    let trusted = filter_signing_keys(&vec![FPR_A.to_string()]);
    assert!(signature_accepted(&reported, &trusted));

    let other = filter_signing_keys(&vec![FPR_B.to_string()]);
    assert!(!signature_accepted(&reported, &other));
}

#[test]
fn signing_key_filter_keeps_only_full_hex_fingerprints() {
    let keys = vec![
        FPR_A.to_string(),
        "short".to_string(),
        "G123456789ABCDEF0123456789ABCDEF01234567".to_string(),
        FPR_B.to_lowercase(),
    ];
    assert_eq!(
        filter_signing_keys(&keys),
        vec![FPR_A.to_string(), FPR_B.to_lowercase()]
    );
}

#[test]
fn signature_accepted_when_a_trusted_key_occurs_in_a_reported_field() {
    let reported = vec![format!("prefix{}suffix", FPR_A)];
    let trusted = vec![FPR_B.to_string(), FPR_A.to_string()];
    assert!(signature_accepted(&reported, &trusted));
}

#[test]
fn signature_rejected_without_a_match() {
    let reported = vec![FPR_A.to_string()];
    let trusted = vec![FPR_B.to_string()];
    assert!(!signature_accepted(&reported, &trusted));

    // A malformed trusted identifier never matches, even as a substring.
    let trusted_short = vec!["0123".to_string()];
    assert!(!signature_accepted(&reported, &trusted_short));
}

#[test]
fn listing_fingerprints_reads_the_fingerprint_field() {
    let rows = vec![
        row(&["tru", ":", "1"]),
        row(&["pub", "", "", "", "", "", "", "", "", "", ""]),
        row(&["fpr", "", "", "", "", "", "", "", "", FPR_A, ""]),
        row(&["sub", "", "", "", "", "", "", "", "", "", ""]),
        row(&["fpr", "", "", "", "", "", "", "", "", FPR_B, ""]),
    ];
    assert_eq!(
        list_fingerprints(&rows),
        vec![FPR_A.to_string(), FPR_B.to_string()]
    );
}

#[test]
fn primary_fingerprint_follows_the_first_public_key_row() {
    let rows = vec![
        row(&["tru", ":", "1"]),
        row(&["pub", "u"]),
        row(&["fpr", "", "", "", "", "", "", "", "", FPR_A, ""]),
        row(&["pub", "u"]),
        row(&["fpr", "", "", "", "", "", "", "", "", FPR_B, ""]),
    ];
    assert_eq!(primary_fingerprint(&rows), Some(FPR_A.to_string()));
}

#[test]
fn primary_fingerprint_missing_without_a_public_key_row() {
    let rows = vec![row(&["fpr", "", "", "", "", "", "", "", "", FPR_A, ""])];
    assert_eq!(primary_fingerprint(&rows), None);
}
