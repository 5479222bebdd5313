//! Decisions over keyring and signature-status listings.
//!
//! The signing backend reports keys and signature checks as
//! machine-readable lines; the boundary tokenizes them and the functions
//! here decide what they mean: which fingerprints a listing carries,
//! which identifiers are well-formed signing keys, and whether a detached
//! signature counts as made by a trusted identity.

use vstd::prelude::*;

verus! {

/// `needle` occurs in `hay` as a contiguous run.
pub open spec fn contains_sub(hay: Seq<char>, needle: Seq<char>) -> bool {
    exists|k: int|
        0 <= k && k + needle.len() <= hay.len() && #[trigger] hay.subrange(
            k,
            k + needle.len() as int,
        ) == needle
}

/// Whether `needle` occurs in `hay` as a contiguous run.
pub fn contains_sub_str(hay: &str, needle: &str) -> (r: bool)
    ensures
        r == contains_sub(hay@, needle@),
{
    let hn = hay.unicode_len();
    let nn = needle.unicode_len();
    if nn > hn {
        proof {
            if contains_sub(hay@, needle@) {
                let k = choose|k: int|
                    0 <= k && k + needle@.len() <= hay@.len() && #[trigger] hay@.subrange(
                        k,
                        k + needle@.len() as int,
                    ) == needle@;
                assert(false);
            }
        }
        return false;
    }
    let mut k: usize = 0;
    while k <= hn - nn
        invariant
            hn == hay@.len(),
            nn == needle@.len(),
            nn <= hn,
            k <= hn - nn + 1,
            forall|k2: int|
                0 <= k2 < k ==> #[trigger] hay@.subrange(k2, k2 + needle@.len() as int)
                    != needle@,
        decreases hn - nn + 1 - k,
    {
        let mut j: usize = 0;
        while j < nn && hay.get_char(k + j) == needle.get_char(j)
            invariant
                hn == hay@.len(),
                nn == needle@.len(),
                k + nn <= hn,
                j <= nn,
                forall|j2: int| 0 <= j2 < j ==> hay@[k + j2] == needle@[j2],
            decreases nn - j,
        {
            j = j + 1;
        }
        if j == nn {
            proof {
                assert(hay@.subrange(k as int, k + nn) =~= needle@);
            }
            return true;
        }
        proof {
            assert(hay@.subrange(k as int, k + nn) != needle@) by {
                if hay@.subrange(k as int, k + nn) == needle@ {
                    assert(hay@.subrange(k as int, k + nn)[j as int] == hay@[k + j]);
                }
            }
        }
        k = k + 1;
    }
    proof {
        if contains_sub(hay@, needle@) {
            let k2 = choose|k2: int|
                0 <= k2 && k2 + needle@.len() <= hay@.len() && #[trigger] hay@.subrange(
                    k2,
                    k2 + needle@.len() as int,
                ) == needle@;
            assert(hay@.subrange(k2, k2 + needle@.len() as int) != needle@);
        }
    }
    false
}

/// Whether two strings hold the same characters.
pub fn str_is(s: &str, t: &str) -> (r: bool)
    ensures
        r == (s@ == t@),
{
    let n = s.unicode_len();
    if n != t.unicode_len() {
        return false;
    }
    let mut i: usize = 0;
    while i < n
        invariant
            n == s@.len(),
            n == t@.len(),
            i <= n,
            forall|j: int| 0 <= j < i ==> s@[j] == t@[j],
        decreases n - i,
    {
        if s.get_char(i) != t.get_char(i) {
            return false;
        }
        i = i + 1;
    }
    proof {
        assert(s@ =~= t@);
    }
    true
}

/// A hexadecimal digit, in either case.
pub open spec fn is_hex_char(c: char) -> bool {
    ('0' <= c && c <= '9') || ('a' <= c && c <= 'f') || ('A' <= c && c <= 'F')
}

/// A well-formed signing-key identifier: exactly forty hexadecimal
/// characters, the length of a full key fingerprint.
pub open spec fn well_formed_key(s: Seq<char>) -> bool {
    s.len() == 40 && forall|i: int| 0 <= i < s.len() ==> is_hex_char(#[trigger] s[i])
}

/// Whether `s` is a well-formed signing-key identifier.
pub fn is_well_formed_key(s: &String) -> (r: bool)
    ensures
        r == well_formed_key(s@),
{
    let n = s.as_str().unicode_len();
    if n != 40 {
        return false;
    }
    let mut i: usize = 0;
    while i < n
        invariant
            n == s@.len(),
            i <= n,
            forall|j: int| 0 <= j < i ==> is_hex_char(#[trigger] s@[j]),
        decreases n - i,
    {
        let c = s.as_str().get_char(i);
        if !(('0' <= c && c <= '9') || ('a' <= c && c <= 'f') || ('A' <= c && c <= 'F')) {
            return false;
        }
        i = i + 1;
    }
    true
}

/// The well-formed identifiers of `keys`, in order.
pub open spec fn well_formed_keys_of(keys: Seq<Seq<char>>) -> Seq<Seq<char>>
    decreases keys.len(),
{
    if keys.len() == 0 {
        Seq::empty()
    } else {
        let front = well_formed_keys_of(keys.drop_last());
        if well_formed_key(keys.last()) {
            front.push(keys.last())
        } else {
            front
        }
    }
}

/// Keeps the well-formed signing-key identifiers of `keys`, in order.
pub fn filter_signing_keys(keys: &Vec<String>) -> (r: Vec<String>)
    ensures
        r.deep_view() == well_formed_keys_of(keys.deep_view()),
{
    let ghost kv = keys.deep_view();
    let mut r: Vec<String> = Vec::new();
    let mut i: usize = 0;
    proof {
        assert(kv.take(0) =~= Seq::<Seq<char>>::empty());
        assert(r.deep_view() =~= well_formed_keys_of(kv.take(0)));
    }
    while i < keys.len()
        invariant
            i <= keys@.len(),
            kv.len() == keys@.len(),
            forall|k: int| 0 <= k < kv.len() ==> kv[k] == keys@[k]@,
            r.deep_view() == well_formed_keys_of(kv.take(i as int)),
        decreases keys@.len() - i,
    {
        let ghost prev = r.deep_view();
        if is_well_formed_key(&keys[i]) {
            r.push(keys[i].clone());
            proof {
                assert(r.deep_view() =~= prev.push(kv[i as int]));
            }
        }
        proof {
            let t = kv.take(i as int + 1);
            assert(t.drop_last() =~= kv.take(i as int));
            assert(t.last() == kv[i as int]);
            assert(r.deep_view() =~= well_formed_keys_of(t));
        }
        i = i + 1;
    }
    proof {
        assert(kv.take(kv.len() as int) =~= kv);
    }
    r
}

/// A status row that reports a valid signature: its first tokens are the
/// status marker and the word for a valid signature, and the fingerprint
/// of the signing key follows directly after them.
pub open spec fn is_validsig_row(row: Seq<Seq<char>>) -> bool {
    row.len() >= 3 && row[0] == "[GNUPG:]"@ && row[1] == "VALIDSIG"@
}

/// The signing-key fingerprints of the valid-signature rows, in order.
pub open spec fn validsig_fields_of(rows: Seq<Seq<Seq<char>>>) -> Seq<Seq<char>>
    decreases rows.len(),
{
    if rows.len() == 0 {
        Seq::empty()
    } else {
        let front = validsig_fields_of(rows.drop_last());
        if is_validsig_row(rows.last()) {
            front.push(rows.last()[2])
        } else {
            front
        }
    }
}

/// Extracts the signing-key fingerprint of every valid-signature status
/// row. Each row is one status line, tokenized on whitespace.
pub fn validsig_fingerprints(rows: &Vec<Vec<String>>) -> (r: Vec<String>)
    ensures
        r.deep_view() == validsig_fields_of(rows.deep_view()),
{
    let ghost rv = rows.deep_view();
    let mut r: Vec<String> = Vec::new();
    let mut i: usize = 0;
    proof {
        assert(rv.take(0) =~= Seq::<Seq<Seq<char>>>::empty());
        assert(r.deep_view() =~= validsig_fields_of(rv.take(0)));
    }
    while i < rows.len()
        invariant
            i <= rows@.len(),
            rv.len() == rows@.len(),
            forall|k: int| 0 <= k < rv.len() ==> rv[k] == rows@[k].deep_view(),
            r.deep_view() == validsig_fields_of(rv.take(i as int)),
        decreases rows@.len() - i,
    {
        let row = &rows[i];
        let ghost prev = r.deep_view();
        proof {
            assert(rv[i as int] == row.deep_view());
            assert(forall|k: int|
                0 <= k < row@.len() ==> row.deep_view()[k] == #[trigger] row@[k]@);
        }
        if row.len() >= 3 && str_is(row[0].as_str(), "[GNUPG:]") && str_is(
            row[1].as_str(),
            "VALIDSIG",
        ) {
            r.push(row[2].clone());
            proof {
                assert(is_validsig_row(rv[i as int]));
                assert(r.deep_view() =~= prev.push(rv[i as int][2]));
            }
        } else {
            proof {
                assert(!is_validsig_row(rv[i as int]));
            }
        }
        proof {
            let t = rv.take(i as int + 1);
            assert(t.drop_last() =~= rv.take(i as int));
            assert(t.last() == rv[i as int]);
            assert(r.deep_view() =~= validsig_fields_of(t));
        }
        i = i + 1;
    }
    proof {
        assert(rv.take(rv.len() as int) =~= rv);
    }
    r
}

/// Some reported fingerprint of a valid signature contains some
/// well-formed trusted identifier.
pub open spec fn signature_matches(
    reported: Seq<Seq<char>>,
    trusted: Seq<Seq<char>>,
) -> bool {
    exists|t: int, f: int|
        0 <= t < trusted.len() && 0 <= f < reported.len() && well_formed_key(#[trigger] trusted[t])
            && contains_sub(#[trigger] reported[f], trusted[t])
}

/// Decides whether a signature check succeeded: some reported
/// fingerprint of a valid signature contains some well-formed trusted
/// identifier.
pub fn signature_accepted(reported: &Vec<String>, trusted: &Vec<String>) -> (r: bool)
    ensures
        r == signature_matches(reported.deep_view(), trusted.deep_view()),
{
    let ghost fv = reported.deep_view();
    let ghost tv = trusted.deep_view();
    let mut t: usize = 0;
    while t < trusted.len()
        invariant
            t <= trusted@.len(),
            fv == reported.deep_view(),
            tv == trusted.deep_view(),
            fv.len() == reported@.len(),
            tv.len() == trusted@.len(),
            forall|k: int| 0 <= k < fv.len() ==> fv[k] == reported@[k]@,
            forall|k: int| 0 <= k < tv.len() ==> tv[k] == trusted@[k]@,
            forall|t2: int, f2: int|
                0 <= t2 < t && 0 <= f2 < fv.len() ==> !(well_formed_key(#[trigger] tv[t2])
                    && contains_sub(#[trigger] fv[f2], tv[t2])),
        decreases trusted@.len() - t,
    {
        if is_well_formed_key(&trusted[t]) {
            let mut f: usize = 0;
            while f < reported.len()
                invariant
                    t < trusted@.len(),
                    f <= reported@.len(),
                    fv == reported.deep_view(),
                    tv == trusted.deep_view(),
                    fv.len() == reported@.len(),
                    tv.len() == trusted@.len(),
                    forall|k: int| 0 <= k < fv.len() ==> fv[k] == reported@[k]@,
                    forall|k: int| 0 <= k < tv.len() ==> tv[k] == trusted@[k]@,
                    well_formed_key(tv[t as int]),
                    forall|f2: int| 0 <= f2 < f ==> !contains_sub(#[trigger] fv[f2], tv[t as int]),
                decreases reported@.len() - f,
            {
                if contains_sub_str(reported[f].as_str(), trusted[t].as_str()) {
                    proof {
                        assert(fv[f as int] == reported@[f as int]@);
                        assert(tv[t as int] == trusted@[t as int]@);
                        assert(well_formed_key(tv[t as int]) && contains_sub(
                            fv[f as int],
                            tv[t as int],
                        ));
                        assert(signature_matches(fv, tv));
                    }
                    return true;
                }
                f = f + 1;
            }
        }
        t = t + 1;
    }
    proof {
        if signature_matches(fv, tv) {
            let (t2, f2) = choose|t2: int, f2: int|
                0 <= t2 < tv.len() && 0 <= f2 < fv.len() && well_formed_key(#[trigger] tv[t2])
                    && contains_sub(#[trigger] fv[f2], tv[t2]);
            assert(false);
        }
    }
    false
}

/// A key-listing row that carries a fingerprint: its first field is the
/// fingerprint marker and the fingerprint field is present.
pub open spec fn is_fpr_row(row: Seq<Seq<char>>) -> bool {
    row.len() > 9 && row[0] == "fpr"@
}

/// A key-listing row that opens a public-key block.
pub open spec fn is_pub_row(row: Seq<Seq<char>>) -> bool {
    row.len() > 0 && row[0] == "pub"@
}

/// The fingerprints of a key listing, in order.
pub open spec fn fingerprints_of(rows: Seq<Seq<Seq<char>>>) -> Seq<Seq<char>>
    decreases rows.len(),
{
    if rows.len() == 0 {
        Seq::empty()
    } else {
        let front = fingerprints_of(rows.drop_last());
        if is_fpr_row(rows.last()) {
            front.push(rows.last()[9])
        } else {
            front
        }
    }
}

/// Extracts every fingerprint of a key listing. Each row is one listing
/// line, split on the field separator.
pub fn list_fingerprints(rows: &Vec<Vec<String>>) -> (r: Vec<String>)
    ensures
        r.deep_view() == fingerprints_of(rows.deep_view()),
{
    let ghost rv = rows.deep_view();
    let mut r: Vec<String> = Vec::new();
    let mut i: usize = 0;
    proof {
        assert(rv.take(0) =~= Seq::<Seq<Seq<char>>>::empty());
        assert(r.deep_view() =~= fingerprints_of(rv.take(0)));
    }
    while i < rows.len()
        invariant
            i <= rows@.len(),
            rv.len() == rows@.len(),
            forall|k: int| 0 <= k < rv.len() ==> rv[k] == rows@[k].deep_view(),
            r.deep_view() == fingerprints_of(rv.take(i as int)),
        decreases rows@.len() - i,
    {
        let row = &rows[i];
        let ghost prev = r.deep_view();
        proof {
            assert(rv[i as int] == row.deep_view());
            assert(forall|k: int|
                0 <= k < row@.len() ==> row.deep_view()[k] == #[trigger] row@[k]@);
        }
        if row.len() > 9 && str_is(row[0].as_str(), "fpr") {
            r.push(row[9].clone());
            proof {
                assert(is_fpr_row(rv[i as int]));
                assert(r.deep_view() =~= prev.push(rv[i as int][9]));
            }
        } else {
            proof {
                assert(!is_fpr_row(rv[i as int]));
            }
        }
        proof {
            let t = rv.take(i as int + 1);
            assert(t.drop_last() =~= rv.take(i as int));
            assert(t.last() == rv[i as int]);
            assert(r.deep_view() =~= fingerprints_of(t));
        }
        i = i + 1;
    }
    proof {
        assert(rv.take(rv.len() as int) =~= rv);
    }
    r
}

/// The fingerprint following the first public-key row, if any: the
/// fingerprint of the primary key.
pub open spec fn primary_fpr_of(rows: Seq<Seq<Seq<char>>>, in_pub: bool) -> Option<Seq<char>>
    decreases rows.len(),
{
    if rows.len() == 0 {
        None
    } else if is_pub_row(rows[0]) {
        primary_fpr_of(rows.drop_first(), true)
    } else if in_pub && rows[0].len() > 0 && rows[0][0] == "fpr"@ {
        if rows[0].len() > 9 {
            Some(rows[0][9])
        } else {
            None
        }
    } else {
        primary_fpr_of(rows.drop_first(), in_pub)
    }
}

/// Finds the fingerprint of the first primary key of a key listing: the
/// fingerprint row that follows the first public-key row.
pub fn primary_fingerprint(rows: &Vec<Vec<String>>) -> (r: Option<String>)
    ensures
        match r {
            Some(f) => primary_fpr_of(rows.deep_view(), false) == Some(f@),
            None => primary_fpr_of(rows.deep_view(), false) is None,
        },
{
    let ghost rv = rows.deep_view();
    let mut in_pub = false;
    let mut i: usize = 0;
    proof {
        assert(rv.skip(0) =~= rv);
    }
    while i < rows.len()
        invariant
            i <= rows@.len(),
            rv == rows.deep_view(),
            rv.len() == rows@.len(),
            forall|k: int| 0 <= k < rv.len() ==> rv[k] == rows@[k].deep_view(),
            primary_fpr_of(rv, false) == primary_fpr_of(rv.skip(i as int), in_pub),
        decreases rows@.len() - i,
    {
        let row = &rows[i];
        proof {
            assert(rv[i as int] == row.deep_view());
            assert(forall|k: int|
                0 <= k < row@.len() ==> row.deep_view()[k] == #[trigger] row@[k]@);
            assert(rv.skip(i as int)[0] == rv[i as int]);
            assert(rv.skip(i as int).drop_first() =~= rv.skip(i as int + 1));
        }
        if row.len() > 0 && str_is(row[0].as_str(), "pub") {
            in_pub = true;
        } else if in_pub && row.len() > 0 && str_is(row[0].as_str(), "fpr") {
            proof {
                assert(!is_pub_row(rv[i as int]));
                assert(rv[i as int].len() > 0 && rv[i as int][0] == "fpr"@);
            }
            if row.len() > 9 {
                proof {
                    assert(primary_fpr_of(rv, false) == Some(rv[i as int][9]));
                    assert(rv[i as int][9] == row@[9]@);
                }
                return Some(row[9].clone());
            }
            proof {
                assert(primary_fpr_of(rv, false) is None);
            }
            return None;
        }
        i = i + 1;
    }
    proof {
        assert(rv.skip(rv.len() as int) =~= Seq::<Seq<Seq<char>>>::empty());
    }
    None
}

} // verus!
