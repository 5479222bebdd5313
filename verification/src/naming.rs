//! The storage suffix of entry files.
//!
//! An entry named `n` is backed by the file `n` plus the secret suffix;
//! the namespace speaks of bare names. The boundary appends the suffix
//! when it writes a file and strips it when it loads one.

use vstd::prelude::*;

verus! {

/// The suffix every entry file carries.
pub open spec fn secret_suffix() -> Seq<char> {
    seq!['.', 'g', 'p', 'g']
}

/// The file name backing the entry name `name`.
pub fn entry_file_name(name: &String) -> (r: String)
    ensures
        r@ == name@ + secret_suffix(),
{
    let mut r = name.clone();
    r.append(".gpg");
    proof {
        reveal_strlit(".gpg");
        assert(".gpg"@ =~= secret_suffix());
    }
    r
}

/// The entry name backing the file name, when the file carries the
/// secret suffix; nothing for any other file.
pub fn strip_secret_suffix(file_name: &String) -> (r: Option<String>)
    ensures
        match r {
            Some(nm) => file_name@ == nm@ + secret_suffix(),
            None => forall|nm: Seq<char>| file_name@ != nm + secret_suffix(),
        },
{
    let n = file_name.as_str().unicode_len();
    if n < 4 {
        proof {
            assert forall|nm: Seq<char>| file_name@ != nm + secret_suffix() by {
                assert((nm + secret_suffix()).len() >= 4);
            }
        }
        return None;
    }
    let tail_ok = file_name.as_str().get_char(n - 4) == '.' && file_name.as_str().get_char(n - 3)
        == 'g' && file_name.as_str().get_char(n - 2) == 'p' && file_name.as_str().get_char(n - 1)
        == 'g';
    if !tail_ok {
        proof {
            assert forall|nm: Seq<char>| file_name@ != nm + secret_suffix() by {
                if file_name@ == nm + secret_suffix() {
                    assert(file_name@[n - 4] == '.');
                    assert(file_name@[n - 3] == 'g');
                    assert(file_name@[n - 2] == 'p');
                    assert(file_name@[n - 1] == 'g');
                }
            }
        }
        return None;
    }
    let head = file_name.as_str().substring_char(0, n - 4);
    let nm = head.to_owned();
    proof {
        assert(file_name@ =~= nm@ + secret_suffix());
    }
    Some(nm)
}

} // verus!
