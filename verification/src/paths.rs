//! Path-safety validation.
//!
//! Externally supplied names are rejected — never normalized — when they
//! could escape the store root through `..` segments, so an
//! attacker-influenced string can never be silently redirected.

use vstd::prelude::*;

use crate::errors::PathError;
use crate::model::{valid_path, valid_segment};

verus! {

/// Whether `s` can serve as one segment of a name path.
pub fn segment_ok(s: &String) -> (r: bool)
    ensures
        r == valid_segment(s@),
{
    let n = s.as_str().unicode_len();
    if n == 0 {
        return false;
    }
    if n == 1 && s.as_str().get_char(0) == '.' {
        return false;
    }
    if n == 2 && s.as_str().get_char(0) == '.' && s.as_str().get_char(1) == '.' {
        return false;
    }
    let mut i: usize = 0;
    while i < n
        invariant
            0 <= i <= n,
            n == s@.len(),
            forall|j: int| 0 <= j < i ==> s@[j] != '/',
        decreases n - i,
    {
        if s.as_str().get_char(i) == '/' {
            assert(s@.contains('/')) by {
                assert(s@[i as int] == '/');
            }
            return false;
        }
        i = i + 1;
    }
    proof {
        if s@.contains('/') {
            let j = choose|j: int| 0 <= j < s@.len() && s@[j] == '/';
            assert(false);
        }
    }
    true
}

/// Whether every segment of `p` can serve in a name path.
pub fn segments_valid(p: &Vec<String>) -> (r: bool)
    ensures
        r == valid_path(p.deep_view()),
{
    let ghost pv = p.deep_view();
    let mut i: usize = 0;
    while i < p.len()
        invariant
            0 <= i <= p@.len(),
            pv.len() == p@.len(),
            forall|k: int| 0 <= k < pv.len() ==> pv[k] == p@[k]@,
            forall|k: int| 0 <= k < i ==> valid_segment(#[trigger] pv[k]),
        decreases p@.len() - i,
    {
        if !segment_ok(&p[i]) {
            proof {
                assert(p.deep_view()[i as int] == p@[i as int]@);
                assert(!valid_segment(p.deep_view()[i as int]));
                assert(!valid_path(p.deep_view())) by {
                    if valid_path(p.deep_view()) {
                        assert(valid_segment(p.deep_view()[i as int]));
                    }
                }
            }
            return false;
        }
        i = i + 1;
    }
    true
}

/// A `/../` occurrence starting at position `k` of `s`.
pub open spec fn traversal_at(s: Seq<char>, k: int) -> bool {
    0 <= k && k + 4 <= s.len() && s[k] == '/' && s[k + 1] == '.' && s[k + 2] == '.' && s[k + 3]
        == '/'
}

/// The raw name is `..`, starts with `../`, contains `/../`, or ends with
/// `/..`: the four shapes through which a name could climb out of the store.
pub open spec fn has_traversal(s: Seq<char>) -> bool {
    ||| (s.len() == 2 && s[0] == '.' && s[1] == '.')
    ||| (s.len() >= 3 && s[0] == '.' && s[1] == '.' && s[2] == '/')
    ||| (s.len() >= 3 && s[s.len() - 3] == '/' && s[s.len() - 2] == '.' && s[s.len() - 1] == '.')
    ||| (exists|k: int| traversal_at(s, k))
}

/// Rejects a raw name that contains a traversal pattern. Rejection only —
/// the name is never rewritten. Must run on every externally supplied name
/// before it is split into segments.
pub fn validate(name: &str) -> (r: Result<(), PathError>)
    ensures
        r is Ok <==> !has_traversal(name@),
        r is Err ==> r == Err::<(), PathError>(PathError::Traversal),
{
    let n = name.unicode_len();
    if n == 2 && name.get_char(0) == '.' && name.get_char(1) == '.' {
        return Err(PathError::Traversal);
    }
    if n >= 3 && name.get_char(0) == '.' && name.get_char(1) == '.' && name.get_char(2) == '/' {
        return Err(PathError::Traversal);
    }
    if n >= 3 && name.get_char(n - 3) == '/' && name.get_char(n - 2) == '.' && name.get_char(n - 1)
        == '.' {
        return Err(PathError::Traversal);
    }
    if n >= 4 {
        let mut k: usize = 0;
        while k <= n - 4
            invariant
                n == name@.len(),
                4 <= n,
                k <= n - 3,
                forall|j: int| j < k ==> !traversal_at(name@, j),
            decreases n - k,
        {
            if name.get_char(k) == '/' && name.get_char(k + 1) == '.' && name.get_char(k + 2) == '.'
                && name.get_char(k + 3) == '/' {
                assert(traversal_at(name@, k as int));
                return Err(PathError::Traversal);
            }
            k = k + 1;
        }
        assert(forall|j: int| !traversal_at(name@, j));
    } else {
        assert(forall|j: int| !traversal_at(name@, j));
    }
    Ok(())
}

/// Validates a batch of raw names, accepting the batch only when every one
/// of them is free of traversal patterns.
pub fn check_sneaky_paths(paths: Vec<&str>) -> (r: Result<(), PathError>)
    ensures
        r is Ok <==> (forall|i: int| 0 <= i < paths@.len() ==> !has_traversal(paths@[i]@)),
        r is Err ==> r == Err::<(), PathError>(PathError::Traversal),
{
    let mut i: usize = 0;
    while i < paths.len()
        invariant
            i <= paths@.len(),
            forall|j: int| 0 <= j < i ==> !has_traversal(paths@[j]@),
        decreases paths@.len() - i,
    {
        if validate(paths[i]).is_err() {
            return Err(PathError::Traversal);
        }
        i = i + 1;
    }
    Ok(())
}

/// Length of the first segment of `s`: the characters before the first
/// separator.
pub open spec fn seg_head_len(s: Seq<char>) -> nat
    decreases s.len(),
{
    if s.len() > 0 && s[0] != '/' {
        1 + seg_head_len(s.drop_first())
    } else {
        0
    }
}

/// The segments of a raw name: the runs between separators, in order.
/// An empty name has one empty segment, as the raw text reads.
pub open spec fn split_spec(s: Seq<char>) -> Seq<Seq<char>>
    decreases s.len(),
{
    let h = seg_head_len(s);
    if h >= s.len() {
        seq![s]
    } else {
        seq![s.take(h as int)] + split_spec(s.subrange(h as int + 1, s.len() as int))
    }
}

/// `seg_head_len` is the position of the first separator, or the length
/// when there is none.
proof fn lemma_seg_head_len(s: Seq<char>, h: int)
    requires
        0 <= h <= s.len(),
        forall|k: int| 0 <= k < h ==> s[k] != '/',
        h < s.len() ==> s[h] == '/',
    ensures
        seg_head_len(s) == h,
    decreases h,
{
    if h == 0 {
    } else {
        assert(forall|k: int| 0 <= k < s.drop_first().len() ==> s.drop_first()[k] == s[k + 1]);
        lemma_seg_head_len(s.drop_first(), h - 1);
    }
}

/// Appends the segments of `name` from position `i` on to `out`.
fn split_from(name: &str, i: usize, out: &mut Vec<String>)
    requires
        i <= name@.len(),
    ensures
        final(out).deep_view() == old(out).deep_view() + split_spec(
            name@.subrange(i as int, name@.len() as int),
        ),
    decreases name@.len() - i,
{
    let n = name.unicode_len();
    let ghost sub = name@.subrange(i as int, n as int);
    let mut j: usize = i;
    while j < n && name.get_char(j) != '/'
        invariant
            i <= j <= n,
            n == name@.len(),
            forall|k: int| i <= k < j ==> name@[k] != '/',
        decreases n - j,
    {
        j = j + 1;
    }
    proof {
        assert(forall|k: int| 0 <= k < sub.len() ==> sub[k] == name@[k + i]);
        lemma_seg_head_len(sub, j - i);
        assert(sub.take(j - i) =~= name@.subrange(i as int, j as int));
    }
    let head = name.substring_char(i, j).to_owned();
    let ghost prev = out.deep_view();
    out.push(head);
    proof {
        assert(out.deep_view() =~= prev.push(name@.subrange(i as int, j as int)));
    }
    if j < n {
        proof {
            assert(sub.subrange(j - i + 1, sub.len() as int) =~= name@.subrange(
                j as int + 1,
                n as int,
            ));
        }
        split_from(name, j + 1, out);
        proof {
            assert(out.deep_view() =~= prev + split_spec(sub));
        }
    } else {
        proof {
            assert(seg_head_len(sub) == sub.len());
            assert(sub.take(sub.len() as int) =~= sub);
            assert(out.deep_view() =~= prev + split_spec(sub));
        }
    }
}

/// Splits a raw name at separators into its segments, exactly as the raw
/// text reads: no segment is dropped or rewritten. Validation comes
/// first; splitting never makes an unsafe name safe.
pub fn split_name(name: &str) -> (r: Vec<String>)
    ensures
        r.deep_view() == split_spec(name@),
{
    let mut out: Vec<String> = Vec::new();
    proof {
        assert(out.deep_view() =~= Seq::<Seq<char>>::empty());
    }
    split_from(name, 0, &mut out);
    proof {
        assert(name@.subrange(0, name@.len() as int) =~= name@);
        assert(Seq::<Seq<char>>::empty() + split_spec(name@) =~= split_spec(name@));
    }
    out
}

} // verus!
