//! Namespace search: substring filtering with OR across terms.
//!
//! A node matches when its name contains any search term, compared
//! case-insensitively over the basic letters. A match on a directory
//! extends to everything below it. The output is a pruned tree: a
//! directory appears only when some leaf below it is kept, and kept
//! leaves are listed exactly as the renderer lists them.

use vstd::prelude::*;

use crate::errors::SearchError;
use crate::model::{Dir, EntryNode, Store, dir_height, lemma_seq_height_elem};
use crate::render::{TreeLine, TreeLineV, name_starts_with_dot, starts_with_dot};

verus! {

/// A character's code with an upper-case basic letter folded to lower
/// case.
pub open spec fn fold_code(c: char) -> int {
    if 'A' <= c && c <= 'Z' {
        c as int + 32
    } else {
        c as int
    }
}

/// `needle` occurs in `hay` at position `k`, case-insensitively.
pub open spec fn ci_match_at(hay: Seq<char>, k: int, needle: Seq<char>) -> bool {
    forall|j: int| 0 <= j < needle.len() ==> fold_code(hay[k + j]) == fold_code(#[trigger] needle[j])
}

/// `needle` occurs somewhere in `hay`, case-insensitively.
pub open spec fn ci_contains(hay: Seq<char>, needle: Seq<char>) -> bool {
    exists|k: int| 0 <= k && k + needle.len() <= hay.len() && ci_match_at(hay, k, needle)
}

/// The name contains at least one of the terms: OR across terms.
pub open spec fn matches_any(nm: Seq<char>, terms: Seq<Seq<char>>) -> bool {
    exists|t: int| 0 <= t < terms.len() && ci_contains(nm, #[trigger] terms[t])
}

/// Case-folds one character to its comparison code.
fn fold_char(c: char) -> (r: u32)
    ensures
        r as int == fold_code(c),
{
    if c >= 'A' && c <= 'Z' {
        (c as u32) + 32
    } else {
        c as u32
    }
}

/// Whether `needle` occurs in `hay`, case-insensitively.
fn ci_contains_str(hay: &str, needle: &str) -> (r: bool)
    ensures
        r == ci_contains(hay@, needle@),
{
    let hn = hay.unicode_len();
    let nn = needle.unicode_len();
    if nn > hn {
        proof {
            if ci_contains(hay@, needle@) {
                let k = choose|k: int|
                    0 <= k && k + needle@.len() <= hay@.len() && ci_match_at(hay@, k, needle@);
                assert(false);
            }
        }
        return false;
    }
    let mut k: usize = 0;
    while k <= hn - nn
        invariant
            hn == hay@.len(),
            nn == needle@.len(),
            nn <= hn,
            k <= hn - nn + 1,
            forall|k2: int| 0 <= k2 < k ==> !ci_match_at(hay@, k2, needle@),
        decreases hn - nn + 1 - k,
    {
        let mut j: usize = 0;
        while j < nn && fold_char(hay.get_char(k + j)) == fold_char(needle.get_char(j))
            invariant
                hn == hay@.len(),
                nn == needle@.len(),
                k + nn <= hn,
                j <= nn,
                forall|j2: int|
                    0 <= j2 < j ==> fold_code(hay@[k + j2]) == fold_code(#[trigger] needle@[j2]),
            decreases nn - j,
        {
            j = j + 1;
        }
        if j == nn {
            proof {
                assert(ci_match_at(hay@, k as int, needle@));
            }
            return true;
        }
        proof {
            assert(!ci_match_at(hay@, k as int, needle@)) by {
                if ci_match_at(hay@, k as int, needle@) {
                    assert(fold_code(hay@[k + j]) == fold_code(needle@[j as int]));
                }
            }
        }
        k = k + 1;
    }
    proof {
        if ci_contains(hay@, needle@) {
            let k2 = choose|k2: int|
                0 <= k2 && k2 + needle@.len() <= hay@.len() && ci_match_at(hay@, k2, needle@);
            assert(!ci_match_at(hay@, k2, needle@));
        }
    }
    false
}

/// Whether the name contains any of the terms.
fn matches_any_exec(nm: &String, terms: &Vec<String>) -> (r: bool)
    ensures
        r == matches_any(nm@, terms.deep_view()),
{
    let ghost tv = terms.deep_view();
    let mut t: usize = 0;
    while t < terms.len()
        invariant
            t <= terms@.len(),
            tv == terms.deep_view(),
            tv.len() == terms@.len(),
            forall|t2: int| 0 <= t2 < t ==> !ci_contains(nm@, #[trigger] tv[t2]),
        decreases terms@.len() - t,
    {
        proof {
            assert(tv[t as int] == terms@[t as int]@);
        }
        if ci_contains_str(nm.as_str(), terms[t].as_str()) {
            assert(ci_contains(nm@, tv[t as int]));
            return true;
        }
        t = t + 1;
    }
    proof {
        if matches_any(nm@, tv) {
            let t2 = choose|t2: int| 0 <= t2 < tv.len() && ci_contains(nm@, tv[t2]);
            assert(false);
        }
    }
    false
}

/// The pruned search listing of the subtree of `d`. `inh` records that an
/// enclosing directory already matched, which keeps everything below it.
pub open spec fn search_dir(d: Dir, terms: Seq<Seq<char>>, inh: bool, depth: nat) -> Seq<TreeLineV>
    decreases d, 1int,
{
    search_subdirs(d.subdirs@, terms, inh, depth) + search_entries(d.entries@, terms, inh, depth)
}

/// The pruned listing of a row of subdirectories: a directory appears
/// exactly when its own pruned subtree keeps some line.
pub open spec fn search_subdirs(
    s: Seq<Dir>,
    terms: Seq<Seq<char>>,
    inh: bool,
    depth: nat,
) -> Seq<TreeLineV>
    decreases s, 2int,
{
    if s.len() == 0 {
        Seq::empty()
    } else {
        let front = search_subdirs(s.drop_last(), terms, inh, depth);
        if starts_with_dot(s.last().name@) {
            front
        } else {
            let m = inh || matches_any(s.last().name@, terms);
            let sub = search_dir(s.last(), terms, m, depth + 1);
            if sub.len() > 0 {
                front + seq![TreeLineV { depth, label: s.last().name@ }] + sub
            } else {
                front
            }
        }
    }
}

/// The kept leaves of a directory's own entries: a visible entry is kept
/// when its name matches a term or an enclosing directory matched.
pub open spec fn search_entries(
    s: Seq<EntryNode>,
    terms: Seq<Seq<char>>,
    inh: bool,
    depth: nat,
) -> Seq<TreeLineV>
    decreases s.len(),
{
    if s.len() == 0 {
        Seq::empty()
    } else {
        let front = search_entries(s.drop_last(), terms, inh, depth);
        if !starts_with_dot(s.last().name@) && (inh || matches_any(s.last().name@, terms)) {
            front.push(TreeLineV { depth, label: s.last().name@ })
        } else {
            front
        }
    }
}

/// Appends the pruned listing of the subtree of `d` to `out`.
fn search_rec(d: &Dir, terms: &Vec<String>, inh: bool, depth: usize, out: &mut Vec<TreeLine>)
    requires
        depth + dir_height(*d) <= usize::MAX,
    ensures
        final(out).deep_view() == old(out).deep_view() + search_dir(
            *d,
            terms.deep_view(),
            inh,
            depth as nat,
        ),
    decreases *d,
{
    let ghost tv = terms.deep_view();
    let ghost out0 = out.deep_view();
    let mut j: usize = 0;
    proof {
        assert(d.subdirs@.take(0) =~= Seq::<Dir>::empty());
        assert(out.deep_view() =~= out0 + search_subdirs(
            d.subdirs@.take(0),
            tv,
            inh,
            depth as nat,
        ));
    }
    while j < d.subdirs.len()
        invariant
            j <= d.subdirs@.len(),
            tv == terms.deep_view(),
            depth + dir_height(*d) <= usize::MAX,
            out.deep_view() == out0 + search_subdirs(
                d.subdirs@.take(j as int),
                tv,
                inh,
                depth as nat,
            ),
        decreases d.subdirs@.len() - j,
    {
        let sub = &d.subdirs[j];
        proof {
            lemma_seq_height_elem(d.subdirs@, j as int);
        }
        if !name_starts_with_dot(&sub.name) {
            let m = inh || matches_any_exec(&sub.name, terms);
            let mut subout: Vec<TreeLine> = Vec::new();
            proof {
                assert(subout.deep_view() =~= Seq::<TreeLineV>::empty());
            }
            search_rec(sub, terms, m, depth + 1, &mut subout);
            let ghost subv = search_dir(*sub, tv, m, (depth + 1) as nat);
            proof {
                assert(subout.deep_view() =~= subv);
            }
            if subout.len() > 0 {
                let ghost prev = out.deep_view();
                out.push(TreeLine { depth, label: sub.name.clone() });
                proof {
                    assert(out.deep_view() =~= prev.push(
                        TreeLineV { depth: depth as nat, label: sub.name@ },
                    ));
                }
                let ghost prev2 = out.deep_view();
                out.append(&mut subout);
                proof {
                    assert(out.deep_view() =~= prev2 + subv);
                }
            }
        }
        proof {
            let t = d.subdirs@.take(j as int + 1);
            assert(t.drop_last() =~= d.subdirs@.take(j as int));
            assert(t.last() == d.subdirs@[j as int]);
            assert(out.deep_view() =~= out0 + search_subdirs(t, tv, inh, depth as nat));
        }
        j = j + 1;
    }
    proof {
        assert(d.subdirs@.take(d.subdirs@.len() as int) =~= d.subdirs@);
    }
    let ghost mid = out.deep_view();
    let mut k: usize = 0;
    proof {
        assert(d.entries@.take(0) =~= Seq::<EntryNode>::empty());
        assert(out.deep_view() =~= mid + search_entries(
            d.entries@.take(0),
            tv,
            inh,
            depth as nat,
        ));
    }
    while k < d.entries.len()
        invariant
            k <= d.entries@.len(),
            tv == terms.deep_view(),
            out.deep_view() == mid + search_entries(
                d.entries@.take(k as int),
                tv,
                inh,
                depth as nat,
            ),
        decreases d.entries@.len() - k,
    {
        let e = &d.entries[k];
        if !name_starts_with_dot(&e.name) && (inh || matches_any_exec(&e.name, terms)) {
            let ghost prev = out.deep_view();
            out.push(TreeLine { depth, label: e.name.clone() });
            proof {
                assert(out.deep_view() =~= prev.push(
                    TreeLineV { depth: depth as nat, label: e.name@ },
                ));
            }
        }
        proof {
            let t = d.entries@.take(k as int + 1);
            assert(t.drop_last() =~= d.entries@.take(k as int));
            assert(t.last() == d.entries@[k as int]);
            assert(out.deep_view() =~= mid + search_entries(t, tv, inh, depth as nat));
        }
        k = k + 1;
    }
    proof {
        assert(d.entries@.take(d.entries@.len() as int) =~= d.entries@);
        assert(out.deep_view() =~= out0 + search_dir(*d, tv, inh, depth as nat));
    }
}

impl Store {
    /// Searches the namespace for entries whose names contain any of the
    /// terms, case-insensitively, and returns the pruned listing: only
    /// directories that lead to a kept leaf appear. Fails with
    /// `EmptyQuery` exactly when no term is given.
    pub fn search(&self, terms: &Vec<String>) -> (r: Result<Vec<TreeLine>, SearchError>)
        requires
            dir_height(self.root) <= usize::MAX,
        ensures
            match r {
                Ok(lines) => terms@.len() > 0 && lines.deep_view() == search_dir(
                    self.root,
                    terms.deep_view(),
                    false,
                    0,
                ),
                Err(e) => e == SearchError::EmptyQuery && terms@.len() == 0,
            },
    {
        if terms.len() == 0 {
            return Err(SearchError::EmptyQuery);
        }
        let mut out: Vec<TreeLine> = Vec::new();
        proof {
            assert(out.deep_view() =~= Seq::<TreeLineV>::empty());
        }
        search_rec(&self.root, terms, false, 0, &mut out);
        proof {
            assert(Seq::<TreeLineV>::empty() + search_dir(self.root, terms.deep_view(), false, 0)
                =~= search_dir(self.root, terms.deep_view(), false, 0));
        }
        Ok(out)
    }
}

} // verus!
