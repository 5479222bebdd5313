//! Recipient resolution: nearest-enclosing recipient configuration.
//!
//! Every entry is encrypted for the recipient set of the closest directory
//! at or above it that carries a recipient file; a directory without one
//! inherits from its parent, up to the store root.

use vstd::prelude::*;

use crate::errors::ResolveError;
use crate::model::{Dir, Store, dir_index, rec_file_at};
use crate::text::{clean_lines, clean_recipient_lines};

verus! {

/// The recipient identifiers governing directory path `p` under the
/// recipient-file map `recs`: the cleaned lines of the file at the deepest
/// prefix of `p` that carries one, or nothing when no prefix does.
pub open spec fn resolve_spec(
    recs: Map<Seq<Seq<char>>, Seq<Seq<char>>>,
    p: Seq<Seq<char>>,
) -> Option<Seq<Seq<char>>>
    decreases p.len(),
{
    if recs.contains_key(p) {
        Some(clean_lines(recs[p]))
    } else if p.len() == 0 {
        None
    } else {
        resolve_spec(recs, p.drop_last())
    }
}

/// The raw recipient-file lines at the directory `path[i .. upto]` below
/// `d`, if that directory exists and carries one.
pub(crate) fn rec_file_lookup<'a>(d: &'a Dir, path: &Vec<String>, i: usize, upto: usize) -> (r: Option<
    &'a Vec<String>,
>)
    requires
        i <= upto,
        upto <= path@.len(),
    ensures
        match r {
            Some(lines) => rec_file_at(*d, path.deep_view().subrange(i as int, upto as int))
                == Some(lines.deep_view()),
            None => rec_file_at(*d, path.deep_view().subrange(i as int, upto as int)) is None,
        },
    decreases upto - i,
{
    let ghost p = path.deep_view();
    let ghost sub = p.subrange(i as int, upto as int);
    if i == upto {
        assert(sub.len() == 0);
        match &d.recipient_lines {
            Some(l) => Some(l),
            None => None,
        }
    } else {
        proof {
            assert(sub[0] == p[i as int]);
            assert(sub.drop_first() =~= p.subrange(i as int + 1, upto as int));
        }
        match dir_index(&d.subdirs, &path[i]) {
            Some(j) => rec_file_lookup(&d.subdirs[j], path, i + 1, upto),
            None => None,
        }
    }
}

impl Store {
    /// Resolves the recipient set for the directory `dir`: the cleaned
    /// lines of the recipient file of the nearest enclosing directory that
    /// has one. Fails with `NotInitialized` exactly when no directory from
    /// `dir` up to the store root carries a recipient file.
    pub fn resolve(&self, dir: &Vec<String>) -> (r: Result<Vec<String>, ResolveError>)
        ensures
            match r {
                Ok(ids) => resolve_spec(self.recipient_files(), dir.deep_view()) == Some(
                    ids.deep_view(),
                ),
                Err(e) => e == ResolveError::NotInitialized && resolve_spec(
                    self.recipient_files(),
                    dir.deep_view(),
                ) is None,
            },
    {
        let ghost m = self.recipient_files();
        let ghost p = dir.deep_view();
        let mut k: usize = dir.len();
        proof {
            assert(p.take(p.len() as int) =~= p);
        }
        loop
            invariant
                k <= dir@.len(),
                p == dir.deep_view(),
                m == self.recipient_files(),
                resolve_spec(m, p) == resolve_spec(m, p.take(k as int)),
            decreases k,
        {
            match rec_file_lookup(&self.root, dir, 0, k) {
                Some(lines) => {
                    proof {
                        assert(m.contains_key(p.take(k as int)));
                        assert(m[p.take(k as int)] == lines.deep_view());
                    }
                    let ids = clean_recipient_lines(lines);
                    return Ok(ids);
                },
                None => {
                    proof {
                        assert(!m.contains_key(p.take(k as int)));
                    }
                    if k == 0 {
                        proof {
                            assert(p.take(0).len() == 0);
                        }
                        return Err(ResolveError::NotInitialized);
                    }
                    proof {
                        assert(p.take(k as int).drop_last() =~= p.take(k as int - 1));
                        assert(p.take(k as int).len() == k);
                    }
                    k = k - 1;
                },
            }
        }
    }
}

} // verus!
