//! Store lifecycle: writing and removing per-directory recipient files.
//!
//! Initialization writes the recipient file of a directory (creating the
//! directory when missing); deinitialization removes it and prunes
//! directories that the removal leaves without content. Signing the file
//! and re-encrypting the subtree are the caller's steps around these
//! transitions.

use vstd::prelude::*;

use crate::errors::LifecycleError;
use crate::model::{
    Dir, Store, dir_index, entry_at, find_dir, has_content, lemma_cons_eq, lemma_empty_dir,
    lemma_find_dir_absent, lemma_find_dir_push, lemma_find_dir_remove, lemma_find_dir_update,
    path_from, rec_file_at, valid_path, wf_dir,
};
use crate::resolver::rec_file_lookup;

verus! {

/// Builds the directory named `path[i]` holding nothing but a recipient
/// file with lines `ids` at the remaining segments.
fn new_rec_chain(path: &Vec<String>, i: usize, ids: Vec<String>) -> (nd: Dir)
    requires
        valid_path(path.deep_view()),
        i < path@.len(),
    ensures
        nd.name@ == path.deep_view()[i as int],
        wf_dir(nd),
        has_content(nd),
        rec_file_at(nd, path_from(path.deep_view(), i as int + 1)) == Some(ids.deep_view()),
        forall|q: Seq<Seq<char>>|
            q != path_from(path.deep_view(), i as int + 1) ==> #[trigger] rec_file_at(nd, q)
                is None,
        forall|q: Seq<Seq<char>>| #[trigger] entry_at(nd, q) is None,
    decreases path@.len() - i,
{
    let ghost p = path.deep_view();
    let ghost rest = path_from(p, i as int + 1);
    let n = path.len();
    let ghost mut inner_g: Dir = arbitrary();
    let mut rec: Option<Vec<String>> = None;
    let mut subdirs: Vec<Dir> = Vec::new();
    if i + 1 == n {
        rec = Some(ids);
    } else {
        let inner = new_rec_chain(path, i + 1, ids);
        proof {
            inner_g = inner;
        }
        subdirs.push(inner);
    }
    let nd = Dir { name: path[i].clone(), recipient_lines: rec, entries: Vec::new(), subdirs };
    proof {
        assert(rest.len() == p.len() - i - 1);
        if i + 1 == n {
            assert(rest.len() == 0);
            assert forall|q: Seq<Seq<char>>| true implies #[trigger] rec_file_at(nd, q) == (if q
                == rest {
                Some(ids.deep_view())
            } else {
                None
            }) by {
                if q.len() == 0 {
                    assert(q =~= rest);
                } else {
                    assert(q != rest);
                    assert(find_dir(nd.subdirs@, q[0]) is None);
                }
            }
            assert forall|q: Seq<Seq<char>>| true implies #[trigger] entry_at(nd, q) is None by {
                if q.len() == 1 {
                } else if q.len() > 1 {
                    assert(find_dir(nd.subdirs@, q[0]) is None);
                }
            }
        } else {
            let inner = inner_g;
            assert(nd.subdirs@.len() == 1 && nd.subdirs@[0] == inner);
            assert(inner.name@ == p[i + 1]);
            assert(rest[0] == p[i + 1]);
            let ghost rest2 = path_from(p, i as int + 2);
            assert(rest.drop_first() =~= rest2);
            assert forall|q: Seq<Seq<char>>| true implies #[trigger] rec_file_at(nd, q) == (if q
                == rest {
                Some(ids.deep_view())
            } else {
                None
            }) by {
                if q.len() == 0 {
                    assert(q != rest);
                } else {
                    if q[0] == p[i + 1] {
                        assert(find_dir(nd.subdirs@, q[0]) == Some(inner)) by {
                            assert(nd.subdirs@[0].name@ == q[0]);
                        }
                        assert(rec_file_at(nd, q) == rec_file_at(inner, q.drop_first()));
                        if q == rest {
                            assert(q.drop_first() =~= rest2);
                            assert(rec_file_at(inner, q.drop_first()) == Some(ids.deep_view()));
                        } else {
                            assert(q.drop_first() != rest2) by {
                                if q.drop_first() == rest2 {
                                    lemma_cons_eq(q, rest);
                                }
                            }
                            assert(rec_file_at(inner, q.drop_first()) is None);
                        }
                    } else {
                        assert(find_dir(nd.subdirs@, q[0]) is None) by {
                            lemma_find_dir_absent(nd.subdirs@, q[0]);
                        }
                        assert(q != rest);
                    }
                }
            }
            assert forall|q: Seq<Seq<char>>| true implies #[trigger] entry_at(nd, q) is None by {
                if q.len() == 1 {
                } else if q.len() > 1 {
                    if q[0] == p[i + 1] {
                        assert(find_dir(nd.subdirs@, q[0]) == Some(inner));
                        assert(entry_at(nd, q) == entry_at(inner, q.drop_first()));
                        assert(entry_at(inner, q.drop_first()) is None);
                    } else {
                        lemma_find_dir_absent(nd.subdirs@, q[0]);
                    }
                }
            }
            assert(wf_dir(nd));
        }
    }
    nd
}

/// Writes `ids` as the recipient file of the directory at the remaining
/// segments of `path` below `d`, replacing an existing file there and
/// creating missing directories on the way. Nothing else below `d`
/// changes.
fn put_rec_rec(d: &mut Dir, path: &Vec<String>, i: usize, ids: Vec<String>)
    requires
        wf_dir(*old(d)),
        valid_path(path.deep_view()),
        i <= path@.len(),
    ensures
        wf_dir(*final(d)),
        final(d).name == old(d).name,
        has_content(*final(d)),
        rec_file_at(*final(d), path_from(path.deep_view(), i as int)) == Some(ids.deep_view()),
        forall|q: Seq<Seq<char>>|
            q != path_from(path.deep_view(), i as int) ==> #[trigger] rec_file_at(*final(d), q)
                == rec_file_at(*old(d), q),
        forall|q: Seq<Seq<char>>| #[trigger]
            entry_at(*final(d), q) == entry_at(*old(d), q),
    decreases path@.len() - i,
{
    let ghost p = path.deep_view();
    let ghost rest = path_from(p, i as int);
    let n = path.len();
    proof {
        assert(rest.len() == p.len() - i);
    }
    if i == n {
        d.recipient_lines = Some(ids);
        proof {
            assert forall|q: Seq<Seq<char>>| q != rest implies #[trigger] rec_file_at(*d, q)
                == rec_file_at(*old(d), q) by {
                if q.len() == 0 {
                    assert(q =~= rest);
                }
            }
            assert(wf_dir(*d));
        }
    } else {
        let seg = &path[i];
        let ghost rest2 = path_from(p, i as int + 1);
        proof {
            assert(rest[0] == p[i as int]);
            assert(rest.drop_first() =~= rest2);
        }
        match dir_index(&d.subdirs, seg) {
            Some(j) => {
                let ghost s0 = d.subdirs@;
                let sub = &mut d.subdirs[j];
                put_rec_rec(sub, path, i + 1, ids);
                proof {
                    let sub2 = d.subdirs@[j as int];
                    assert(d.subdirs@ =~= s0.update(j as int, sub2));
                    assert(sub2.name@ == seg@);
                    assert forall|nm: Seq<char>| true implies #[trigger] find_dir(d.subdirs@, nm)
                        == (if nm == seg@ {
                        Some(sub2)
                    } else {
                        find_dir(s0, nm)
                    }) by {
                        lemma_find_dir_update(s0, j as int, sub2, nm);
                    }
                    assert(rec_file_at(*d, rest) == Some(ids.deep_view()));
                    assert forall|q: Seq<Seq<char>>| q != rest implies #[trigger] rec_file_at(
                        *d,
                        q,
                    ) == rec_file_at(*old(d), q) by {
                        if q.len() > 0 && q[0] == seg@ {
                            assert(q.drop_first() != rest2) by {
                                if q.drop_first() == rest2 {
                                    lemma_cons_eq(q, rest);
                                }
                            }
                            assert(rec_file_at(*d, q) == rec_file_at(sub2, q.drop_first()));
                            assert(rec_file_at(*old(d), q) == rec_file_at(
                                s0[j as int],
                                q.drop_first(),
                            ));
                        }
                    }
                    assert forall|q: Seq<Seq<char>>| true implies #[trigger] entry_at(*d, q)
                        == entry_at(*old(d), q) by {
                        if q.len() > 1 && q[0] == seg@ {
                            assert(entry_at(*d, q) == entry_at(sub2, q.drop_first()));
                            assert(entry_at(*old(d), q) == entry_at(s0[j as int], q.drop_first()));
                        }
                    }
                    assert(wf_dir(*d));
                }
            },
            None => {
                let ghost s0 = d.subdirs@;
                let nd = new_rec_chain(path, i, ids);
                let ghost nd_g = nd;
                d.subdirs.push(nd);
                proof {
                    let nd = nd_g;
                    assert(d.subdirs@[s0.len() as int] == nd);
                    assert forall|nm: Seq<char>| true implies #[trigger] find_dir(d.subdirs@, nm)
                        == (if nm == seg@ {
                        Some(nd)
                    } else {
                        find_dir(s0, nm)
                    }) by {
                        lemma_find_dir_push(s0, nd, nm);
                    }
                    assert(rec_file_at(*d, rest) == Some(ids.deep_view())) by {
                        assert(rec_file_at(*d, rest) == rec_file_at(nd, rest.drop_first()));
                    }
                    assert forall|q: Seq<Seq<char>>| q != rest implies #[trigger] rec_file_at(
                        *d,
                        q,
                    ) == rec_file_at(*old(d), q) by {
                        if q.len() > 0 && q[0] == seg@ {
                            assert(q.drop_first() != rest2) by {
                                if q.drop_first() == rest2 {
                                    lemma_cons_eq(q, rest);
                                }
                            }
                            assert(rec_file_at(*d, q) == rec_file_at(nd, q.drop_first()));
                            assert(rec_file_at(nd, q.drop_first()) is None);
                            assert(rec_file_at(*old(d), q) is None);
                        }
                    }
                    assert forall|q: Seq<Seq<char>>| true implies #[trigger] entry_at(*d, q)
                        == entry_at(*old(d), q) by {
                        if q.len() > 1 && q[0] == seg@ {
                            assert(entry_at(*d, q) == entry_at(nd, q.drop_first()));
                            assert(entry_at(nd, q.drop_first()) is None);
                            assert(entry_at(*old(d), q) is None);
                        }
                    }
                    assert(wf_dir(*d));
                }
            },
        }
    }
}

/// Removes the recipient file of the directory at the remaining segments
/// of `path` below `d` and prunes every directory the removal leaves
/// without content. Nothing else below `d` changes.
fn remove_rec_rec(d: &mut Dir, path: &Vec<String>, i: usize)
    requires
        wf_dir(*old(d)),
        valid_path(path.deep_view()),
        i <= path@.len(),
        rec_file_at(*old(d), path_from(path.deep_view(), i as int)) is Some,
    ensures
        wf_dir(*final(d)),
        final(d).name == old(d).name,
        rec_file_at(*final(d), path_from(path.deep_view(), i as int)) is None,
        forall|q: Seq<Seq<char>>|
            q != path_from(path.deep_view(), i as int) ==> #[trigger] rec_file_at(*final(d), q)
                == rec_file_at(*old(d), q),
        forall|q: Seq<Seq<char>>| #[trigger]
            entry_at(*final(d), q) == entry_at(*old(d), q),
    decreases path@.len() - i,
{
    let ghost p = path.deep_view();
    let ghost rest = path_from(p, i as int);
    let n = path.len();
    proof {
        assert(rest.len() == p.len() - i);
    }
    if i == n {
        d.recipient_lines = None;
        proof {
            assert forall|q: Seq<Seq<char>>| q != rest implies #[trigger] rec_file_at(*d, q)
                == rec_file_at(*old(d), q) by {
                if q.len() == 0 {
                    assert(q =~= rest);
                }
            }
            assert(wf_dir(*d));
        }
    } else {
        let seg = &path[i];
        let ghost rest2 = path_from(p, i as int + 1);
        proof {
            assert(rest[0] == p[i as int]);
            assert(rest.drop_first() =~= rest2);
        }
        match dir_index(&d.subdirs, seg) {
            Some(j) => {
                let ghost s0 = d.subdirs@;
                proof {
                    assert(rec_file_at(*old(d), rest) == rec_file_at(s0[j as int], rest2));
                }
                let sub = &mut d.subdirs[j];
                remove_rec_rec(sub, path, i + 1);
                let prune = d.subdirs[j].entries.is_empty() && d.subdirs[j].subdirs.is_empty()
                    && d.subdirs[j].recipient_lines.is_none();
                let ghost sub2 = d.subdirs@[j as int];
                proof {
                    assert(d.subdirs@ =~= s0.update(j as int, sub2));
                    assert(sub2.name@ == seg@);
                }
                if prune {
                    d.subdirs.remove(j);
                    proof {
                        assert(forall|q: Seq<Seq<char>>| #[trigger] entry_at(sub2, q) is None
                            && rec_file_at(sub2, q) is None) by {
                            assert forall|q: Seq<Seq<char>>| true implies #[trigger] entry_at(
                                sub2,
                                q,
                            ) is None && rec_file_at(sub2, q) is None by {
                                lemma_empty_dir(sub2, q);
                            }
                        }
                        assert(d.subdirs@ =~= s0.remove(j as int));
                        assert forall|nm: Seq<char>| true implies #[trigger] find_dir(
                            d.subdirs@,
                            nm,
                        ) == (if nm == seg@ {
                            None::<Dir>
                        } else {
                            find_dir(s0, nm)
                        }) by {
                            lemma_find_dir_remove(s0, j as int, nm);
                        }
                        assert(rec_file_at(*d, rest) is None);
                        assert forall|q: Seq<Seq<char>>| q != rest implies #[trigger] rec_file_at(
                            *d,
                            q,
                        ) == rec_file_at(*old(d), q) by {
                            if q.len() > 0 && q[0] == seg@ {
                                assert(q.drop_first() != rest2) by {
                                    if q.drop_first() == rest2 {
                                        lemma_cons_eq(q, rest);
                                    }
                                }
                                assert(rec_file_at(*old(d), q) == rec_file_at(
                                    s0[j as int],
                                    q.drop_first(),
                                ));
                                assert(rec_file_at(s0[j as int], q.drop_first()) == rec_file_at(
                                    sub2,
                                    q.drop_first(),
                                ));
                                assert(rec_file_at(*d, q) is None);
                            }
                        }
                        assert forall|q: Seq<Seq<char>>| true implies #[trigger] entry_at(*d, q)
                            == entry_at(*old(d), q) by {
                            if q.len() > 1 && q[0] == seg@ {
                                assert(entry_at(*old(d), q) == entry_at(
                                    s0[j as int],
                                    q.drop_first(),
                                ));
                                assert(entry_at(s0[j as int], q.drop_first()) == entry_at(
                                    sub2,
                                    q.drop_first(),
                                ));
                                assert(entry_at(*d, q) is None);
                            }
                        }
                        assert(wf_dir(*d));
                    }
                } else {
                    proof {
                        assert(has_content(sub2)) by {
                            if sub2.entries@.len() > 0 {
                            } else if sub2.recipient_lines is Some {
                            } else {
                                assert(sub2.subdirs@.len() > 0);
                                assert(has_content(sub2.subdirs@[0]));
                            }
                        }
                        assert forall|nm: Seq<char>| true implies #[trigger] find_dir(
                            d.subdirs@,
                            nm,
                        ) == (if nm == seg@ {
                            Some(sub2)
                        } else {
                            find_dir(s0, nm)
                        }) by {
                            lemma_find_dir_update(s0, j as int, sub2, nm);
                        }
                        assert(rec_file_at(*d, rest) is None);
                        assert forall|q: Seq<Seq<char>>| q != rest implies #[trigger] rec_file_at(
                            *d,
                            q,
                        ) == rec_file_at(*old(d), q) by {
                            if q.len() > 0 && q[0] == seg@ {
                                assert(q.drop_first() != rest2) by {
                                    if q.drop_first() == rest2 {
                                        lemma_cons_eq(q, rest);
                                    }
                                }
                                assert(rec_file_at(*d, q) == rec_file_at(sub2, q.drop_first()));
                                assert(rec_file_at(*old(d), q) == rec_file_at(
                                    s0[j as int],
                                    q.drop_first(),
                                ));
                            }
                        }
                        assert forall|q: Seq<Seq<char>>| true implies #[trigger] entry_at(*d, q)
                            == entry_at(*old(d), q) by {
                            if q.len() > 1 && q[0] == seg@ {
                                assert(entry_at(*d, q) == entry_at(sub2, q.drop_first()));
                                assert(entry_at(*old(d), q) == entry_at(
                                    s0[j as int],
                                    q.drop_first(),
                                ));
                            }
                        }
                        assert(wf_dir(*d));
                    }
                }
            },
            None => {
                proof {
                    assert(false);
                }
            },
        }
    }
}

/// A prefix relation on paths: `q` names a directory on the way to `p`.
pub open spec fn is_path_prefix(q: Seq<Seq<char>>, p: Seq<Seq<char>>) -> bool {
    q.len() <= p.len() && q == p.subrange(0, q.len() as int)
}

/// A directory path is part of the namespace exactly when it is the root
/// or leads to some entry or recipient file.
pub open spec fn dir_in_namespace(s: Store, q: Seq<Seq<char>>) -> bool {
    ||| q.len() == 0
    ||| exists|p: Seq<Seq<char>>| #[trigger]
        s.entries().dom().contains(p) && is_path_prefix(q, p)
    ||| exists|p: Seq<Seq<char>>| #[trigger]
        s.recipient_files().dom().contains(p) && is_path_prefix(q, p)
}

impl Store {
    /// Initializes the directory `subfolder`: writes `ids` as its
    /// recipient-file lines, creating the directory when missing and
    /// replacing an existing recipient file. Entries are untouched;
    /// signing the file and re-encrypting the subtree are the caller's
    /// following steps.
    pub fn init(&mut self, ids: Vec<String>, subfolder: &Vec<String>)
        requires
            old(self).wf(),
            valid_path(subfolder.deep_view()),
        ensures
            final(self).wf(),
            final(self).recipient_files() == old(self).recipient_files().insert(
                subfolder.deep_view(),
                ids.deep_view(),
            ),
            final(self).entries() == old(self).entries(),
    {
        let ghost sub = subfolder.deep_view();
        let ghost idsv = ids.deep_view();
        put_rec_rec(&mut self.root, subfolder, 0, ids);
        proof {
            assert(path_from(sub, 0) =~= sub);
            let r1 = self.recipient_files();
            let r2 = old(self).recipient_files().insert(sub, idsv);
            assert forall|q: Seq<Seq<char>>| r1.dom().contains(q) <==> r2.dom().contains(
                q,
            ) by {
                if q != sub {
                    assert(rec_file_at(self.root, q) == rec_file_at(old(self).root, q));
                }
            }
            assert(r1.dom() =~= r2.dom());
            assert forall|q: Seq<Seq<char>>| r1.dom().contains(q) implies r1[q] == r2[q] by {
                if q != sub {
                    assert(rec_file_at(self.root, q) == rec_file_at(old(self).root, q));
                }
            }
            assert(r1 =~= r2);
            let m1 = self.entries();
            let m2 = old(self).entries();
            assert forall|q: Seq<Seq<char>>| m1.dom().contains(q) <==> m2.dom().contains(
                q,
            ) by {
                assert(entry_at(self.root, q) == entry_at(old(self).root, q));
            }
            assert(m1.dom() =~= m2.dom());
            assert forall|q: Seq<Seq<char>>| m1.dom().contains(q) implies m1[q] == m2[q] by {
                assert(entry_at(self.root, q) == entry_at(old(self).root, q));
            }
            assert(m1 =~= m2);
        }
    }

    /// Deinitializes the directory `subfolder`: removes its recipient
    /// file and prunes directories the removal leaves without content.
    /// Fails with `NotInitialized`, changing nothing, exactly when that
    /// directory carries no recipient file.
    pub fn deinit(&mut self, subfolder: &Vec<String>) -> (r: Result<(), LifecycleError>)
        requires
            old(self).wf(),
            valid_path(subfolder.deep_view()),
        ensures
            final(self).wf(),
            match r {
                Ok(()) => {
                    &&& old(self).recipient_files().contains_key(subfolder.deep_view())
                    &&& final(self).recipient_files() == old(self).recipient_files().remove(
                        subfolder.deep_view(),
                    )
                    &&& final(self).entries() == old(self).entries()
                },
                Err(e) => {
                    &&& e == LifecycleError::NotInitialized
                    &&& !old(self).recipient_files().contains_key(subfolder.deep_view())
                    &&& *final(self) == *old(self)
                },
            },
    {
        let ghost sub = subfolder.deep_view();
        proof {
            assert(path_from(sub, 0) =~= sub);
            assert(sub.subrange(0, sub.len() as int) =~= sub);
        }
        let present = match rec_file_lookup(&self.root, subfolder, 0, subfolder.len()) {
            Some(_) => true,
            None => false,
        };
        if !present {
            return Err(LifecycleError::NotInitialized);
        }
        remove_rec_rec(&mut self.root, subfolder, 0);
        proof {
            let r1 = self.recipient_files();
            let r2 = old(self).recipient_files().remove(sub);
            assert forall|q: Seq<Seq<char>>| r1.dom().contains(q) <==> r2.dom().contains(
                q,
            ) by {
                if q != sub {
                    assert(rec_file_at(self.root, q) == rec_file_at(old(self).root, q));
                }
            }
            assert(r1.dom() =~= r2.dom());
            assert forall|q: Seq<Seq<char>>| r1.dom().contains(q) implies r1[q] == r2[q] by {
                if q != sub {
                    assert(rec_file_at(self.root, q) == rec_file_at(old(self).root, q));
                }
            }
            assert(r1 =~= r2);
            let m1 = self.entries();
            let m2 = old(self).entries();
            assert forall|q: Seq<Seq<char>>| m1.dom().contains(q) <==> m2.dom().contains(
                q,
            ) by {
                assert(entry_at(self.root, q) == entry_at(old(self).root, q));
            }
            assert(m1.dom() =~= m2.dom());
            assert forall|q: Seq<Seq<char>>| m1.dom().contains(q) implies m1[q] == m2[q] by {
                assert(entry_at(self.root, q) == entry_at(old(self).root, q));
            }
            assert(m1 =~= m2);
        }
        Ok(())
    }
}

/// Initializing and then deinitializing a subfolder that had no recipient
/// file of its own restores both maps of the store and leaves no residual
/// directory in the namespace: the round trip is invisible.
pub proof fn lemma_init_deinit_round_trip(
    s0: Store,
    s1: Store,
    s2: Store,
    sub: Seq<Seq<char>>,
    ids: Seq<Seq<char>>,
)
    requires
        !s0.recipient_files().contains_key(sub),
        s1.entries() == s0.entries(),
        s1.recipient_files() == s0.recipient_files().insert(sub, ids),
        s2.entries() == s1.entries(),
        s2.recipient_files() == s1.recipient_files().remove(sub),
    ensures
        s2.entries() == s0.entries(),
        s2.recipient_files() == s0.recipient_files(),
        forall|q: Seq<Seq<char>>| dir_in_namespace(s2, q) <==> dir_in_namespace(s0, q),
{
    assert(s0.recipient_files().insert(sub, ids).remove(sub) =~= s0.recipient_files());
    assert forall|q: Seq<Seq<char>>| dir_in_namespace(s2, q) <==> dir_in_namespace(s0, q) by {
        if q.len() > 0 {
            if dir_in_namespace(s2, q) {
                if exists|p: Seq<Seq<char>>| #[trigger]
                    s2.entries().dom().contains(p) && is_path_prefix(q, p) {
                    let p = choose|p: Seq<Seq<char>>| #[trigger]
                        s2.entries().dom().contains(p) && is_path_prefix(q, p);
                    assert(s0.entries().dom().contains(p) && is_path_prefix(q, p));
                } else {
                    let p = choose|p: Seq<Seq<char>>| #[trigger]
                        s2.recipient_files().dom().contains(p) && is_path_prefix(q, p);
                    assert(s0.recipient_files().dom().contains(p) && is_path_prefix(q, p));
                }
            }
            if dir_in_namespace(s0, q) {
                if exists|p: Seq<Seq<char>>| #[trigger]
                    s0.entries().dom().contains(p) && is_path_prefix(q, p) {
                    let p = choose|p: Seq<Seq<char>>| #[trigger]
                        s0.entries().dom().contains(p) && is_path_prefix(q, p);
                    assert(s2.entries().dom().contains(p) && is_path_prefix(q, p));
                } else {
                    let p = choose|p: Seq<Seq<char>>| #[trigger]
                        s0.recipient_files().dom().contains(p) && is_path_prefix(q, p);
                    assert(s2.recipient_files().dom().contains(p) && is_path_prefix(q, p));
                }
            }
        }
    }
}

/// Completes the signing step of initialization from the signing
/// backend's outcome: success, or `BackendFailure` carrying the
/// backend's own message. A signing failure is fatal to `init`; the
/// recipient file already written is not rolled back.
pub fn complete_signing(outcome: Result<(), String>) -> (r: Result<(), LifecycleError>)
    ensures
        match r {
            Ok(()) => outcome is Ok,
            Err(e) => match e {
                LifecycleError::BackendFailure(msg) => outcome matches Err(m) && msg == m,
                _ => false,
            },
        },
{
    match outcome {
        Ok(()) => Ok(()),
        Err(msg) => Err(LifecycleError::BackendFailure(msg)),
    }
}

} // verus!
