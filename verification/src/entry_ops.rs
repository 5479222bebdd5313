//! Entry operations: create, read and delete of individual secrets.
//!
//! The store is updated in place; each operation's contract describes the
//! whole namespace after it through the entries map and the recipient-file
//! map, so callers can reason about everything the operation did not touch.

use vstd::prelude::*;

use crate::errors::EntryError;
use crate::resolver::resolve_spec;
use crate::model::{
    Dir, EntryNode, Store, copy_bytes, dir_index, entry_at, entry_index, find_dir, find_entry,
    has_content, lemma_empty_dir, lemma_find_dir_push, lemma_find_dir_remove,
    lemma_find_dir_absent, lemma_find_dir_update, lemma_find_entry_absent,
    lemma_find_entry_push, lemma_find_entry_remove, lemma_find_entry_update, lemma_cons_eq,
    path_from, rec_file_at, valid_path, wf_dir,
};

verus! {

/// Builds the directory named `path[i]` holding nothing but the entry at
/// the remaining segments, with `ct` as its ciphertext.
fn new_entry_chain(path: &Vec<String>, i: usize, ct: Vec<u8>) -> (nd: Dir)
    requires
        valid_path(path.deep_view()),
        i + 1 < path@.len(),
    ensures
        nd.name@ == path.deep_view()[i as int],
        wf_dir(nd),
        has_content(nd),
        entry_at(nd, path_from(path.deep_view(), i as int + 1)) == Some(ct@),
        forall|q: Seq<Seq<char>>|
            q != path_from(path.deep_view(), i as int + 1) ==> #[trigger] entry_at(nd, q) is None,
        forall|q: Seq<Seq<char>>| #[trigger] rec_file_at(nd, q) is None,
    decreases path@.len() - i,
{
    let ghost p = path.deep_view();
    let ghost rest = path_from(p, i as int + 1);
    let n = path.len();
    let mut entries: Vec<EntryNode> = Vec::new();
    let mut subdirs: Vec<Dir> = Vec::new();
    let ghost mut inner_g: Dir = arbitrary();
    if i + 2 == n {
        entries.push(EntryNode { name: path[i + 1].clone(), ciphertext: ct });
    } else {
        let inner = new_entry_chain(path, i + 1, ct);
        proof {
            inner_g = inner;
        }
        subdirs.push(inner);
    }
    let nd = Dir { name: path[i].clone(), recipient_lines: None, entries, subdirs };
    proof {
        assert(rest.len() == p.len() - i - 1);
        assert(rest[0] == p[i + 1]);
        if i + 2 == n {
            assert(nd.entries@ =~= seq![
                EntryNode { name: path@[i as int + 1], ciphertext: ct },
            ]);
            assert(nd.entries@[0].name@ == p[i + 1]);
            assert forall|q: Seq<Seq<char>>| true implies #[trigger] entry_at(nd, q) == (if q
                == rest {
                Some(ct@)
            } else {
                None
            }) by {
                if q.len() == 1 {
                    if q[0] == p[i + 1] {
                        assert(q =~= rest);
                    } else {
                        assert(find_entry(nd.entries@, q[0]) is None) by {
                            lemma_find_entry_absent(nd.entries@, q[0]);
                        }
                        assert(q != rest);
                    }
                } else {
                    assert(q != rest);
                    if q.len() > 1 {
                        assert(find_dir(nd.subdirs@, q[0]) is None);
                    }
                }
            }
            assert forall|q: Seq<Seq<char>>| true implies #[trigger] rec_file_at(nd, q)
                is None by {
                if q.len() > 0 {
                    assert(find_dir(nd.subdirs@, q[0]) is None);
                }
            }
        } else {
            let inner = inner_g;
            assert(nd.subdirs@.len() == 1 && nd.subdirs@[0] == inner);
            assert(inner.name@ == p[i + 1]);
            let ghost rest2 = path_from(p, i as int + 2);
            assert(rest.drop_first() =~= rest2);
            assert forall|q: Seq<Seq<char>>| true implies #[trigger] entry_at(nd, q) == (if q
                == rest {
                Some(ct@)
            } else {
                None
            }) by {
                if q.len() == 0 {
                    assert(q != rest);
                } else if q.len() == 1 {
                    assert(q != rest);
                    assert(find_entry(nd.entries@, q[0]) is None);
                } else {
                    if q[0] == p[i + 1] {
                        assert(find_dir(nd.subdirs@, q[0]) == Some(inner)) by {
                            assert(nd.subdirs@[0].name@ == q[0]);
                        }
                        assert(entry_at(nd, q) == entry_at(inner, q.drop_first()));
                        if q == rest {
                            assert(q.drop_first() =~= rest2);
                            assert(entry_at(inner, q.drop_first()) == Some(ct@));
                        } else {
                            assert(q.drop_first() != rest2) by {
                                if q.drop_first() == rest2 {
                                    lemma_cons_eq(q, rest);
                                }
                            }
                            assert(entry_at(inner, q.drop_first()) is None);
                        }
                    } else {
                        assert(find_dir(nd.subdirs@, q[0]) is None) by {
                            lemma_find_dir_absent(nd.subdirs@, q[0]);
                        }
                    }
                }
            }
            assert forall|q: Seq<Seq<char>>| true implies #[trigger] rec_file_at(nd, q)
                is None by {
                if q.len() > 0 {
                    if q[0] == p[i + 1] {
                        assert(find_dir(nd.subdirs@, q[0]) == Some(inner));
                        assert(rec_file_at(nd, q) == rec_file_at(inner, q.drop_first()));
                        assert(rec_file_at(inner, q.drop_first()) is None);
                    } else {
                        lemma_find_dir_absent(nd.subdirs@, q[0]);
                    }
                }
            }
            assert(wf_dir(nd));
        }
    }
    nd
}

/// Stores `ct` as the entry at the remaining segments of `path` below `d`,
/// replacing an existing entry of that name and creating missing
/// directories on the way. Nothing else below `d` changes.
fn put_entry_rec(d: &mut Dir, path: &Vec<String>, i: usize, ct: Vec<u8>)
    requires
        wf_dir(*old(d)),
        valid_path(path.deep_view()),
        i < path@.len(),
    ensures
        wf_dir(*final(d)),
        final(d).name == old(d).name,
        has_content(*final(d)),
        entry_at(*final(d), path_from(path.deep_view(), i as int)) == Some(ct@),
        forall|q: Seq<Seq<char>>|
            q != path_from(path.deep_view(), i as int) ==> #[trigger] entry_at(*final(d), q)
                == entry_at(*old(d), q),
        forall|q: Seq<Seq<char>>| #[trigger]
            rec_file_at(*final(d), q) == rec_file_at(*old(d), q),
    decreases path@.len() - i,
{
    let ghost p = path.deep_view();
    let ghost rest = path_from(p, i as int);
    let n = path.len();
    proof {
        assert(rest.len() == p.len() - i);
        assert(rest[0] == p[i as int]);
    }
    if i + 1 == n {
        let seg = &path[i];
        match entry_index(&d.entries, seg) {
            Some(j) => {
                let ghost s0 = d.entries@;
                let e = &mut d.entries[j];
                e.ciphertext = ct;
                proof {
                    let e2 = EntryNode { name: s0[j as int].name, ciphertext: ct };
                    assert(d.entries@ =~= s0.update(j as int, e2));
                    lemma_find_entry_update(s0, j as int, e2, seg@);
                    assert(forall|nm: Seq<char>| nm != seg@ ==> #[trigger] find_entry(
                        d.entries@,
                        nm,
                    ) == find_entry(s0, nm)) by {
                        assert forall|nm: Seq<char>| nm != seg@ implies #[trigger] find_entry(
                            d.entries@,
                            nm,
                        ) == find_entry(s0, nm) by {
                            lemma_find_entry_update(s0, j as int, e2, nm);
                        }
                    }
                }
            },
            None => {
                let ghost s0 = d.entries@;
                let e = EntryNode { name: seg.clone(), ciphertext: ct };
                d.entries.push(e);
                proof {
                    assert forall|nm: Seq<char>| true implies #[trigger] find_entry(d.entries@, nm)
                        == (if nm == seg@ {
                        Some(d.entries@[s0.len() as int])
                    } else {
                        find_entry(s0, nm)
                    }) by {
                        lemma_find_entry_push(s0, d.entries@[s0.len() as int], nm);
                    }
                }
            },
        }
        proof {
            assert(entry_at(*d, rest) == Some(ct@));
            assert forall|q: Seq<Seq<char>>| q != rest implies #[trigger] entry_at(*d, q)
                == entry_at(*old(d), q) by {
                if q.len() == 1 {
                    if q[0] == seg@ {
                        assert(q =~= rest);
                    }
                } else {
                }
            }
            assert(wf_dir(*d));
        }
    } else {
        let seg = &path[i];
        let ghost rest2 = path_from(p, i as int + 1);
        proof {
            assert(rest.drop_first() =~= rest2);
        }
        match dir_index(&d.subdirs, seg) {
            Some(j) => {
                let ghost s0 = d.subdirs@;
                let sub = &mut d.subdirs[j];
                put_entry_rec(sub, path, i + 1, ct);
                proof {
                    let sub2 = d.subdirs@[j as int];
                    assert(d.subdirs@ =~= s0.update(j as int, sub2));
                    assert(sub2.name@ == seg@);
                    assert forall|nm: Seq<char>| true implies #[trigger] find_dir(d.subdirs@, nm)
                        == (if nm == seg@ {
                        Some(sub2)
                    } else {
                        find_dir(s0, nm)
                    }) by {
                        lemma_find_dir_update(s0, j as int, sub2, nm);
                    }
                    assert(entry_at(*d, rest) == Some(ct@));
                    assert forall|q: Seq<Seq<char>>| q != rest implies #[trigger] entry_at(*d, q)
                        == entry_at(*old(d), q) by {
                        if q.len() > 1 && q[0] == seg@ {
                            assert(q.drop_first() != rest2) by {
                                if q.drop_first() == rest2 {
                                    lemma_cons_eq(q, rest);
                                }
                            }
                            assert(entry_at(*d, q) == entry_at(sub2, q.drop_first()));
                            assert(entry_at(*old(d), q) == entry_at(s0[j as int], q.drop_first()));
                        }
                    }
                    assert forall|q: Seq<Seq<char>>| true implies #[trigger] rec_file_at(*d, q)
                        == rec_file_at(*old(d), q) by {
                        if q.len() > 0 && q[0] == seg@ {
                            assert(rec_file_at(*d, q) == rec_file_at(sub2, q.drop_first()));
                            assert(rec_file_at(*old(d), q) == rec_file_at(
                                s0[j as int],
                                q.drop_first(),
                            ));
                        }
                    }
                    assert(wf_dir(*d));
                }
            },
            None => {
                let ghost s0 = d.subdirs@;
                let nd = new_entry_chain(path, i, ct);
                let ghost nd_g = nd;
                d.subdirs.push(nd);
                proof {
                    let nd = nd_g;
                    assert(d.subdirs@[s0.len() as int] == nd);
                    assert forall|nm: Seq<char>| true implies #[trigger] find_dir(d.subdirs@, nm)
                        == (if nm == seg@ {
                        Some(nd)
                    } else {
                        find_dir(s0, nm)
                    }) by {
                        lemma_find_dir_push(s0, nd, nm);
                    }
                    assert(entry_at(*d, rest) == Some(ct@)) by {
                        assert(entry_at(*d, rest) == entry_at(nd, rest.drop_first()));
                    }
                    assert forall|q: Seq<Seq<char>>| q != rest implies #[trigger] entry_at(*d, q)
                        == entry_at(*old(d), q) by {
                        if q.len() > 1 && q[0] == seg@ {
                            assert(q.drop_first() != rest2) by {
                                if q.drop_first() == rest2 {
                                    lemma_cons_eq(q, rest);
                                }
                            }
                            assert(entry_at(*d, q) == entry_at(nd, q.drop_first()));
                            assert(entry_at(nd, q.drop_first()) is None);
                            assert(entry_at(*old(d), q) is None);
                        }
                    }
                    assert forall|q: Seq<Seq<char>>| true implies #[trigger] rec_file_at(*d, q)
                        == rec_file_at(*old(d), q) by {
                        if q.len() > 0 && q[0] == seg@ {
                            assert(rec_file_at(*d, q) == rec_file_at(nd, q.drop_first()));
                            assert(rec_file_at(nd, q.drop_first()) is None);
                            assert(rec_file_at(*old(d), q) is None);
                        }
                    }
                    assert(wf_dir(*d));
                }
            },
        }
    }
}

/// Deletes the entry at the remaining segments of `path` below `d` and
/// prunes every directory the deletion leaves without content. Nothing
/// else below `d` changes.
fn remove_entry_rec(d: &mut Dir, path: &Vec<String>, i: usize)
    requires
        wf_dir(*old(d)),
        valid_path(path.deep_view()),
        i < path@.len(),
        entry_at(*old(d), path_from(path.deep_view(), i as int)) is Some,
    ensures
        wf_dir(*final(d)),
        final(d).name == old(d).name,
        final(d).recipient_lines == old(d).recipient_lines,
        entry_at(*final(d), path_from(path.deep_view(), i as int)) is None,
        forall|q: Seq<Seq<char>>|
            q != path_from(path.deep_view(), i as int) ==> #[trigger] entry_at(*final(d), q)
                == entry_at(*old(d), q),
        forall|q: Seq<Seq<char>>| #[trigger]
            rec_file_at(*final(d), q) == rec_file_at(*old(d), q),
    decreases path@.len() - i,
{
    let ghost p = path.deep_view();
    let ghost rest = path_from(p, i as int);
    let n = path.len();
    proof {
        assert(rest.len() == p.len() - i);
        assert(rest[0] == p[i as int]);
    }
    if i + 1 == n {
        let seg = &path[i];
        match entry_index(&d.entries, seg) {
            Some(j) => {
                let ghost s0 = d.entries@;
                d.entries.remove(j);
                proof {
                    assert forall|nm: Seq<char>| true implies #[trigger] find_entry(d.entries@, nm)
                        == (if nm == seg@ {
                        None::<EntryNode>
                    } else {
                        find_entry(s0, nm)
                    }) by {
                        lemma_find_entry_remove(s0, j as int, nm);
                    }
                    assert forall|q: Seq<Seq<char>>| q != rest implies #[trigger] entry_at(*d, q)
                        == entry_at(*old(d), q) by {
                        if q.len() == 1 && q[0] == seg@ {
                            assert(q =~= rest);
                        }
                    }
                    assert(wf_dir(*d));
                }
            },
            None => {
                proof {
                    assert(false);
                }
            },
        }
    } else {
        let seg = &path[i];
        let ghost rest2 = path_from(p, i as int + 1);
        proof {
            assert(rest.drop_first() =~= rest2);
        }
        match dir_index(&d.subdirs, seg) {
            Some(j) => {
                let ghost s0 = d.subdirs@;
                proof {
                    assert(entry_at(*old(d), rest) == entry_at(s0[j as int], rest2));
                }
                let sub = &mut d.subdirs[j];
                remove_entry_rec(sub, path, i + 1);
                let prune = d.subdirs[j].entries.is_empty() && d.subdirs[j].subdirs.is_empty()
                    && d.subdirs[j].recipient_lines.is_none();
                let ghost sub2 = d.subdirs@[j as int];
                proof {
                    assert(d.subdirs@ =~= s0.update(j as int, sub2));
                    assert(sub2.name@ == seg@);
                }
                if prune {
                    d.subdirs.remove(j);
                    proof {
                        assert(forall|q: Seq<Seq<char>>| #[trigger] entry_at(sub2, q) is None
                            && rec_file_at(sub2, q) is None) by {
                            assert forall|q: Seq<Seq<char>>| true implies #[trigger] entry_at(
                                sub2,
                                q,
                            ) is None && rec_file_at(sub2, q) is None by {
                                lemma_empty_dir(sub2, q);
                            }
                        }
                        assert(d.subdirs@ =~= s0.remove(j as int));
                        assert forall|nm: Seq<char>| true implies #[trigger] find_dir(
                            d.subdirs@,
                            nm,
                        ) == (if nm == seg@ {
                            None::<Dir>
                        } else {
                            find_dir(s0, nm)
                        }) by {
                            lemma_find_dir_remove(s0, j as int, nm);
                        }
                        assert(entry_at(*d, rest) is None);
                        assert forall|q: Seq<Seq<char>>| q != rest implies #[trigger] entry_at(
                            *d,
                            q,
                        ) == entry_at(*old(d), q) by {
                            if q.len() > 1 && q[0] == seg@ {
                                assert(q.drop_first() != rest2) by {
                                    if q.drop_first() == rest2 {
                                        lemma_cons_eq(q, rest);
                                    }
                                }
                                assert(entry_at(*old(d), q) == entry_at(
                                    s0[j as int],
                                    q.drop_first(),
                                ));
                                assert(entry_at(s0[j as int], q.drop_first()) == entry_at(
                                    sub2,
                                    q.drop_first(),
                                ));
                                assert(entry_at(*d, q) is None);
                            }
                        }
                        assert forall|q: Seq<Seq<char>>| true implies #[trigger] rec_file_at(
                            *d,
                            q,
                        ) == rec_file_at(*old(d), q) by {
                            if q.len() > 0 && q[0] == seg@ {
                                assert(rec_file_at(*old(d), q) == rec_file_at(
                                    s0[j as int],
                                    q.drop_first(),
                                ));
                                assert(rec_file_at(s0[j as int], q.drop_first()) == rec_file_at(
                                    sub2,
                                    q.drop_first(),
                                ));
                                assert(rec_file_at(*d, q) is None);
                            }
                        }
                        assert(wf_dir(*d));
                    }
                } else {
                    proof {
                        assert(has_content(sub2)) by {
                            if sub2.entries@.len() > 0 {
                            } else if sub2.recipient_lines is Some {
                            } else {
                                assert(sub2.subdirs@.len() > 0);
                                assert(has_content(sub2.subdirs@[0]));
                            }
                        }
                        assert forall|nm: Seq<char>| true implies #[trigger] find_dir(
                            d.subdirs@,
                            nm,
                        ) == (if nm == seg@ {
                            Some(sub2)
                        } else {
                            find_dir(s0, nm)
                        }) by {
                            lemma_find_dir_update(s0, j as int, sub2, nm);
                        }
                        assert(entry_at(*d, rest) is None);
                        assert forall|q: Seq<Seq<char>>| q != rest implies #[trigger] entry_at(
                            *d,
                            q,
                        ) == entry_at(*old(d), q) by {
                            if q.len() > 1 && q[0] == seg@ {
                                assert(q.drop_first() != rest2) by {
                                    if q.drop_first() == rest2 {
                                        lemma_cons_eq(q, rest);
                                    }
                                }
                                assert(entry_at(*d, q) == entry_at(sub2, q.drop_first()));
                                assert(entry_at(*old(d), q) == entry_at(
                                    s0[j as int],
                                    q.drop_first(),
                                ));
                            }
                        }
                        assert forall|q: Seq<Seq<char>>| true implies #[trigger] rec_file_at(
                            *d,
                            q,
                        ) == rec_file_at(*old(d), q) by {
                            if q.len() > 0 && q[0] == seg@ {
                                assert(rec_file_at(*d, q) == rec_file_at(sub2, q.drop_first()));
                                assert(rec_file_at(*old(d), q) == rec_file_at(
                                    s0[j as int],
                                    q.drop_first(),
                                ));
                            }
                        }
                        assert(wf_dir(*d));
                    }
                }
            },
            None => {
                proof {
                    assert(false);
                }
            },
        }
    }
}

/// Looks up the entry at the remaining segments of `path` below `d`.
fn get_entry_rec<'a>(d: &'a Dir, path: &Vec<String>, i: usize) -> (r: Option<&'a Vec<u8>>)
    requires
        i < path@.len(),
    ensures
        match r {
            Some(ct) => entry_at(*d, path_from(path.deep_view(), i as int)) == Some(ct@),
            None => entry_at(*d, path_from(path.deep_view(), i as int)) is None,
        },
    decreases path@.len() - i,
{
    let ghost p = path.deep_view();
    let ghost rest = path_from(p, i as int);
    proof {
        assert(rest.len() == p.len() - i);
        assert(rest[0] == p[i as int]);
    }
    let n = path.len();
    let seg = &path[i];
    if i + 1 == n {
        match entry_index(&d.entries, seg) {
            Some(j) => Some(&d.entries[j].ciphertext),
            None => None,
        }
    } else {
        proof {
            assert(rest.drop_first() =~= path_from(p, i as int + 1));
        }
        match dir_index(&d.subdirs, seg) {
            Some(j) => get_entry_rec(&d.subdirs[j], path, i + 1),
            None => None,
        }
    }
}

impl Store {
    /// Whether an entry is stored at `name`.
    pub fn contains_entry(&self, name: &Vec<String>) -> (r: bool)
        ensures
            r == self.entries().contains_key(name.deep_view()),
    {
        if name.len() == 0 {
            return false;
        }
        let r = get_entry_rec(&self.root, name, 0);
        proof {
            assert(path_from(name.deep_view(), 0) =~= name.deep_view());
        }
        r.is_some()
    }

    /// Reads the ciphertext stored at `name`. Fails with `NotFound` exactly
    /// when no entry of that name exists; decryption is the caller's step.
    pub fn read(&self, name: &Vec<String>) -> (r: Result<Vec<u8>, EntryError>)
        ensures
            match r {
                Ok(ct) => self.entries().contains_key(name.deep_view()) && ct@ == self.entries().index(name.deep_view()),
                Err(e) => e matches EntryError::NotFound && !self.entries().contains_key(
                    name.deep_view(),
                ),
            },
    {
        proof {
            assert(path_from(name.deep_view(), 0) =~= name.deep_view());
        }
        if name.len() == 0 {
            return Err(EntryError::NotFound);
        }
        match get_entry_rec(&self.root, name, 0) {
            Some(ct) => Ok(copy_bytes(ct)),
            None => Err(EntryError::NotFound),
        }
    }

    /// Stores `ciphertext` as the entry named by `name`, creating missing
    /// directories and replacing an existing entry of that name. The rest
    /// of the namespace, and every recipient file, stays as it was.
    pub fn commit_add(&mut self, name: &Vec<String>, ciphertext: Vec<u8>)
        requires
            old(self).wf(),
            valid_path(name.deep_view()),
            name@.len() > 0,
        ensures
            final(self).wf(),
            final(self).entries() == old(self).entries().insert(name.deep_view(), ciphertext@),
            final(self).recipient_files() == old(self).recipient_files(),
    {
        let ghost ct = ciphertext@;
        let ghost pname = name.deep_view();
        put_entry_rec(&mut self.root, name, 0, ciphertext);
        proof {
            assert(path_from(pname, 0) =~= pname);
            let m1 = self.entries();
            let m2 = old(self).entries().insert(pname, ct);
            assert forall|q: Seq<Seq<char>>| m1.dom().contains(q) <==> m2.dom().contains(
                q,
            ) by {
                if q != pname {
                    assert(entry_at(self.root, q) == entry_at(old(self).root, q));
                }
            }
            assert(m1.dom() =~= m2.dom());
            assert forall|q: Seq<Seq<char>>| m1.dom().contains(q) implies m1[q] == m2[q] by {
                if q != pname {
                    assert(entry_at(self.root, q) == entry_at(old(self).root, q));
                }
            }
            assert(m1 =~= m2);
            let r1 = self.recipient_files();
            let r2 = old(self).recipient_files();
            assert forall|q: Seq<Seq<char>>| r1.dom().contains(q) <==> r2.dom().contains(
                q,
            ) by {
                assert(rec_file_at(self.root, q) == rec_file_at(old(self).root, q));
            }
            assert(r1.dom() =~= r2.dom());
            assert forall|q: Seq<Seq<char>>| r1.dom().contains(q) implies r1[q] == r2[q] by {
                assert(rec_file_at(self.root, q) == rec_file_at(old(self).root, q));
            }
            assert(r1 =~= r2);
        }
    }

    /// Deletes the entry named by `name`, pruning directories the deletion
    /// empties. Fails with `NotFound`, changing nothing, exactly when no
    /// entry of that name exists.
    pub fn remove(&mut self, name: &Vec<String>) -> (r: Result<(), EntryError>)
        requires
            old(self).wf(),
            valid_path(name.deep_view()),
        ensures
            final(self).wf(),
            match r {
                Ok(()) => {
                    &&& old(self).entries().contains_key(name.deep_view())
                    &&& final(self).entries() == old(self).entries().remove(name.deep_view())
                    &&& final(self).recipient_files() == old(self).recipient_files()
                },
                Err(e) => {
                    &&& e matches EntryError::NotFound
                    &&& !old(self).entries().contains_key(name.deep_view())
                    &&& *final(self) == *old(self)
                },
            },
    {
        let ghost pname = name.deep_view();
        proof {
            assert(path_from(pname, 0) =~= pname);
        }
        if !self.contains_entry(name) {
            return Err(EntryError::NotFound);
        }
        remove_entry_rec(&mut self.root, name, 0);
        proof {
            let m1 = self.entries();
            let m2 = old(self).entries().remove(pname);
            assert forall|q: Seq<Seq<char>>| m1.dom().contains(q) <==> m2.dom().contains(
                q,
            ) by {
                if q != pname {
                    assert(entry_at(self.root, q) == entry_at(old(self).root, q));
                }
            }
            assert(m1.dom() =~= m2.dom());
            assert forall|q: Seq<Seq<char>>| m1.dom().contains(q) implies m1[q] == m2[q] by {
                if q != pname {
                    assert(entry_at(self.root, q) == entry_at(old(self).root, q));
                }
            }
            assert(m1 =~= m2);
            let r1 = self.recipient_files();
            let r2 = old(self).recipient_files();
            assert forall|q: Seq<Seq<char>>| r1.dom().contains(q) <==> r2.dom().contains(
                q,
            ) by {
                assert(rec_file_at(self.root, q) == rec_file_at(old(self).root, q));
            }
            assert(r1.dom() =~= r2.dom());
            assert forall|q: Seq<Seq<char>>| r1.dom().contains(q) implies r1[q] == r2[q] by {
                assert(rec_file_at(self.root, q) == rec_file_at(old(self).root, q));
            }
            assert(r1 =~= r2);
        }
        Ok(())
    }
}

impl Store {
    /// Checks an intended `add`: validated name, existence against the
    /// `overwrite` request, and recipient resolution for the entry's
    /// directory. On success returns the recipient identifiers to encrypt
    /// for; the caller encrypts and then calls `commit_add`. Interactive
    /// confirmation of an overwrite is the caller's job and never blocks
    /// here.
    pub fn prepare_add(&self, name: &Vec<String>, overwrite: bool) -> (r: Result<
        Vec<String>,
        EntryError,
    >)
        requires
            self.wf(),
            name@.len() > 0,
            valid_path(name.deep_view()),
        ensures
            match r {
                Ok(ids) => {
                    &&& overwrite || !self.entries().contains_key(name.deep_view())
                    &&& resolve_spec(self.recipient_files(), name.deep_view().drop_last())
                        == Some(ids.deep_view())
                },
                Err(e) => match e {
                    EntryError::AlreadyExists => !overwrite && self.entries().contains_key(
                        name.deep_view(),
                    ),
                    EntryError::NotInitialized => {
                        &&& overwrite || !self.entries().contains_key(name.deep_view())
                        &&& resolve_spec(self.recipient_files(), name.deep_view().drop_last())
                            is None
                    },
                    _ => false,
                },
            },
    {
        if !overwrite && self.contains_entry(name) {
            return Err(EntryError::AlreadyExists);
        }
        let mut parent: Vec<String> = Vec::new();
        let mut i: usize = 0;
        let n = name.len();
        while i < n - 1
            invariant
                n == name@.len(),
                n >= 1,
                i <= n - 1,
                parent@ == name@.take(i as int),
            decreases name@.len() - i,
        {
            parent.push(name[i].clone());
            proof {
                assert(name@.take(i as int).push(name@[i as int]) =~= name@.take(i as int + 1));
            }
            i = i + 1;
        }
        proof {
            assert(parent.deep_view() =~= name.deep_view().drop_last()) by {
                let pv = parent.deep_view();
                let dv = name.deep_view().drop_last();
                assert(parent@.len() == name@.len() - 1);
                assert(forall|k: int| 0 <= k < pv.len() ==> pv[k] == parent@[k]@);
                assert(forall|k: int|
                    0 <= k < parent@.len() ==> parent@[k] == name@.take(
                        name@.len() as int - 1,
                    )[k]);
            }
        }
        match self.resolve(&parent) {
            Ok(ids) => Ok(ids),
            Err(_) => Err(EntryError::NotInitialized),
        }
    }
}

/// Round trip: after `add` stores ciphertext `c` at the valid name `p`
/// with overwriting allowed, a `read` of `p` yields exactly `c`. The
/// store after the add is described by its entries map; `read` returns
/// what that map holds at `p`.
pub proof fn lemma_add_read_round_trip(
    s0: Store,
    s1: Store,
    p: Seq<Seq<char>>,
    c: Seq<u8>,
)
    requires
        s1.entries() == s0.entries().insert(p, c),
    ensures
        s1.entries().contains_key(p),
        s1.entries()[p] == c,
{
}

/// Completes a read from the decryption backend's outcome: the plaintext
/// as the backend produced it, or `BackendFailure` carrying the
/// backend's own message.
pub fn complete_read(outcome: Result<Vec<u8>, String>) -> (r: Result<Vec<u8>, EntryError>)
    ensures
        match r {
            Ok(pt) => outcome matches Ok(b) && pt == b,
            Err(e) => match e {
                EntryError::BackendFailure(msg) => outcome matches Err(m) && msg == m,
                _ => false,
            },
        },
{
    match outcome {
        Ok(pt) => Ok(pt),
        Err(msg) => Err(EntryError::BackendFailure(msg)),
    }
}

} // verus!
