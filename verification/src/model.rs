//! In-memory model of the store namespace.
//!
//! The namespace is a tree of directories; each directory holds encrypted
//! entries (name plus opaque ciphertext), optionally a recipient file (the
//! lines of the per-directory metadata file), and subdirectories. A
//! directory with neither entries nor a recipient file anywhere below it is
//! not part of the namespace, so the tree never keeps such a subtree.
//!
//! Contracts over the model speak of two maps derived from the tree: the
//! entries map from name paths to ciphertexts, and the recipient-file map
//! from directory paths to the lines each file holds.

use vstd::prelude::*;

verus! {

/// One secret: a name segment and the opaque ciphertext behind it.
pub struct EntryNode {
    pub name: String,
    pub ciphertext: Vec<u8>,
}

/// One directory of the namespace.
pub struct Dir {
    pub name: String,
    /// The recipient file's lines, if this directory carries one.
    pub recipient_lines: Option<Vec<String>>,
    pub entries: Vec<EntryNode>,
    pub subdirs: Vec<Dir>,
}

/// The whole namespace. The root directory's name is unused.
pub struct Store {
    pub root: Dir,
}

/// A usable name segment: nonempty and free of the separator, and not one
/// of the relative segments `.` and `..`.
pub open spec fn valid_segment(s: Seq<char>) -> bool {
    &&& s.len() > 0
    &&& !s.contains('/')
    &&& !(s.len() == 1 && s[0] == '.')
    &&& !(s.len() == 2 && s[0] == '.' && s[1] == '.')
}

/// Every segment of a name path is usable.
pub open spec fn valid_path(p: Seq<Seq<char>>) -> bool {
    forall|i: int| 0 <= i < p.len() ==> valid_segment(#[trigger] p[i])
}

/// The first entry named `name` in `s`, if any.
pub open spec fn find_entry(s: Seq<EntryNode>, name: Seq<char>) -> Option<EntryNode>
    decreases s.len(),
{
    if s.len() == 0 {
        None
    } else if s[0].name@ == name {
        Some(s[0])
    } else {
        find_entry(s.drop_first(), name)
    }
}

/// The first subdirectory named `name` in `s`, if any.
pub open spec fn find_dir(s: Seq<Dir>, name: Seq<char>) -> Option<Dir>
    decreases s.len(),
{
    if s.len() == 0 {
        None
    } else if s[0].name@ == name {
        Some(s[0])
    } else {
        find_dir(s.drop_first(), name)
    }
}

/// The ciphertext of the entry at name path `p` below `d`, if it exists.
pub open spec fn entry_at(d: Dir, p: Seq<Seq<char>>) -> Option<Seq<u8>>
    decreases p.len(),
{
    if p.len() == 0 {
        None
    } else if p.len() == 1 {
        match find_entry(d.entries@, p[0]) {
            Some(e) => Some(e.ciphertext@),
            None => None,
        }
    } else {
        match find_dir(d.subdirs@, p[0]) {
            Some(sub) => entry_at(sub, p.drop_first()),
            None => None,
        }
    }
}

/// The recipient file's lines at directory path `p` below `d`: `None` when
/// the directory does not exist or carries no recipient file.
pub open spec fn rec_file_at(d: Dir, p: Seq<Seq<char>>) -> Option<Seq<Seq<char>>>
    decreases p.len(),
{
    if p.len() == 0 {
        match d.recipient_lines {
            Some(lines) => Some(lines.deep_view()),
            None => None,
        }
    } else {
        match find_dir(d.subdirs@, p[0]) {
            Some(sub) => rec_file_at(sub, p.drop_first()),
            None => None,
        }
    }
}

/// Something below `d` keeps it in the namespace: an entry or a recipient
/// file, here or in a subtree.
pub open spec fn has_content(d: Dir) -> bool
    decreases d,
{
    ||| d.entries@.len() > 0
    ||| d.recipient_lines is Some
    ||| exists|i: int| 0 <= i < d.subdirs@.len() && has_content(#[trigger] d.subdirs@[i])
}

/// Well-formedness of a directory subtree: segment names are usable and
/// unique among siblings, and every subdirectory both is well-formed and
/// carries some content.
pub open spec fn wf_dir(d: Dir) -> bool
    decreases d,
{
    &&& forall|i: int|
        0 <= i < d.entries@.len() ==> valid_segment(#[trigger] d.entries@[i].name@)
    &&& forall|i: int, j: int|
        0 <= i < j < d.entries@.len() ==> d.entries@[i].name@ != d.entries@[j].name@
    &&& forall|i: int|
        0 <= i < d.subdirs@.len() ==> valid_segment(#[trigger] d.subdirs@[i].name@)
    &&& forall|i: int, j: int|
        0 <= i < j < d.subdirs@.len() ==> d.subdirs@[i].name@ != d.subdirs@[j].name@
    &&& forall|i: int| 0 <= i < d.subdirs@.len() ==> wf_dir(#[trigger] d.subdirs@[i])
    &&& forall|i: int| 0 <= i < d.subdirs@.len() ==> has_content(#[trigger] d.subdirs@[i])
}

/// The directory at path `p` below `d`, if it exists.
pub open spec fn dir_at(d: Dir, p: Seq<Seq<char>>) -> Option<Dir>
    decreases p.len(),
{
    if p.len() == 0 {
        Some(d)
    } else {
        match find_dir(d.subdirs@, p[0]) {
            Some(sub) => dir_at(sub, p.drop_first()),
            None => None,
        }
    }
}

/// The tail of `p` from position `i` on.
pub open spec fn path_from(p: Seq<Seq<char>>, i: int) -> Seq<Seq<char>> {
    p.subrange(i, p.len() as int)
}

/// Two nonempty paths with the same head and the same tail are the same.
pub proof fn lemma_cons_eq(q: Seq<Seq<char>>, r: Seq<Seq<char>>)
    requires
        q.len() > 0,
        r.len() > 0,
        q[0] == r[0],
        q.drop_first() == r.drop_first(),
    ensures
        q == r,
{
    assert(q.drop_first().len() == q.len() - 1);
    assert(r.drop_first().len() == r.len() - 1);
    assert(q.drop_first().len() == r.drop_first().len());
    assert(q.len() == r.len());
    assert forall|k: int| 0 <= k < q.len() implies q[k] == r[k] by {
        if k > 0 {
            assert(q[k] == q.drop_first()[k - 1]);
            assert(r[k] == r.drop_first()[k - 1]);
        }
    }
    assert(q =~= r);
}

/// A name carried by no entry of `s` is not found in `s`.
pub proof fn lemma_find_entry_absent(s: Seq<EntryNode>, nm: Seq<char>)
    requires
        forall|k: int| 0 <= k < s.len() ==> s[k].name@ != nm,
    ensures
        find_entry(s, nm) is None,
    decreases s.len(),
{
    if s.len() > 0 {
        assert(forall|k: int| 0 <= k < s.drop_first().len() ==> s.drop_first()[k] == s[k + 1]);
        lemma_find_entry_absent(s.drop_first(), nm);
    }
}

/// A name carried by no directory of `s` is not found in `s`.
pub proof fn lemma_find_dir_absent(s: Seq<Dir>, nm: Seq<char>)
    requires
        forall|k: int| 0 <= k < s.len() ==> s[k].name@ != nm,
    ensures
        find_dir(s, nm) is None,
    decreases s.len(),
{
    if s.len() > 0 {
        assert(forall|k: int| 0 <= k < s.drop_first().len() ==> s.drop_first()[k] == s[k + 1]);
        lemma_find_dir_absent(s.drop_first(), nm);
    }
}

/// `find_entry` keeps its result when the first entry of the looked-up name
/// is replaced by one of the same name, except at that name itself.
pub proof fn lemma_find_entry_update(s: Seq<EntryNode>, j: int, e: EntryNode, nm: Seq<char>)
    requires
        0 <= j < s.len(),
        e.name@ == s[j].name@,
        forall|k: int| 0 <= k < j ==> s[k].name@ != s[j].name@,
    ensures
        find_entry(s.update(j, e), nm) == if nm == e.name@ {
            Some(e)
        } else {
            find_entry(s, nm)
        },
    decreases s.len(),
{
    let s2 = s.update(j, e);
    if j == 0 {
        assert(s2.drop_first() =~= s.drop_first());
    } else {
        assert(s2[0] == s[0]);
        assert(s2.drop_first() =~= s.drop_first().update(j - 1, e));
        assert(forall|k: int| 0 <= k < s.drop_first().len() ==> s.drop_first()[k] == s[k + 1]);
        lemma_find_entry_update(s.drop_first(), j - 1, e, nm);
    }
}

/// `find_entry` on a sequence extended by a fresh name finds the new entry
/// at that name and is otherwise unchanged.
pub proof fn lemma_find_entry_push(s: Seq<EntryNode>, e: EntryNode, nm: Seq<char>)
    requires
        forall|k: int| 0 <= k < s.len() ==> s[k].name@ != e.name@,
    ensures
        find_entry(s.push(e), nm) == if nm == e.name@ {
            Some(e)
        } else {
            find_entry(s, nm)
        },
    decreases s.len(),
{
    let s2 = s.push(e);
    assert(forall|k: int| 0 <= k < s.len() ==> s2[k] == s[k]);
    assert(s2[s.len() as int] == e);
    if s.len() == 0 {
        assert(s2.drop_first() =~= Seq::<EntryNode>::empty());
    } else {
        assert(s2.drop_first() =~= s.drop_first().push(e));
        assert(forall|k: int| 0 <= k < s.drop_first().len() ==> s.drop_first()[k] == s[k + 1]);
        lemma_find_entry_push(s.drop_first(), e, nm);
    }
}

/// Removing the entry of a unique name makes that name unfindable and
/// leaves every other lookup unchanged.
pub proof fn lemma_find_entry_remove(s: Seq<EntryNode>, j: int, nm: Seq<char>)
    requires
        0 <= j < s.len(),
        forall|k: int| 0 <= k < s.len() && k != j ==> s[k].name@ != s[j].name@,
    ensures
        find_entry(s.remove(j), nm) == if nm == s[j].name@ {
            None::<EntryNode>
        } else {
            find_entry(s, nm)
        },
    decreases s.len(),
{
    let s2 = s.remove(j);
    assert(forall|k: int| 0 <= k < s.drop_first().len() ==> s.drop_first()[k] == s[k + 1]);
    if j == 0 {
        assert(s2 =~= s.drop_first());
        if nm == s[j].name@ {
            lemma_find_entry_absent(s2, nm);
        }
    } else {
        assert(s2[0] == s[0]);
        assert(s2.drop_first() =~= s.drop_first().remove(j - 1));
        lemma_find_entry_remove(s.drop_first(), j - 1, nm);
    }
}

/// `find_dir` keeps its result when the first directory of the looked-up
/// name is replaced by one of the same name, except at that name itself.
pub proof fn lemma_find_dir_update(s: Seq<Dir>, j: int, d: Dir, nm: Seq<char>)
    requires
        0 <= j < s.len(),
        d.name@ == s[j].name@,
        forall|k: int| 0 <= k < j ==> s[k].name@ != s[j].name@,
    ensures
        find_dir(s.update(j, d), nm) == if nm == d.name@ {
            Some(d)
        } else {
            find_dir(s, nm)
        },
    decreases s.len(),
{
    let s2 = s.update(j, d);
    if j == 0 {
        assert(s2.drop_first() =~= s.drop_first());
    } else {
        assert(s2[0] == s[0]);
        assert(s2.drop_first() =~= s.drop_first().update(j - 1, d));
        assert(forall|k: int| 0 <= k < s.drop_first().len() ==> s.drop_first()[k] == s[k + 1]);
        lemma_find_dir_update(s.drop_first(), j - 1, d, nm);
    }
}

/// `find_dir` on a sequence extended by a fresh name finds the new
/// directory at that name and is otherwise unchanged.
pub proof fn lemma_find_dir_push(s: Seq<Dir>, d: Dir, nm: Seq<char>)
    requires
        forall|k: int| 0 <= k < s.len() ==> s[k].name@ != d.name@,
    ensures
        find_dir(s.push(d), nm) == if nm == d.name@ {
            Some(d)
        } else {
            find_dir(s, nm)
        },
    decreases s.len(),
{
    let s2 = s.push(d);
    assert(forall|k: int| 0 <= k < s.len() ==> s2[k] == s[k]);
    assert(s2[s.len() as int] == d);
    if s.len() == 0 {
        assert(s2.drop_first() =~= Seq::<Dir>::empty());
    } else {
        assert(s2.drop_first() =~= s.drop_first().push(d));
        assert(forall|k: int| 0 <= k < s.drop_first().len() ==> s.drop_first()[k] == s[k + 1]);
        lemma_find_dir_push(s.drop_first(), d, nm);
    }
}

/// Removing the directory of a unique name makes that name unfindable and
/// leaves every other lookup unchanged.
pub proof fn lemma_find_dir_remove(s: Seq<Dir>, j: int, nm: Seq<char>)
    requires
        0 <= j < s.len(),
        forall|k: int| 0 <= k < s.len() && k != j ==> s[k].name@ != s[j].name@,
    ensures
        find_dir(s.remove(j), nm) == if nm == s[j].name@ {
            None::<Dir>
        } else {
            find_dir(s, nm)
        },
    decreases s.len(),
{
    let s2 = s.remove(j);
    assert(forall|k: int| 0 <= k < s.drop_first().len() ==> s.drop_first()[k] == s[k + 1]);
    if j == 0 {
        assert(s2 =~= s.drop_first());
        if nm == s[j].name@ {
            lemma_find_dir_absent(s2, nm);
        }
    } else {
        assert(s2[0] == s[0]);
        assert(s2.drop_first() =~= s.drop_first().remove(j - 1));
        lemma_find_dir_remove(s.drop_first(), j - 1, nm);
    }
}

/// A directory with no entries, no subdirectories and no recipient file
/// answers every lookup below it with nothing.
pub proof fn lemma_empty_dir(d: Dir, q: Seq<Seq<char>>)
    requires
        d.entries@.len() == 0,
        d.subdirs@.len() == 0,
    ensures
        entry_at(d, q) is None,
        d.recipient_lines is None ==> rec_file_at(d, q) is None,
{
}

/// Position of the first entry named `name`, tied to `find_entry`.
pub(crate) fn entry_index(v: &Vec<EntryNode>, name: &String) -> (r: Option<usize>)
    ensures
        match r {
            Some(j) => {
                &&& j < v@.len()
                &&& v@[j as int].name@ == name@
                &&& forall|k: int| 0 <= k < j ==> v@[k].name@ != name@
                &&& find_entry(v@, name@) == Some(v@[j as int])
            },
            None => {
                &&& forall|k: int| 0 <= k < v@.len() ==> v@[k].name@ != name@
                &&& find_entry(v@, name@) is None
            },
        },
{
    let mut i: usize = 0;
    proof {
        assert(v@.skip(0) =~= v@);
    }
    while i < v.len()
        invariant
            i <= v@.len(),
            forall|k: int| 0 <= k < i ==> v@[k].name@ != name@,
            find_entry(v@, name@) == find_entry(v@.skip(i as int), name@),
        decreases v@.len() - i,
    {
        if v[i].name.eq(name) {
            assert(v@.skip(i as int)[0] == v@[i as int]);
            return Some(i);
        }
        proof {
            assert(v@.skip(i as int).drop_first() =~= v@.skip(i as int + 1));
        }
        i = i + 1;
    }
    proof {
        assert(v@.skip(i as int) =~= Seq::<EntryNode>::empty());
    }
    None
}

/// Position of the first subdirectory named `name`, tied to `find_dir`.
pub(crate) fn dir_index(v: &Vec<Dir>, name: &String) -> (r: Option<usize>)
    ensures
        match r {
            Some(j) => {
                &&& j < v@.len()
                &&& v@[j as int].name@ == name@
                &&& forall|k: int| 0 <= k < j ==> v@[k].name@ != name@
                &&& find_dir(v@, name@) == Some(v@[j as int])
            },
            None => {
                &&& forall|k: int| 0 <= k < v@.len() ==> v@[k].name@ != name@
                &&& find_dir(v@, name@) is None
            },
        },
{
    let mut i: usize = 0;
    proof {
        assert(v@.skip(0) =~= v@);
    }
    while i < v.len()
        invariant
            i <= v@.len(),
            forall|k: int| 0 <= k < i ==> v@[k].name@ != name@,
            find_dir(v@, name@) == find_dir(v@.skip(i as int), name@),
        decreases v@.len() - i,
    {
        if v[i].name.eq(name) {
            assert(v@.skip(i as int)[0] == v@[i as int]);
            return Some(i);
        }
        proof {
            assert(v@.skip(i as int).drop_first() =~= v@.skip(i as int + 1));
        }
        i = i + 1;
    }
    proof {
        assert(v@.skip(i as int) =~= Seq::<Dir>::empty());
    }
    None
}

/// Copies a byte vector.
pub(crate) fn copy_bytes(v: &Vec<u8>) -> (r: Vec<u8>)
    ensures
        r@ == v@,
{
    let mut r: Vec<u8> = Vec::new();
    let mut i: usize = 0;
    while i < v.len()
        invariant
            i <= v@.len(),
            r@ == v@.take(i as int),
        decreases v@.len() - i,
    {
        r.push(v[i]);
        proof {
            assert(v@.take(i as int).push(v@[i as int]) =~= v@.take(i as int + 1));
        }
        i = i + 1;
    }
    proof {
        assert(v@.take(v@.len() as int) =~= v@);
    }
    r
}

/// Copies a segment path.
pub(crate) fn clone_path(v: &Vec<String>) -> (r: Vec<String>)
    ensures
        r@ == v@,
{
    let mut r: Vec<String> = Vec::new();
    let mut i: usize = 0;
    while i < v.len()
        invariant
            i <= v@.len(),
            r@ == v@.take(i as int),
        decreases v@.len() - i,
    {
        r.push(v[i].clone());
        proof {
            assert(v@.take(i as int).push(v@[i as int]) =~= v@.take(i as int + 1));
        }
        i = i + 1;
    }
    proof {
        assert(v@.take(v@.len() as int) =~= v@);
    }
    r
}

/// Height of a directory tree: the length of its longest chain.
pub open spec fn dir_height(d: Dir) -> nat
    decreases d, 1int,
{
    1 + seq_height(d.subdirs@)
}

/// Height of the tallest directory in a row.
pub open spec fn seq_height(s: Seq<Dir>) -> nat
    decreases s, 2int,
{
    if s.len() == 0 {
        0
    } else {
        let h = dir_height(s.last());
        let r = seq_height(s.drop_last());
        if h > r {
            h
        } else {
            r
        }
    }
}

/// No directory of a row is taller than the row.
pub proof fn lemma_seq_height_elem(s: Seq<Dir>, i: int)
    requires
        0 <= i < s.len(),
    ensures
        dir_height(s[i]) <= seq_height(s),
    decreases s.len(),
{
    if i == s.len() - 1 {
        assert(s.last() == s[i]);
    } else {
        assert(forall|k: int| 0 <= k < s.drop_last().len() ==> s.drop_last()[k] == s[k]);
        lemma_seq_height_elem(s.drop_last(), i);
    }
}

impl Store {
    /// A fresh, empty store: no entries, no recipient files.
    pub fn new() -> (s: Store)
        ensures
            s.wf(),
            s.entries() == Map::<Seq<Seq<char>>, Seq<u8>>::empty(),
            s.recipient_files() == Map::<Seq<Seq<char>>, Seq<Seq<char>>>::empty(),
            dir_height(s.root) == 1,
    {
        let s = Store {
            root: Dir {
                name: String::new(),
                recipient_lines: None,
                entries: Vec::new(),
                subdirs: Vec::new(),
            },
        };
        proof {
            assert forall|q: Seq<Seq<char>>| true implies !(#[trigger] entry_at(s.root, q)
                is Some) && !(rec_file_at(s.root, q) is Some) by {
                lemma_empty_dir(s.root, q);
            }
            assert(s.entries() =~= Map::<Seq<Seq<char>>, Seq<u8>>::empty());
            assert(s.recipient_files() =~= Map::<Seq<Seq<char>>, Seq<Seq<char>>>::empty());
        }
        s
    }
}

impl Store {
    /// Well-formedness of the whole namespace.
    pub open spec fn wf(self) -> bool {
        wf_dir(self.root)
    }

    /// The entries map: every stored name path to its ciphertext.
    pub open spec fn entries(self) -> Map<Seq<Seq<char>>, Seq<u8>> {
        Map::new(
            |p: Seq<Seq<char>>| entry_at(self.root, p) is Some,
            |p: Seq<Seq<char>>| entry_at(self.root, p).unwrap(),
        )
    }

    /// The recipient-file map: every directory path that carries a
    /// recipient file to that file's lines.
    pub open spec fn recipient_files(self) -> Map<Seq<Seq<char>>, Seq<Seq<char>>> {
        Map::new(
            |p: Seq<Seq<char>>| rec_file_at(self.root, p) is Some,
            |p: Seq<Seq<char>>| rec_file_at(self.root, p).unwrap(),
        )
    }
}

} // verus!
