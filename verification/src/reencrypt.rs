//! Re-encryption: retargeting every entry under a subtree to the
//! recipients now resolved for it.
//!
//! The walk is strictly sequential and halts at the first failure; files
//! converted before the failure stay converted, and the failing entry is
//! reported with its cause. The decrypt and encrypt calls themselves are
//! the caller's: a session names the next entry to process, and the caller
//! hands back either the re-encrypted bytes or the backend's failure.

use vstd::prelude::*;

use crate::errors::ReencryptError;
use crate::model::{
    Dir, EntryNode, Store, clone_path, dir_at, dir_index, find_dir, path_from, valid_path,
    valid_segment, wf_dir,
};
use crate::resolver::resolve_spec;

verus! {

/// Every entry path in the subtree of `d`, depth first — subdirectories
/// before the directory's own entries — each prefixed with `base`.
pub open spec fn collect_entries(d: Dir, base: Seq<Seq<char>>) -> Seq<Seq<Seq<char>>>
    decreases d, 1int,
{
    collect_from_subdirs(d.subdirs@, base) + collect_own(d.entries@, base)
}

/// The collected paths of a row of subdirectories, in order.
pub open spec fn collect_from_subdirs(s: Seq<Dir>, base: Seq<Seq<char>>) -> Seq<Seq<Seq<char>>>
    decreases s, 2int,
{
    if s.len() == 0 {
        Seq::empty()
    } else {
        collect_from_subdirs(s.drop_last(), base) + collect_entries(
            s.last(),
            base.push(s.last().name@),
        )
    }
}

/// The paths of a directory's own entries, in order.
pub open spec fn collect_own(s: Seq<EntryNode>, base: Seq<Seq<char>>) -> Seq<Seq<Seq<char>>>
    decreases s.len(),
{
    if s.len() == 0 {
        Seq::empty()
    } else {
        collect_own(s.drop_last(), base).push(base.push(s.last().name@))
    }
}

/// Every collected path extends `base` by at least one valid segment.
proof fn lemma_collect_entries_valid(d: Dir, base: Seq<Seq<char>>)
    requires
        wf_dir(d),
        valid_path(base),
    ensures
        forall|k: int|
            0 <= k < collect_entries(d, base).len() ==> valid_path(
                #[trigger] collect_entries(d, base)[k],
            ) && collect_entries(d, base)[k].len() > base.len(),
    decreases d, 1int,
{
    lemma_collect_subdirs_valid(d.subdirs@, base);
    lemma_collect_own_valid(d.entries@, base);
    let a = collect_from_subdirs(d.subdirs@, base);
    let b = collect_own(d.entries@, base);
    assert forall|k: int| 0 <= k < collect_entries(d, base).len() implies valid_path(
        #[trigger] collect_entries(d, base)[k],
    ) && collect_entries(d, base)[k].len() > base.len() by {
        if k < a.len() {
            assert(collect_entries(d, base)[k] == a[k]);
        } else {
            assert(collect_entries(d, base)[k] == b[k - a.len()]);
        }
    }
}

proof fn lemma_collect_subdirs_valid(s: Seq<Dir>, base: Seq<Seq<char>>)
    requires
        forall|i: int| 0 <= i < s.len() ==> wf_dir(#[trigger] s[i]),
        forall|i: int| 0 <= i < s.len() ==> valid_segment(#[trigger] s[i].name@),
        valid_path(base),
    ensures
        forall|k: int|
            0 <= k < collect_from_subdirs(s, base).len() ==> valid_path(
                #[trigger] collect_from_subdirs(s, base)[k],
            ) && collect_from_subdirs(s, base)[k].len() > base.len(),
    decreases s, 2int,
{
    if s.len() > 0 {
        assert(forall|i: int| 0 <= i < s.drop_last().len() ==> s.drop_last()[i] == s[i]);
        lemma_collect_subdirs_valid(s.drop_last(), base);
        let b2 = base.push(s.last().name@);
        assert(valid_path(b2)) by {
            assert(forall|i: int| 0 <= i < base.len() ==> b2[i] == base[i]);
            assert(b2[base.len() as int] == s.last().name@);
        }
        lemma_collect_entries_valid(s.last(), b2);
        let a = collect_from_subdirs(s.drop_last(), base);
        let b = collect_entries(s.last(), b2);
        assert forall|k: int| 0 <= k < collect_from_subdirs(s, base).len() implies valid_path(
            #[trigger] collect_from_subdirs(s, base)[k],
        ) && collect_from_subdirs(s, base)[k].len() > base.len() by {
            if k < a.len() {
                assert(collect_from_subdirs(s, base)[k] == a[k]);
            } else {
                assert(collect_from_subdirs(s, base)[k] == b[k - a.len()]);
            }
        }
    }
}

proof fn lemma_collect_own_valid(s: Seq<EntryNode>, base: Seq<Seq<char>>)
    requires
        forall|i: int| 0 <= i < s.len() ==> valid_segment(#[trigger] s[i].name@),
        valid_path(base),
    ensures
        forall|k: int|
            0 <= k < collect_own(s, base).len() ==> valid_path(#[trigger] collect_own(s, base)[k])
                && collect_own(s, base)[k].len() > base.len(),
    decreases s.len(),
{
    if s.len() > 0 {
        assert(forall|i: int| 0 <= i < s.drop_last().len() ==> s.drop_last()[i] == s[i]);
        lemma_collect_own_valid(s.drop_last(), base);
        let b2 = base.push(s.last().name@);
        assert(valid_path(b2)) by {
            assert(forall|i: int| 0 <= i < base.len() ==> b2[i] == base[i]);
            assert(b2[base.len() as int] == s.last().name@);
        }
        let a = collect_own(s.drop_last(), base);
        assert forall|k: int| 0 <= k < collect_own(s, base).len() implies valid_path(
            #[trigger] collect_own(s, base)[k],
        ) && collect_own(s, base)[k].len() > base.len() by {
            if k < a.len() {
                assert(collect_own(s, base)[k] == a[k]);
            } else {
                assert(collect_own(s, base)[k] == b2);
            }
        }
    }
}

/// Collects the subtree's entry paths below `d` into `out`, depth first,
/// with `prefix` restored when the walk returns.
fn collect_rec(d: &Dir, prefix: &mut Vec<String>, out: &mut Vec<Vec<String>>)
    ensures
        final(prefix)@ == old(prefix)@,
        final(out).deep_view() == old(out).deep_view() + collect_entries(
            *d,
            old(prefix).deep_view(),
        ),
    decreases *d,
{
    let ghost base = prefix.deep_view();
    let ghost out0 = out.deep_view();
    let mut j: usize = 0;
    proof {
        assert(d.subdirs@.take(0) =~= Seq::<Dir>::empty());
        assert(out.deep_view() =~= out0 + collect_from_subdirs(d.subdirs@.take(0), base));
    }
    while j < d.subdirs.len()
        invariant
            j <= d.subdirs@.len(),
            prefix@ == old(prefix)@,
            base == prefix.deep_view(),
            out.deep_view() == out0 + collect_from_subdirs(d.subdirs@.take(j as int), base),
        decreases d.subdirs@.len() - j,
    {
        let sub = &d.subdirs[j];
        prefix.push(sub.name.clone());
        proof {
            assert(prefix.deep_view() =~= base.push(sub.name@));
        }
        collect_rec(sub, prefix, out);
        prefix.pop();
        proof {
            assert(prefix@ =~= old(prefix)@);
            let t = d.subdirs@.take(j as int + 1);
            assert(t.drop_last() =~= d.subdirs@.take(j as int));
            assert(t.last() == d.subdirs@[j as int]);
            assert(out.deep_view() =~= out0 + collect_from_subdirs(t, base));
        }
        j = j + 1;
    }
    proof {
        assert(d.subdirs@.take(d.subdirs@.len() as int) =~= d.subdirs@);
    }
    let ghost mid = out.deep_view();
    let mut k: usize = 0;
    proof {
        assert(d.entries@.take(0) =~= Seq::<EntryNode>::empty());
        assert(out.deep_view() =~= mid + collect_own(d.entries@.take(0), base));
    }
    while k < d.entries.len()
        invariant
            k <= d.entries@.len(),
            prefix@ == old(prefix)@,
            base == prefix.deep_view(),
            out.deep_view() == mid + collect_own(d.entries@.take(k as int), base),
        decreases d.entries@.len() - k,
    {
        let mut path = clone_path(prefix);
        path.push(d.entries[k].name.clone());
        let ghost pathv = path.deep_view();
        proof {
            assert(pathv =~= base.push(d.entries@[k as int].name@));
        }
        let ghost prev = out.deep_view();
        out.push(path);
        proof {
            assert(out.deep_view() =~= prev.push(pathv));
            let t = d.entries@.take(k as int + 1);
            assert(t.drop_last() =~= d.entries@.take(k as int));
            assert(t.last() == d.entries@[k as int]);
            assert(out.deep_view() =~= mid + collect_own(t, base));
        }
        k = k + 1;
    }
    proof {
        assert(d.entries@.take(d.entries@.len() as int) =~= d.entries@);
        assert(out.deep_view() =~= out0 + collect_entries(*d, base));
    }
}

/// Looks up the directory at the remaining segments of `path` below `d`.
fn get_dir_rec<'a>(d: &'a Dir, path: &Vec<String>, i: usize) -> (r: Option<&'a Dir>)
    requires
        i <= path@.len(),
    ensures
        match r {
            Some(sub) => dir_at(*d, path_from(path.deep_view(), i as int)) == Some(*sub),
            None => dir_at(*d, path_from(path.deep_view(), i as int)) is None,
        },
    decreases path@.len() - i,
{
    let ghost p = path.deep_view();
    let ghost rest = path_from(p, i as int);
    if i == path.len() {
        assert(rest.len() == 0);
        Some(d)
    } else {
        proof {
            assert(rest[0] == p[i as int]);
            assert(rest.drop_first() =~= path_from(p, i as int + 1));
        }
        match dir_index(&d.subdirs, &path[i]) {
            Some(j) => get_dir_rec(&d.subdirs[j], path, i + 1),
            None => None,
        }
    }
}

/// What a finished re-encryption run reports: the entries it converted,
/// in the order it converted them.
pub struct ReencryptReport {
    pub converted: Vec<Vec<String>>,
}

/// One re-encryption run over a subtree. The caller asks for the current
/// entry, runs the backend, and reports the outcome; after a failure the
/// session names no further entry.
pub struct ReencryptSession {
    /// The recipient identifiers every entry is re-encrypted for.
    pub recipients: Vec<String>,
    /// The entry paths of the subtree, depth first.
    pub pending: Vec<Vec<String>>,
    /// How many of `pending` have been processed.
    pub idx: usize,
    /// The entries converted so far, in order.
    pub converted: Vec<Vec<String>>,
    /// The first failure, as the entry it struck and the backend's
    /// message.
    pub failure: Option<(Vec<String>, String)>,
}

impl ReencryptSession {
    /// Internal consistency of a session.
    pub open spec fn wf(self) -> bool {
        &&& self.idx <= self.pending@.len()
        &&& forall|k: int|
            0 <= k < self.pending@.len() ==> valid_path(#[trigger] self.pending@[k].deep_view())
                && self.pending@[k]@.len() > 0
    }

    /// Whether the session still has an entry to process.
    pub open spec fn active(self) -> bool {
        self.failure is None && self.idx < self.pending@.len()
    }

    /// The entry to process next: nothing once the run is done or has
    /// failed — a failed run never names another entry.
    pub fn current(&self) -> (r: Option<Vec<String>>)
        ensures
            match r {
                Some(p) => self.active() && p.deep_view() == self.pending@[self.idx as int].deep_view(),
                None => !self.active(),
            },
    {
        if self.failure.is_some() {
            None
        } else if self.idx < self.pending.len() {
            Some(clone_path(&self.pending[self.idx]))
        } else {
            None
        }
    }

    /// Records that the current entry was re-encrypted: stores the new
    /// ciphertext at its path — an entry is either fully updated or left
    /// at its old ciphertext, never in between — and moves on. Entries
    /// converted earlier stay exactly as they were written.
    pub fn step_converted(&mut self, store: &mut Store, ciphertext: Vec<u8>)
        requires
            old(self).wf(),
            old(self).active(),
            old(store).wf(),
        ensures
            final(self).wf(),
            final(store).wf(),
            final(store).entries() == old(store).entries().insert(
                old(self).pending@[old(self).idx as int].deep_view(),
                ciphertext@,
            ),
            final(store).recipient_files() == old(store).recipient_files(),
            final(self).pending == old(self).pending,
            final(self).recipients == old(self).recipients,
            final(self).failure is None,
            final(self).idx == old(self).idx + 1,
            final(self).converted.deep_view() == old(self).converted.deep_view().push(
                old(self).pending@[old(self).idx as int].deep_view(),
            ),
    {
        let n = self.pending.len();
        let cur = clone_path(&self.pending[self.idx]);
        proof {
            assert(cur.deep_view() =~= self.pending@[self.idx as int].deep_view());
        }
        store.commit_add(&cur, ciphertext);
        self.converted.push(cur);
        self.idx = self.idx + 1;
        proof {
            assert(self.converted.deep_view() =~= old(self).converted.deep_view().push(
                old(self).pending@[old(self).idx as int].deep_view(),
            ));
        }
    }

    /// Records that the backend failed on the current entry. The entry
    /// keeps its old ciphertext, the failure is remembered with its
    /// cause, and the session names no further entry.
    pub fn step_failed(&mut self, cause: String)
        requires
            old(self).wf(),
            old(self).active(),
        ensures
            final(self).wf(),
            !final(self).active(),
            final(self).pending == old(self).pending,
            final(self).recipients == old(self).recipients,
            final(self).converted == old(self).converted,
            final(self).idx == old(self).idx,
            match final(self).failure {
                Some(f) => f.0.deep_view() == old(self).pending@[old(self).idx as int].deep_view()
                    && f.1@ == cause@,
                None => false,
            },
    {
        let cur = clone_path(&self.pending[self.idx]);
        proof {
            assert(cur.deep_view() =~= self.pending@[self.idx as int].deep_view());
        }
        self.failure = Some((cur, cause));
    }

    /// Closes the run: the report of converted entries when every entry
    /// was processed, or the failure that stopped the run, with the
    /// entries before it left converted.
    pub fn finish(self) -> (r: Result<ReencryptReport, ReencryptError>)
        requires
            self.wf(),
            !self.active(),
        ensures
            match r {
                Ok(rep) => self.failure is None && self.idx == self.pending@.len()
                    && rep.converted.deep_view() == self.converted.deep_view(),
                Err(e) => match e {
                    ReencryptError::StepFailed { path, cause } => match self.failure {
                        Some(f) => path.deep_view() == f.0.deep_view() && cause@ == f.1@,
                        None => false,
                    },
                    _ => false,
                },
            },
    {
        match self.failure {
            Some(f) => Err(ReencryptError::StepFailed { path: f.0, cause: f.1 }),
            None => Ok(ReencryptReport { converted: self.converted }),
        }
    }
}

impl Store {
    /// Opens a re-encryption run over the subtree at `subtree`: resolves
    /// the recipient set now governing it and lists every entry below it,
    /// depth first. Fails with `NotInitialized` exactly when resolution
    /// finds no recipient file or one with no usable identifier.
    pub fn begin_reencrypt(&self, subtree: &Vec<String>) -> (r: Result<
        ReencryptSession,
        ReencryptError,
    >)
        requires
            self.wf(),
            valid_path(subtree.deep_view()),
        ensures
            match r {
                Ok(sess) => {
                    &&& resolve_spec(self.recipient_files(), subtree.deep_view()) == Some(
                        sess.recipients.deep_view(),
                    )
                    &&& sess.recipients@.len() > 0
                    &&& sess.pending.deep_view() == match dir_at(self.root, subtree.deep_view()) {
                        Some(d) => collect_entries(d, subtree.deep_view()),
                        None => Seq::<Seq<Seq<char>>>::empty(),
                    }
                    &&& sess.idx == 0
                    &&& sess.converted@.len() == 0
                    &&& sess.failure is None
                    &&& sess.wf()
                },
                Err(e) => {
                    &&& e matches ReencryptError::NotInitialized
                    &&& match resolve_spec(self.recipient_files(), subtree.deep_view()) {
                        None => true,
                        Some(ids) => ids.len() == 0,
                    }
                },
            },
    {
        let ghost sub = subtree.deep_view();
        let recipients = match self.resolve(subtree) {
            Ok(ids) => ids,
            Err(_) => {
                return Err(ReencryptError::NotInitialized);
            },
        };
        if recipients.len() == 0 {
            return Err(ReencryptError::NotInitialized);
        }
        let mut pending: Vec<Vec<String>> = Vec::new();
        proof {
            assert(path_from(sub, 0) =~= sub);
        }
        match get_dir_rec(&self.root, subtree, 0) {
            Some(d) => {
                let mut prefix = clone_path(subtree);
                collect_rec(d, &mut prefix, &mut pending);
                proof {
                    assert(prefix.deep_view() =~= sub);
                    assert(pending.deep_view() =~= collect_entries(*d, sub)) by {
                        assert(pending.deep_view() == Seq::<Seq<Seq<char>>>::empty()
                            + collect_entries(*d, sub));
                    }
                    lemma_dir_at_wf(self.root, sub);
                    lemma_collect_entries_valid(*d, sub);
                }
            },
            None => {
                proof {
                    assert(pending.deep_view() =~= Seq::<Seq<Seq<char>>>::empty());
                }
            },
        }
        let sess = ReencryptSession {
            recipients,
            pending,
            idx: 0,
            converted: Vec::new(),
            failure: None,
        };
        proof {
            assert forall|k: int| 0 <= k < sess.pending@.len() implies valid_path(
                #[trigger] sess.pending@[k].deep_view(),
            ) && sess.pending@[k]@.len() > 0 by {
                assert(sess.pending@[k].deep_view() == sess.pending.deep_view()[k]);
                assert(sess.pending@[k].deep_view().len() == sess.pending@[k]@.len());
            }
        }
        Ok(sess)
    }
}

/// A directory reached by `dir_at` inside a well-formed tree is itself
/// well-formed.
proof fn lemma_dir_at_wf(d: Dir, p: Seq<Seq<char>>)
    requires
        wf_dir(d),
        dir_at(d, p) is Some,
    ensures
        wf_dir(dir_at(d, p).unwrap()),
    decreases p.len(),
{
    if p.len() > 0 {
        let sub = find_dir(d.subdirs@, p[0]).unwrap();
        lemma_find_dir_in(d.subdirs@, p[0]);
        lemma_dir_at_wf(sub, p.drop_first());
    }
}

/// What `find_dir` returns is an element of the sequence.
proof fn lemma_find_dir_in(s: Seq<Dir>, nm: Seq<char>)
    requires
        find_dir(s, nm) is Some,
    ensures
        exists|i: int| 0 <= i < s.len() && s[i] == find_dir(s, nm).unwrap(),
    decreases s.len(),
{
    if s.len() > 0 {
        if s[0].name@ == nm {
            assert(s[0] == find_dir(s, nm).unwrap());
        } else {
            lemma_find_dir_in(s.drop_first(), nm);
            let i = choose|i: int|
                0 <= i < s.drop_first().len() && s.drop_first()[i] == find_dir(
                    s.drop_first(),
                    nm,
                ).unwrap();
            assert(s[i + 1] == find_dir(s, nm).unwrap());
        }
    }
}

} // verus!
