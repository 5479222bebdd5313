//! Namespace rendering: a deterministic listing of the visible tree.
//!
//! One line per visible node, depth encoding indentation. Subdirectories
//! come before a directory's own entries, each group in stored order, so
//! the output is a pure function of the namespace at call time.
//! Metadata-named nodes — anything whose name begins with a dot, such as
//! the recipient file — are omitted; entry names carry no storage suffix,
//! the boundary strips it when it loads the store.

use vstd::prelude::*;

use crate::model::{Dir, EntryNode, Store, dir_height, lemma_seq_height_elem};

verus! {

/// One output line: a node's name at its depth in the tree.
#[derive(Clone, Debug, PartialEq, Eq)]
pub struct TreeLine {
    pub depth: usize,
    pub label: String,
}

/// The mathematical value of a rendered line.
pub struct TreeLineV {
    pub depth: nat,
    pub label: Seq<char>,
}

impl View for TreeLine {
    type V = TreeLineV;

    open spec fn view(&self) -> TreeLineV {
        TreeLineV { depth: self.depth as nat, label: self.label@ }
    }
}

impl DeepView for TreeLine {
    type V = TreeLineV;

    open spec fn deep_view(&self) -> TreeLineV {
        self.view()
    }
}

/// A name of the metadata shape: it begins with a dot.
pub open spec fn starts_with_dot(nm: Seq<char>) -> bool {
    nm.len() > 0 && nm[0] == '.'
}

/// The lines of the subtree of `d`, at the given depth.
pub open spec fn render_dir(d: Dir, depth: nat) -> Seq<TreeLineV>
    decreases d, 1int,
{
    render_subdirs(d.subdirs@, depth) + render_entries(d.entries@, depth)
}

/// The lines of a row of subdirectories: for each visible one, its own
/// line and then its subtree one level deeper.
pub open spec fn render_subdirs(s: Seq<Dir>, depth: nat) -> Seq<TreeLineV>
    decreases s, 2int,
{
    if s.len() == 0 {
        Seq::empty()
    } else {
        let front = render_subdirs(s.drop_last(), depth);
        if starts_with_dot(s.last().name@) {
            front
        } else {
            front + seq![TreeLineV { depth, label: s.last().name@ }] + render_dir(
                s.last(),
                depth + 1,
            )
        }
    }
}

/// The lines of a directory's own visible entries.
pub open spec fn render_entries(s: Seq<EntryNode>, depth: nat) -> Seq<TreeLineV>
    decreases s.len(),
{
    if s.len() == 0 {
        Seq::empty()
    } else {
        let front = render_entries(s.drop_last(), depth);
        if starts_with_dot(s.last().name@) {
            front
        } else {
            front.push(TreeLineV { depth, label: s.last().name@ })
        }
    }
}

/// Whether a node name has the metadata shape.
pub fn name_starts_with_dot(s: &String) -> (r: bool)
    ensures
        r == starts_with_dot(s@),
{
    let n = s.as_str().unicode_len();
    n > 0 && s.as_str().get_char(0) == '.'
}

/// Appends the subtree's lines below `d` to `out`.
fn render_rec(d: &Dir, depth: usize, out: &mut Vec<TreeLine>)
    requires
        depth + dir_height(*d) <= usize::MAX,
    ensures
        final(out).deep_view() == old(out).deep_view() + render_dir(*d, depth as nat),
    decreases *d,
{
    let ghost out0 = out.deep_view();
    let mut j: usize = 0;
    proof {
        assert(d.subdirs@.take(0) =~= Seq::<Dir>::empty());
        assert(out.deep_view() =~= out0 + render_subdirs(d.subdirs@.take(0), depth as nat));
    }
    while j < d.subdirs.len()
        invariant
            j <= d.subdirs@.len(),
            depth + dir_height(*d) <= usize::MAX,
            out.deep_view() == out0 + render_subdirs(d.subdirs@.take(j as int), depth as nat),
        decreases d.subdirs@.len() - j,
    {
        let sub = &d.subdirs[j];
        proof {
            lemma_seq_height_elem(d.subdirs@, j as int);
        }
        if !name_starts_with_dot(&sub.name) {
            let ghost prev = out.deep_view();
            out.push(TreeLine { depth, label: sub.name.clone() });
            proof {
                assert(out.deep_view() =~= prev.push(
                    TreeLineV { depth: depth as nat, label: sub.name@ },
                ));
            }
            render_rec(sub, depth + 1, out);
        }
        proof {
            let t = d.subdirs@.take(j as int + 1);
            assert(t.drop_last() =~= d.subdirs@.take(j as int));
            assert(t.last() == d.subdirs@[j as int]);
            assert(out.deep_view() =~= out0 + render_subdirs(t, depth as nat));
        }
        j = j + 1;
    }
    proof {
        assert(d.subdirs@.take(d.subdirs@.len() as int) =~= d.subdirs@);
    }
    let ghost mid = out.deep_view();
    let mut k: usize = 0;
    proof {
        assert(d.entries@.take(0) =~= Seq::<EntryNode>::empty());
        assert(out.deep_view() =~= mid + render_entries(d.entries@.take(0), depth as nat));
    }
    while k < d.entries.len()
        invariant
            k <= d.entries@.len(),
            out.deep_view() == mid + render_entries(d.entries@.take(k as int), depth as nat),
        decreases d.entries@.len() - k,
    {
        let e = &d.entries[k];
        if !name_starts_with_dot(&e.name) {
            let ghost prev = out.deep_view();
            out.push(TreeLine { depth, label: e.name.clone() });
            proof {
                assert(out.deep_view() =~= prev.push(
                    TreeLineV { depth: depth as nat, label: e.name@ },
                ));
            }
        }
        proof {
            let t = d.entries@.take(k as int + 1);
            assert(t.drop_last() =~= d.entries@.take(k as int));
            assert(t.last() == d.entries@[k as int]);
            assert(out.deep_view() =~= mid + render_entries(t, depth as nat));
        }
        k = k + 1;
    }
    proof {
        assert(d.entries@.take(d.entries@.len() as int) =~= d.entries@);
        assert(out.deep_view() =~= out0 + render_dir(*d, depth as nat));
    }
}

impl Store {
    /// Renders the visible namespace, one line per node, depth encoding
    /// indentation. A pure function of the namespace at call time: for a
    /// fixed snapshot the output is always the same.
    pub fn render(&self) -> (r: Vec<TreeLine>)
        requires
            dir_height(self.root) <= usize::MAX,
        ensures
            r.deep_view() == render_dir(self.root, 0),
    {
        let mut out: Vec<TreeLine> = Vec::new();
        proof {
            assert(out.deep_view() =~= Seq::<TreeLineV>::empty());
        }
        render_rec(&self.root, 0, &mut out);
        proof {
            assert(Seq::<TreeLineV>::empty() + render_dir(self.root, 0) =~= render_dir(
                self.root,
                0,
            ));
        }
        out
    }
}

/// Rendering is deterministic: two renderings of the same unmodified
/// namespace are identical, line for line.
pub proof fn lemma_render_deterministic(s: Store, r1: Seq<TreeLineV>, r2: Seq<TreeLineV>)
    requires
        r1 == render_dir(s.root, 0),
        r2 == render_dir(s.root, 0),
    ensures
        r1 == r2,
{
}

} // verus!
