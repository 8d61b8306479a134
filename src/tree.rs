//! The resource tree: every file and directory to install, as paths of
//! segments relative to the target root, listed parent before child.
use vstd::prelude::*;

verus! {

/// A path relative to the target root, one element per segment.
pub type RelPath = Seq<Seq<char>>;

/// What a resource entry is, as a mathematical value.
pub struct EntryView {
    pub path: RelPath,
    /// `Some(bytes)` for a file, `None` for a directory.
    pub contents: Option<Seq<u8>>,
}

/// `k` lies strictly below `d`.
pub open spec fn below(k: RelPath, d: RelPath) -> bool {
    k.len() > d.len() && k.subrange(0, d.len() as int) =~= d
}

/// The entry is a file.
pub open spec fn is_file(e: EntryView) -> bool {
    e.contents is Some
}

/// The entry is a directory.
pub open spec fn is_dir(e: EntryView) -> bool {
    e.contents is None
}

/// `p` is the path of some entry of `es`.
pub open spec fn in_tree(es: Seq<EntryView>, p: RelPath) -> bool {
    exists|i: int| 0 <= i < es.len() && (#[trigger] es[i]).path == p
}

/// `p` is the path of a directory entry of `es`.
pub open spec fn dir_in_tree(es: Seq<EntryView>, p: RelPath) -> bool {
    exists|j: int| 0 <= j < es.len() && is_dir(#[trigger] es[j]) && es[j].path == p
}

/// Every path has at least one segment.
pub open spec fn paths_nonempty(es: Seq<EntryView>) -> bool {
    forall|i: int| 0 <= i < es.len() ==> (#[trigger] es[i]).path.len() > 0
}

/// No two entries share a path.
pub open spec fn paths_unique(es: Seq<EntryView>) -> bool {
    forall|i: int, j: int|
        0 <= i < es.len() && 0 <= j < es.len() && i != j ==> (#[trigger] es[i]).path
            != (#[trigger] es[j]).path
}

/// Nothing lies below a file.
pub open spec fn files_are_leaves(es: Seq<EntryView>) -> bool {
    forall|i: int, j: int|
        0 <= i < es.len() && 0 <= j < es.len() && is_file(#[trigger] es[i]) ==> !below(
            (#[trigger] es[j]).path,
            es[i].path,
        )
}

/// Every non-empty strict prefix of a path is the path of a directory entry.
pub open spec fn ancestors_present(es: Seq<EntryView>) -> bool {
    forall|i: int, n: int|
        0 <= i < es.len() && 0 < n < es[i].path.len() ==> dir_in_tree(
            es,
            #[trigger] es[i].path.subrange(0, n),
        )
}

/// An entry never comes before an entry that lies above it (pre-order).
pub open spec fn pre_order(es: Seq<EntryView>) -> bool {
    forall|i: int, j: int|
        0 <= i < j < es.len() ==> !below((#[trigger] es[i]).path, (#[trigger] es[j]).path)
}

/// `p` has a file of `es` below it.
pub open spec fn file_below(es: Seq<EntryView>, p: RelPath) -> bool {
    exists|j: int| 0 <= j < es.len() && is_file(#[trigger] es[j]) && below(es[j].path, p)
}

/// A directory exists only to hold something: some file lies below it.
pub open spec fn dirs_hold_files(es: Seq<EntryView>) -> bool {
    forall|i: int| 0 <= i < es.len() && is_dir(#[trigger] es[i]) ==> file_below(es, es[i].path)
}

/// The invariants of a resource tree.
pub open spec fn tree_wf(es: Seq<EntryView>) -> bool {
    &&& paths_nonempty(es)
    &&& dirs_hold_files(es)
    &&& paths_unique(es)
    &&& files_are_leaves(es)
    &&& ancestors_present(es)
    &&& pre_order(es)
}

/// One file or directory of the tree.
pub struct ResourceEntry {
    pub path: Vec<String>,
    /// `Some(bytes)` for a file, `None` for a directory.
    pub contents: Option<Vec<u8>>,
}

/// A path of strings as a mathematical path.
pub open spec fn path_view(p: Seq<String>) -> RelPath {
    p.map_values(|s: String| s@)
}

impl View for ResourceEntry {
    type V = EntryView;

    open spec fn view(&self) -> EntryView {
        EntryView {
            path: path_view(self.path@),
            contents: match self.contents {
                Some(c) => Some(c@),
                None => None,
            },
        }
    }
}

/// The entries as mathematical values.
pub open spec fn entries_view(es: Seq<ResourceEntry>) -> Seq<EntryView> {
    es.map_values(|e: ResourceEntry| e@)
}

impl ResourceEntry {
    /// Whether the entry is a file.
    pub fn is_file(&self) -> (r: bool)
        ensures
            r == is_file(self@),
    {
        self.contents.is_some()
    }
}

/// Compares the first `n` segments of two paths.
fn segments_match(a: &Vec<String>, b: &Vec<String>, n: usize) -> (r: bool)
    requires
        n <= a@.len(),
        n <= b@.len(),
    ensures
        r == (path_view(a@).subrange(0, n as int) == path_view(b@).subrange(0, n as int)),
{
    let mut i: usize = 0;
    while i < n
        invariant
            i <= n,
            n <= a@.len(),
            n <= b@.len(),
            path_view(a@).subrange(0, i as int) == path_view(b@).subrange(0, i as int),
        decreases n - i,
    {
        if a[i] != b[i] {
            assert(path_view(a@).subrange(0, n as int)[i as int] != path_view(b@).subrange(
                0,
                n as int,
            )[i as int]);
            return false;
        }
        assert(path_view(a@).subrange(0, i + 1) =~= path_view(a@).subrange(0, i as int).push(
            a@[i as int]@,
        ));
        assert(path_view(b@).subrange(0, i + 1) =~= path_view(b@).subrange(0, i as int).push(
            b@[i as int]@,
        ));
        i = i + 1;
    }
    true
}

/// The two paths are the same.
pub fn same_path(a: &Vec<String>, b: &Vec<String>) -> (r: bool)
    ensures
        r == (path_view(a@) == path_view(b@)),
{
    if a.len() != b.len() {
        return false;
    }
    let r = segments_match(a, b, a.len());
    assert(path_view(a@).subrange(0, a@.len() as int) =~= path_view(a@));
    assert(path_view(b@).subrange(0, b@.len() as int) =~= path_view(b@));
    r
}

/// `k` lies strictly below `d`.
pub fn is_below(k: &Vec<String>, d: &Vec<String>) -> (r: bool)
    ensures
        r == below(path_view(k@), path_view(d@)),
{
    if k.len() <= d.len() {
        return false;
    }
    let r = segments_match(k, d, d.len());
    assert(path_view(d@).subrange(0, d@.len() as int) =~= path_view(d@));
    r
}

/// The embedded resources, listed in pre-order, with the invariants of
/// `tree_wf`.
pub struct ResourceTree {
    entries: Vec<ResourceEntry>,
}

impl View for ResourceTree {
    type V = Seq<EntryView>;

    closed spec fn view(&self) -> Seq<EntryView> {
        entries_view(self.entries@)
    }
}

impl ResourceTree {
    #[verifier::type_invariant]
    pub(crate) closed spec fn inv(&self) -> bool {
        tree_wf(entries_view(self.entries@))
    }

    pub(crate) proof fn lemma_inv(&self)
        requires
            self.inv(),
        ensures
            tree_wf(self@),
    {
    }

    /// Builds a tree from its entries, listed in pre-order; `None` when they
    /// break an invariant of `tree_wf`.
    pub fn new(entries: Vec<ResourceEntry>) -> (r: Option<ResourceTree>)
        ensures
            r is Some <==> tree_wf(entries_view(entries@)),
            r matches Some(t) ==> t@ == entries_view(entries@),
    {
        if check_tree(&entries) {
            Some(ResourceTree { entries })
        } else {
            None
        }
    }

    /// Every entry, files and directories, parent before child. The result
    /// depends on the tree alone, so every call gives the same sequence.
    pub fn enumerate(&self) -> (r: &Vec<ResourceEntry>)
        ensures
            entries_view(r@) == self@,
            tree_wf(self@),
    {
        proof {
            use_type_invariant(self);
        }
        &self.entries
    }

    /// The number of entries.
    pub fn len(&self) -> (r: usize)
        ensures
            r == self@.len(),
    {
        self.entries.len()
    }

    /// The entry at position `i` of the enumeration.
    pub fn entry(&self, i: usize) -> (r: &ResourceEntry)
        requires
            i < self@.len(),
        ensures
            r@ == self@[i as int],
    {
        &self.entries[i]
    }

    /// The contents of the file at `path`; `None` when no file of the tree
    /// has that path.
    pub fn read(&self, path: &Vec<String>) -> (r: Option<&Vec<u8>>)
        ensures
            r is None <==> !(exists|i: int|
                0 <= i < self@.len() && is_file(#[trigger] self@[i]) && self@[i].path
                    == path_view(path@)),
            r matches Some(c) ==> exists|i: int|
                0 <= i < self@.len() && is_file(#[trigger] self@[i]) && self@[i].path
                    == path_view(path@) && self@[i].contents == Some(c@),
    {
        let mut i: usize = 0;
        while i < self.entries.len()
            invariant
                i <= self@.len(),
                self@.len() == self.entries@.len(),
                forall|j: int|
                    0 <= j < i ==> !(is_file(#[trigger] self@[j]) && self@[j].path == path_view(
                        path@,
                    )),
            decreases self.entries.len() - i,
        {
            let e = &self.entries[i];
            assert(self@[i as int] == e@);
            if same_path(&e.path, path) {
                match &e.contents {
                    Some(c) => {
                        return Some(c);
                    },
                    None => {},
                }
            }
            i = i + 1;
        }
        None
    }
}

fn check_tree(es: &Vec<ResourceEntry>) -> (r: bool)
    ensures
        r == tree_wf(entries_view(es@)),
{
    let ghost v = entries_view(es@);
    let n = es.len();
    let mut i: usize = 0;
    while i < n
        invariant
            n == es@.len(),
            v == entries_view(es@),
            i <= n,
            forall|a: int| 0 <= a < i ==> (#[trigger] v[a]).path.len() > 0,
            forall|a: int| 0 <= a < i && is_dir(#[trigger] v[a]) ==> file_below(v, v[a].path),
            forall|a: int, b: int|
                0 <= a < i && 0 <= b < n && a != b ==> (#[trigger] v[a]).path
                    != (#[trigger] v[b]).path,
            forall|a: int, b: int|
                0 <= a < i && 0 <= b < n && is_file(#[trigger] v[a]) ==> !below(
                    (#[trigger] v[b]).path,
                    v[a].path,
                ),
            forall|a: int, m: int|
                0 <= a < i && 0 < m < v[a].path.len() ==> dir_in_tree(
                    v,
                    #[trigger] v[a].path.subrange(0, m),
                ),
            forall|a: int, b: int|
                0 <= b < i && 0 <= a < b ==> !below((#[trigger] v[a]).path, (#[trigger] v[b]).path),
        decreases n - i,
    {
        let ei = &es[i];
        assert(v[i as int] == ei@);
        if ei.path.len() == 0 {
            return false;
        }
        if !ei.is_file() && !has_file_below(es, &ei.path) {
            return false;
        }
        let mut j: usize = 0;
        while j < n
            invariant
                n == es@.len(),
                v == entries_view(es@),
                i < n,
                j <= n,
                ei@ == v[i as int],
                forall|b: int| 0 <= b < j && b != i ==> (#[trigger] v[b]).path != v[i as int].path,
                forall|b: int|
                    0 <= b < j && is_file(v[i as int]) ==> !below(
                        (#[trigger] v[b]).path,
                        v[i as int].path,
                    ),
                forall|a: int| 0 <= a < j && a < i ==> !below((#[trigger] v[a]).path, v[i as int].path),
            decreases n - j,
        {
            let ej = &es[j];
            assert(v[j as int] == ej@);
            if j != i && same_path(&ej.path, &ei.path) {
                return false;
            }
            if ei.is_file() && is_below(&ej.path, &ei.path) {
                return false;
            }
            if j < i && is_below(&ej.path, &ei.path) {
                return false;
            }
            j = j + 1;
        }
        let mut m: usize = 1;
        while m < ei.path.len()
            invariant
                n == es@.len(),
                v == entries_view(es@),
                i < n,
                1 <= m,
                ei@ == v[i as int],
                forall|q: int| 0 < q < m && q < v[i as int].path.len() ==> dir_in_tree(
                    v,
                    #[trigger] v[i as int].path.subrange(0, q),
                ),
            decreases ei.path.len() - m,
        {
            if !has_dir_at(es, &ei.path, m) {
                return false;
            }
            m = m + 1;
        }
        i = i + 1;
    }
    true
}

/// Some file entry of `es` lies below `p`.
fn has_file_below(es: &Vec<ResourceEntry>, p: &Vec<String>) -> (r: bool)
    ensures
        r == file_below(entries_view(es@), path_view(p@)),
{
    let ghost v = entries_view(es@);
    let mut j: usize = 0;
    while j < es.len()
        invariant
            v == entries_view(es@),
            j <= es@.len(),
            forall|b: int| 0 <= b < j ==> !(is_file(#[trigger] v[b]) && below(v[b].path, path_view(p@))),
        decreases es.len() - j,
    {
        let ej = &es[j];
        assert(v[j as int] == ej@);
        if ej.is_file() && is_below(&ej.path, p) {
            return true;
        }
        j = j + 1;
    }
    false
}

/// Some directory entry of `es` has the first `m` segments of `p` as its
/// path.
fn has_dir_at(es: &Vec<ResourceEntry>, p: &Vec<String>, m: usize) -> (r: bool)
    requires
        m <= p@.len(),
    ensures
        r == dir_in_tree(entries_view(es@), path_view(p@).subrange(0, m as int)),
{
    let ghost v = entries_view(es@);
    let ghost want = path_view(p@).subrange(0, m as int);
    let mut j: usize = 0;
    while j < es.len()
        invariant
            v == entries_view(es@),
            j <= es@.len(),
            m <= p@.len(),
            want == path_view(p@).subrange(0, m as int),
            forall|b: int| 0 <= b < j ==> !(is_dir(#[trigger] v[b]) && v[b].path == want),
        decreases es.len() - j,
    {
        let ej = &es[j];
        assert(v[j as int] == ej@);
        if ej.path.len() == m {
            assert(path_view(ej.path@).subrange(0, m as int) =~= path_view(ej.path@));
            if !ej.is_file() && segments_match(&ej.path, p, m) {
                return true;
            }
        } else {
            assert(path_view(ej.path@).len() != want.len());
        }
        j = j + 1;
    }
    false
}

} // verus!
