//! A model of the target directory as a map from relative paths to nodes,
//! the effect of a whole install or uninstall run on it, when each run
//! succeeds (`install_ok`, `uninstall_ok`), and the laws that these runs
//! obey.
use vstd::prelude::*;
use crate::tree::{
    below,
    dir_in_tree,
    in_tree,
    is_dir,
    is_file,
    paths_unique,
    pre_order,
    files_are_leaves,
    tree_wf,
    EntryView,
    RelPath,
};

verus! {

/// What the target directory holds at a path.
pub enum Node {
    File(Seq<u8>),
    Dir,
}

/// The target directory: every path below the root that exists, and what
/// is there.
pub type Fs = Map<RelPath, Node>;

/// Something lies below `d`.
pub open spec fn has_below(fs: Fs, d: RelPath) -> bool {
    exists|k: RelPath| #[trigger] fs.contains_key(k) && below(k, d)
}

/// What uninstall does with one entry.
#[derive(Clone, Copy, Debug, PartialEq, Eq, Structural)]
pub enum Removal {
    RemoveFile,
    RemoveDir,
    Keep,
}

/// A file is removed when it exists; a directory when it exists and holds
/// nothing at all.
pub open spec fn removal_for(e: EntryView, exists: bool, empty: bool) -> Removal {
    if is_file(e) {
        if exists {
            Removal::RemoveFile
        } else {
            Removal::Keep
        }
    } else if exists && empty {
        Removal::RemoveDir
    } else {
        Removal::Keep
    }
}

/// The target directory after uninstall has handled one entry.
pub open spec fn uninstall_entry(e: EntryView, fs: Fs) -> Fs {
    match removal_for(e, fs.contains_key(e.path), !has_below(fs, e.path)) {
        Removal::Keep => fs,
        _ => fs.remove(e.path),
    }
}

/// Uninstall can handle the entry: what exists at its path is of its kind
/// (removing a directory as a file, or listing a file as a directory,
/// fails).
pub open spec fn uninstall_entry_ok(e: EntryView, fs: Fs) -> bool {
    fs.contains_key(e.path) ==> if is_file(e) {
        fs[e.path] is File
    } else {
        fs[e.path] is Dir
    }
}

/// Every step of uninstall succeeds.
pub open spec fn uninstall_ok(es: Seq<EntryView>, fs: Fs) -> bool
    decreases es.len(),
{
    es.len() == 0 || (uninstall_entry_ok(es.last(), fs) && uninstall_ok(
        es.drop_last(),
        uninstall_entry(es.last(), fs),
    ))
}

/// The target directory after uninstall has handled every entry, last
/// entry first.
pub open spec fn uninstall_all(es: Seq<EntryView>, fs: Fs) -> Fs
    decreases es.len(),
{
    if es.len() == 0 {
        fs
    } else {
        uninstall_all(es.drop_last(), uninstall_entry(es.last(), fs))
    }
}

/// The target directory after install has handled one entry: the missing
/// directories above a file are created, what already stands above it is
/// left alone, and the file holds its contents.
pub open spec fn install_entry(e: EntryView, fs: Fs) -> Fs {
    match e.contents {
        Some(c) => Map::new(
            |q: RelPath| q.len() > 0 && below(e.path, q),
            |q: RelPath| Node::Dir,
        ).union_prefer_right(fs).insert(e.path, Node::File(c)),
        None => fs,
    }
}

/// Install can handle the entry: nothing above a file is a file (creating
/// the directories would fail), and the file's own path is no directory
/// (writing would fail).
pub open spec fn install_entry_ok(e: EntryView, fs: Fs) -> bool {
    is_file(e) ==> {
        &&& forall|q: RelPath|
            #[trigger] fs.contains_key(q) && q.len() > 0 && below(e.path, q) ==> fs[q] is Dir
        &&& fs.contains_key(e.path) ==> fs[e.path] is File
    }
}

/// Every step of install succeeds.
pub open spec fn install_ok(es: Seq<EntryView>, fs: Fs) -> bool
    decreases es.len(),
{
    es.len() == 0 || (install_ok(es.drop_last(), fs) && install_entry_ok(
        es.last(),
        install_all(es.drop_last(), fs),
    ))
}

/// `p` is the path of a file entry of `es`.
pub open spec fn file_in_tree(es: Seq<EntryView>, p: RelPath) -> bool {
    exists|i: int| 0 <= i < es.len() && is_file(#[trigger] es[i]) && es[i].path == p
}

/// `q` is a directory that install creates above some file of `es`.
pub open spec fn above_file(es: Seq<EntryView>, q: RelPath) -> bool {
    exists|i: int| 0 <= i < es.len() && is_file(#[trigger] es[i]) && q.len() > 0 && below(es[i].path, q)
}

/// The target directory is a real directory tree: everything above
/// something that exists is an existing directory.
pub open spec fn fs_closed(fs: Fs) -> bool {
    forall|k: RelPath, n: int|
        fs.contains_key(k) && 0 < n < k.len() ==> fs.contains_key(#[trigger] k.subrange(0, n))
            && fs[k.subrange(0, n)] is Dir
}

/// The target directory after install has handled every entry, first entry
/// first.
pub open spec fn install_all(es: Seq<EntryView>, fs: Fs) -> Fs
    decreases es.len(),
{
    if es.len() == 0 {
        fs
    } else {
        install_entry(es.last(), install_all(es.drop_last(), fs))
    }
}

/// `a` and `b` agree at `k`.
pub open spec fn same_at(a: Fs, b: Fs, k: RelPath) -> bool {
    &&& a.contains_key(k) == b.contains_key(k)
    &&& a.contains_key(k) ==> a[k] == b[k]
}

proof fn lemma_below_trans(a: RelPath, b: RelPath, c: RelPath)
    requires
        below(a, b),
        below(b, c),
    ensures
        below(a, c),
{
    assert(a.subrange(0, c.len() as int) =~= a.subrange(0, b.len() as int).subrange(
        0,
        c.len() as int,
    ));
}

proof fn lemma_in_tree_drop_last(es: Seq<EntryView>, k: RelPath)
    requires
        es.len() > 0,
        in_tree(es, k),
        es.last().path != k,
    ensures
        in_tree(es.drop_last(), k),
{
    let i = choose|i: int| 0 <= i < es.len() && (#[trigger] es[i]).path == k;
    assert(es.drop_last()[i] == es[i]);
}

proof fn lemma_not_in_tree_drop_last(es: Seq<EntryView>, k: RelPath)
    requires
        es.len() > 0,
        !in_tree(es, k),
    ensures
        !in_tree(es.drop_last(), k),
{
    if in_tree(es.drop_last(), k) {
        let i = choose|i: int|
            0 <= i < es.drop_last().len() && (#[trigger] es.drop_last()[i]).path == k;
        assert(es[i] == es.drop_last()[i]);
    }
}

/// Uninstall only removes, and only paths of the tree.
pub proof fn lemma_uninstall_frame(es: Seq<EntryView>, fs: Fs, k: RelPath)
    ensures
        uninstall_all(es, fs).contains_key(k) ==> fs.contains_key(k) && uninstall_all(es, fs)[k]
            == fs[k],
        fs.contains_key(k) && !in_tree(es, k) ==> uninstall_all(es, fs).contains_key(k),
    decreases es.len(),
{
    if es.len() > 0 {
        let fs1 = uninstall_entry(es.last(), fs);
        lemma_uninstall_frame(es.drop_last(), fs1, k);
        if !in_tree(es, k) {
            assert(es[es.len() - 1] == es.last());
            lemma_not_in_tree_drop_last(es, k);
        }
    }
}

/// After uninstall no file of the tree remains.
pub proof fn lemma_uninstall_removes_files(es: Seq<EntryView>, fs: Fs, i: int)
    requires
        0 <= i < es.len(),
        is_file(es[i]),
    ensures
        !uninstall_all(es, fs).contains_key(es[i].path),
    decreases es.len(),
{
    let fs1 = uninstall_entry(es.last(), fs);
    if i == es.len() - 1 {
        lemma_uninstall_frame(es.drop_last(), fs1, es[i].path);
    } else {
        assert(es.drop_last()[i] == es[i]);
        lemma_uninstall_removes_files(es.drop_last(), fs1, i);
    }
}


proof fn lemma_prefix_keeps_order(es: Seq<EntryView>)
    requires
        es.len() > 0,
        paths_unique(es),
        pre_order(es),
    ensures
        paths_unique(es.drop_last()),
        pre_order(es.drop_last()),
{
    let p = es.drop_last();
    assert forall|i: int, j: int| 0 <= i < p.len() && 0 <= j < p.len() && i != j implies (
    #[trigger] p[i]).path != (#[trigger] p[j]).path by {
        assert(p[i] == es[i] && p[j] == es[j]);
    }
    assert forall|i: int, j: int| 0 <= i < j < p.len() implies !below(
        (#[trigger] p[i]).path,
        (#[trigger] p[j]).path,
    ) by {
        assert(p[i] == es[i] && p[j] == es[j]);
    }
}

proof fn lemma_uninstall_identity(es: Seq<EntryView>, fs: Fs)
    requires
        forall|i: int| 0 <= i < es.len() ==> uninstall_entry(#[trigger] es[i], fs) == fs,
    ensures
        uninstall_all(es, fs) == fs,
    decreases es.len(),
{
    if es.len() > 0 {
        assert(es[es.len() - 1] == es.last());
        let p = es.drop_last();
        assert forall|i: int| 0 <= i < p.len() implies uninstall_entry(#[trigger] p[i], fs)
            == fs by {
            assert(p[i] == es[i]);
        }
        lemma_uninstall_identity(p, fs);
    }
}

/// Once uninstall has run, handling any entry of the tree again changes
/// nothing.
proof fn lemma_uninstall_settles(es: Seq<EntryView>, fs: Fs, i: int)
    requires
        paths_unique(es),
        pre_order(es),
        0 <= i < es.len(),
    ensures
        uninstall_entry(es[i], uninstall_all(es, fs)) == uninstall_all(es, fs),
    decreases es.len(),
{
    let n = es.len() - 1;
    let last = es.last();
    assert(es[n] == last);
    let p = es.drop_last();
    let fs1 = uninstall_entry(last, fs);
    let r = uninstall_all(es, fs);
    assert(r == uninstall_all(p, fs1));
    lemma_prefix_keeps_order(es);
    if i < n {
        assert(p[i] == es[i]);
        lemma_uninstall_settles(p, fs1, i);
    } else {
        if in_tree(p, last.path) {
            let j = choose|j: int| 0 <= j < p.len() && (#[trigger] p[j]).path == last.path;
            assert(p[j] == es[j]);
        }
        lemma_uninstall_frame(p, fs1, last.path);
        if fs1.contains_key(last.path) {
            assert(fs1 == fs);
            let c = choose|c: RelPath| #[trigger] fs.contains_key(c) && below(c, last.path);
            if in_tree(p, c) {
                let j = choose|j: int| 0 <= j < p.len() && (#[trigger] p[j]).path == c;
                assert(p[j] == es[j]);
            }
            lemma_uninstall_frame(p, fs1, c);
            assert(r.contains_key(c));
            assert(has_below(r, last.path));
        }
    }
}

/// Uninstall is idempotent: a second run right after the first removes
/// nothing, so it cannot fail on a missing path and leaves the same state.
pub proof fn lemma_uninstall_idempotent(es: Seq<EntryView>, fs: Fs)
    requires
        tree_wf(es),
        uninstall_ok(es, fs),
    ensures
        uninstall_ok(es, uninstall_all(es, fs)),
        uninstall_all(es, uninstall_all(es, fs)) == uninstall_all(es, fs),
        forall|i: int|
            0 <= i < es.len() ==> uninstall_entry(#[trigger] es[i], uninstall_all(es, fs))
                == uninstall_all(es, fs),
{
    let r = uninstall_all(es, fs);
    assert forall|i: int| 0 <= i < es.len() implies uninstall_entry(#[trigger] es[i], r)
        == r by {
        lemma_uninstall_settles(es, fs, i);
    }
    assert forall|i: int| 0 <= i < es.len() implies uninstall_entry_ok(#[trigger] es[i], r) by {
        lemma_uninstall_settles_ok(es, fs, i);
    }
    lemma_uninstall_identity(es, r);
    lemma_uninstall_ok_from_steps(es, r);
}

/// A directory of the tree that also holds something the tree does not
/// define stays, and so does that foreign thing, while the tree's files go.
pub proof fn lemma_uninstall_keeps_foreign(es: Seq<EntryView>, fs: Fs, i: int, k: RelPath)
    requires
        tree_wf(es),
        0 <= i < es.len(),
        is_dir(es[i]),
        fs.contains_key(es[i].path),
        fs.contains_key(k),
        below(k, es[i].path),
        !in_tree(es, k),
    ensures
        uninstall_all(es, fs).contains_key(es[i].path),
        uninstall_all(es, fs).contains_key(k),
        forall|j: int|
            0 <= j < es.len() && is_file(#[trigger] es[j]) ==> !uninstall_all(
                es,
                fs,
            ).contains_key(es[j].path),
{
    lemma_uninstall_keeps_dir(es, fs, i, k);
    lemma_uninstall_frame(es, fs, k);
    assert forall|j: int| 0 <= j < es.len() && is_file(#[trigger] es[j]) implies !uninstall_all(
        es,
        fs,
    ).contains_key(es[j].path) by {
        lemma_uninstall_removes_files(es, fs, j);
    }
}

proof fn lemma_uninstall_keeps_dir(es: Seq<EntryView>, fs: Fs, i: int, k: RelPath)
    requires
        paths_unique(es),
        0 <= i < es.len(),
        is_dir(es[i]),
        fs.contains_key(es[i].path),
        fs.contains_key(k),
        below(k, es[i].path),
        !in_tree(es, k),
    ensures
        uninstall_all(es, fs).contains_key(es[i].path),
    decreases es.len(),
{
    let n = es.len() - 1;
    let last = es.last();
    assert(es[n] == last);
    let p = es.drop_last();
    let fs1 = uninstall_entry(last, fs);
    lemma_not_in_tree_drop_last(es, k);
    if i == n {
        assert(has_below(fs, last.path));
        if in_tree(p, last.path) {
            let j = choose|j: int| 0 <= j < p.len() && (#[trigger] p[j]).path == last.path;
            assert(p[j] == es[j]);
        }
        lemma_uninstall_frame(p, fs1, last.path);
    } else {
        assert(p[i] == es[i]);
        assert(last.path != es[i].path);
        assert(last.path != k);
        assert(fs1.contains_key(es[i].path) && fs1.contains_key(k));
        assert(paths_unique(p)) by {
            assert forall|a: int, b: int|
                0 <= a < p.len() && 0 <= b < p.len() && a != b implies (#[trigger] p[a]).path
                != (#[trigger] p[b]).path by {
                assert(p[a] == es[a] && p[b] == es[b]);
            }
        }
        lemma_uninstall_keeps_dir(p, fs1, i, k);
    }
}

/// A directory of the tree below which everything is the tree's own is
/// gone after uninstall.
pub proof fn lemma_uninstall_clears_dir(es: Seq<EntryView>, fs: Fs, i: int)
    requires
        paths_unique(es),
        pre_order(es),
        0 <= i < es.len(),
        is_dir(es[i]),
        forall|k: RelPath| #[trigger] fs.contains_key(k) && below(k, es[i].path) ==> in_tree(es, k),
    ensures
        !uninstall_all(es, fs).contains_key(es[i].path),
    decreases es.len(),
{
    let n = es.len() - 1;
    let last = es.last();
    assert(es[n] == last);
    let p = es.drop_last();
    let fs1 = uninstall_entry(last, fs);
    let d = es[i].path;
    lemma_prefix_keeps_order(es);
    if i == n {
        if has_below(fs, d) {
            let c = choose|c: RelPath| #[trigger] fs.contains_key(c) && below(c, d);
            let j = choose|j: int| 0 <= j < es.len() && (#[trigger] es[j]).path == c;
            assert(j != n);
        }
        lemma_uninstall_frame(p, fs1, d);
    } else {
        assert(p[i] == es[i]);
        assert forall|k: RelPath| #[trigger] fs1.contains_key(k) && below(k, d) implies in_tree(
            p,
            k,
        ) by {
            if k == last.path {
                assert(fs1 == fs);
                let c = choose|c: RelPath| #[trigger] fs.contains_key(c) && below(c, last.path);
                lemma_below_trans(c, last.path, d);
                let m = choose|m: int| 0 <= m < es.len() && (#[trigger] es[m]).path == c;
                assert(m != n);
                assert(false);
            }
            lemma_in_tree_drop_last(es, k);
        }
        lemma_uninstall_clears_dir(p, fs1, i);
    }
}

/// Install leaves alone a path that is no entry's and above no file.
proof fn lemma_install_frame(es: Seq<EntryView>, fs: Fs, k: RelPath)
    requires
        forall|i: int| 0 <= i < es.len() ==> (#[trigger] es[i]).path != k,
        forall|i: int|
            0 <= i < es.len() && k.len() > 0 && is_file(#[trigger] es[i]) ==> !below(
                es[i].path,
                k,
            ),
    ensures
        same_at(install_all(es, fs), fs, k),
    decreases es.len(),
{
    if es.len() > 0 {
        let p = es.drop_last();
        assert(es[es.len() - 1] == es.last());
        assert forall|i: int| 0 <= i < p.len() implies (#[trigger] p[i]).path != k by {
            assert(p[i] == es[i]);
        }
        assert forall|i: int|
            0 <= i < p.len() && k.len() > 0 && is_file(#[trigger] p[i]) implies !below(
            p[i].path,
            k,
        ) by {
            assert(p[i] == es[i]);
        }
        lemma_install_frame(p, fs, k);
    }
}

/// Install writes every file of the tree with exactly its packaged
/// contents, whatever the target held at that path before.
pub proof fn lemma_install_writes_files(es: Seq<EntryView>, fs: Fs, i: int)
    requires
        paths_unique(es),
        files_are_leaves(es),
        0 <= i < es.len(),
        is_file(es[i]),
    ensures
        install_all(es, fs).contains_key(es[i].path),
        install_all(es, fs)[es[i].path] == Node::File(es[i].contents.unwrap()),
    decreases es.len(),
{
    let n = es.len() - 1;
    let last = es.last();
    assert(es[n] == last);
    let p = es.drop_last();
    if i < n {
        assert(p[i] == es[i]);
        assert(paths_unique(p)) by {
            assert forall|a: int, b: int|
                0 <= a < p.len() && 0 <= b < p.len() && a != b implies (#[trigger] p[a]).path
                != (#[trigger] p[b]).path by {
                assert(p[a] == es[a] && p[b] == es[b]);
            }
        }
        assert(files_are_leaves(p)) by {
            assert forall|a: int, b: int|
                0 <= a < p.len() && 0 <= b < p.len() && is_file(#[trigger] p[a]) implies !below(
                (#[trigger] p[b]).path,
                p[a].path,
            ) by {
                assert(p[a] == es[a] && p[b] == es[b]);
            }
        }
        lemma_install_writes_files(p, fs, i);
        assert(!below(last.path, es[i].path));
    }
}

/// Installing and then uninstalling removes every file of the tree, removes
/// every directory of the tree below which the target held nothing foreign,
/// and leaves every path outside the tree as it was before the install.
pub proof fn lemma_install_then_uninstall(es: Seq<EntryView>, fs: Fs)
    requires
        tree_wf(es),
    ensures
        forall|i: int|
            0 <= i < es.len() && is_file(#[trigger] es[i]) ==> !uninstall_all(
                es,
                install_all(es, fs),
            ).contains_key(es[i].path),
        forall|i: int|
            0 <= i < es.len() && is_dir(#[trigger] es[i]) && (forall|k: RelPath|
                #[trigger] fs.contains_key(k) && below(k, es[i].path) ==> in_tree(es, k))
                ==> !uninstall_all(es, install_all(es, fs)).contains_key(es[i].path),
        forall|k: RelPath|
            !in_tree(es, k) ==> #[trigger] same_at(
                uninstall_all(es, install_all(es, fs)),
                fs,
                k,
            ),
{
    let fs1 = install_all(es, fs);
    let r = uninstall_all(es, fs1);
    assert forall|k: RelPath| !in_tree(es, k) implies #[trigger] same_at(fs1, fs, k) by {
        assert forall|i: int|
            0 <= i < es.len() && k.len() > 0 && is_file(#[trigger] es[i]) implies !below(
            es[i].path,
            k,
        ) by {
            if below(es[i].path, k) {
                assert(es[i].path.subrange(0, k.len() as int) == k);
                assert(dir_in_tree(es, es[i].path.subrange(0, k.len() as int)));
            }
        }
        lemma_install_frame(es, fs, k);
    }
    assert forall|k: RelPath| !in_tree(es, k) implies #[trigger] same_at(r, fs, k) by {
        assert(same_at(fs1, fs, k));
        lemma_uninstall_frame(es, fs1, k);
    }
    assert forall|i: int| 0 <= i < es.len() && is_file(#[trigger] es[i]) implies !r.contains_key(
        es[i].path,
    ) by {
        lemma_uninstall_removes_files(es, fs1, i);
    }
    assert forall|i: int|
        0 <= i < es.len() && is_dir(#[trigger] es[i]) && (forall|k: RelPath|
            #[trigger] fs.contains_key(k) && below(k, es[i].path) ==> in_tree(es, k)) implies !r.contains_key(
        es[i].path,
    ) by {
        assert forall|k: RelPath| #[trigger] fs1.contains_key(k) && below(k, es[i].path) implies in_tree(
            es,
            k,
        ) by {
            if !in_tree(es, k) {
                assert(same_at(fs1, fs, k));
            }
        }
        lemma_uninstall_clears_dir(es, fs1, i);
    }
}

proof fn lemma_install_at(es: Seq<EntryView>, fs: Fs, k: RelPath)
    ensures
        fs.contains_key(k) ==> install_all(es, fs).contains_key(k),
        fs.contains_key(k) && !file_in_tree(es, k) ==> install_all(es, fs)[k] == fs[k],
        install_all(es, fs).contains_key(k) && !fs.contains_key(k) ==> file_in_tree(es, k) || (
        install_all(es, fs)[k] is Dir && above_file(es, k)),
    decreases es.len(),
{
    if es.len() > 0 {
        let n = es.len() - 1;
        let last = es.last();
        assert(es[n] == last);
        let p = es.drop_last();
        let x = install_all(p, fs);
        lemma_install_at(p, fs, k);
        if file_in_tree(p, k) {
            let j = choose|j: int| 0 <= j < p.len() && is_file(#[trigger] p[j]) && p[j].path == k;
            assert(p[j] == es[j]);
        }
        if above_file(p, k) {
            let j = choose|j: int|
                0 <= j < p.len() && is_file(#[trigger] p[j]) && k.len() > 0 && below(p[j].path, k);
            assert(p[j] == es[j]);
        }
        if is_file(last) && k == last.path {
            assert(file_in_tree(es, k));
        }
    }
}

/// Install only adds: nothing is removed, whatever is not a file of the
/// tree keeps its value, and what is new is a file of the tree or a
/// directory created above one.
pub proof fn lemma_install_only_adds(es: Seq<EntryView>, fs: Fs)
    ensures
        forall|k: RelPath| #[trigger] fs.contains_key(k) ==> install_all(es, fs).contains_key(k),
        forall|k: RelPath|
            #[trigger] fs.contains_key(k) && !file_in_tree(es, k) ==> install_all(es, fs)[k]
                == fs[k],
        forall|k: RelPath|
            #[trigger] install_all(es, fs).contains_key(k) && !fs.contains_key(k) ==> file_in_tree(
                es,
                k,
            ) || (install_all(es, fs)[k] is Dir && above_file(es, k)),
{
    assert forall|k: RelPath| #[trigger] fs.contains_key(k) implies install_all(
        es,
        fs,
    ).contains_key(k) by {
        lemma_install_at(es, fs, k);
    }
    assert forall|k: RelPath| #[trigger] fs.contains_key(k) && !file_in_tree(es, k) implies install_all(
        es,
        fs,
    )[k] == fs[k] by {
        lemma_install_at(es, fs, k);
    }
    assert forall|k: RelPath| #[trigger] install_all(es, fs).contains_key(k) && !fs.contains_key(
        k,
    ) implies file_in_tree(es, k) || (install_all(es, fs)[k] is Dir && above_file(es, k)) by {
        lemma_install_at(es, fs, k);
    }
}

proof fn lemma_uninstall_ok_from_steps(es: Seq<EntryView>, fs: Fs)
    requires
        forall|i: int| 0 <= i < es.len() ==> uninstall_entry(#[trigger] es[i], fs) == fs,
        forall|i: int| 0 <= i < es.len() ==> uninstall_entry_ok(#[trigger] es[i], fs),
    ensures
        uninstall_ok(es, fs),
    decreases es.len(),
{
    if es.len() > 0 {
        assert(es[es.len() - 1] == es.last());
        let p = es.drop_last();
        assert forall|i: int| 0 <= i < p.len() implies uninstall_entry(#[trigger] p[i], fs)
            == fs && uninstall_entry_ok(p[i], fs) by {
            assert(p[i] == es[i]);
        }
        lemma_uninstall_ok_from_steps(p, fs);
    }
}

proof fn lemma_uninstall_settles_ok(es: Seq<EntryView>, fs: Fs, i: int)
    requires
        paths_unique(es),
        uninstall_ok(es, fs),
        0 <= i < es.len(),
    ensures
        uninstall_entry_ok(es[i], uninstall_all(es, fs)),
    decreases es.len(),
{
    let n = es.len() - 1;
    let last = es.last();
    assert(es[n] == last);
    let p = es.drop_last();
    let fs1 = uninstall_entry(last, fs);
    if i < n {
        assert(p[i] == es[i]);
        assert(paths_unique(p)) by {
            assert forall|a: int, b: int|
                0 <= a < p.len() && 0 <= b < p.len() && a != b implies (#[trigger] p[a]).path
                != (#[trigger] p[b]).path by {
                assert(p[a] == es[a] && p[b] == es[b]);
            }
        }
        lemma_uninstall_settles_ok(p, fs1, i);
    } else {
        lemma_uninstall_frame(p, fs1, last.path);
    }
}

/// A successful uninstall that finds none of the tree's files, and finds
/// each existing directory of the tree non-empty, changes nothing.
pub proof fn lemma_uninstall_nothing_installed(es: Seq<EntryView>, fs: Fs)
    requires
        forall|i: int| 0 <= i < es.len() && is_file(#[trigger] es[i]) ==> !fs.contains_key(es[i].path),
        forall|i: int|
            0 <= i < es.len() && is_dir(#[trigger] es[i]) && fs.contains_key(es[i].path) ==> fs[es[i].path] is Dir
                && has_below(fs, es[i].path),
    ensures
        uninstall_ok(es, fs),
        uninstall_all(es, fs) == fs,
{
    lemma_uninstall_ok_from_steps(es, fs);
    lemma_uninstall_identity(es, fs);
}

/// On a target that is a real directory tree, installing and then
/// uninstalling keeps a directory of the tree exactly when the target held
/// something foreign below it.
pub proof fn lemma_install_then_uninstall_keeps_dirs(es: Seq<EntryView>, fs: Fs, i: int)
    requires
        tree_wf(es),
        fs_closed(fs),
        0 <= i < es.len(),
        is_dir(es[i]),
    ensures
        uninstall_all(es, install_all(es, fs)).contains_key(es[i].path) <==> exists|k: RelPath|
            #[trigger] fs.contains_key(k) && below(k, es[i].path) && !in_tree(es, k),
{
    let d = es[i].path;
    let fs1 = install_all(es, fs);
    lemma_install_then_uninstall(es, fs);
    lemma_install_only_adds(es, fs);
    if exists|k: RelPath| #[trigger] fs.contains_key(k) && below(k, d) && !in_tree(es, k) {
        let k = choose|k: RelPath| #[trigger] fs.contains_key(k) && below(k, d) && !in_tree(es, k);
        assert(k.subrange(0, d.len() as int) == d);
        assert(fs.contains_key(d));
        if file_in_tree(es, d) {
            let j = choose|j: int| 0 <= j < es.len() && is_file(#[trigger] es[j]) && es[j].path == d;
            assert(j != i);
        }
        if file_in_tree(es, k) {
            let j = choose|j: int| 0 <= j < es.len() && is_file(#[trigger] es[j]) && es[j].path == k;
            assert(in_tree(es, k));
        }
        assert(fs1.contains_key(d) && fs1.contains_key(k));
        lemma_uninstall_keeps_dir(es, fs1, i, k);
    } else {
        assert(forall|k: RelPath| #[trigger] fs.contains_key(k) && below(k, d) ==> in_tree(es, k));
    }
}

/// On a target that is a real directory tree and holds none of the tree's
/// paths, installing and then uninstalling restores it exactly.
pub proof fn lemma_install_then_uninstall_restores(es: Seq<EntryView>, fs: Fs)
    requires
        tree_wf(es),
        fs_closed(fs),
        forall|i: int| 0 <= i < es.len() ==> !fs.contains_key((#[trigger] es[i]).path),
    ensures
        uninstall_all(es, install_all(es, fs)) == fs,
{
    let r = uninstall_all(es, install_all(es, fs));
    lemma_install_then_uninstall(es, fs);
    assert forall|k: RelPath| #[trigger] same_at(r, fs, k) by {
        if in_tree(es, k) {
            let i = choose|i: int| 0 <= i < es.len() && (#[trigger] es[i]).path == k;
            if is_dir(es[i]) {
                lemma_install_then_uninstall_keeps_dirs(es, fs, i);
                if exists|c: RelPath| #[trigger] fs.contains_key(c) && below(c, k) && !in_tree(es, c) {
                    let c = choose|c: RelPath| #[trigger] fs.contains_key(c) && below(c, k) && !in_tree(es, c);
                    assert(c.subrange(0, k.len() as int) == k);
                    assert(fs.contains_key(k));
                }
            }
        }
    }
    assert(r =~= fs) by {
        assert forall|k: RelPath| r.contains_key(k) <==> fs.contains_key(k) by {
            assert(same_at(r, fs, k));
        }
        assert forall|k: RelPath| r.contains_key(k) implies r[k] == fs[k] by {
            assert(same_at(r, fs, k));
        }
    }
}

} // verus!
