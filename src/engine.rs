//! The decisions of install and uninstall. The caller walks the entries in
//! the order given here, performs each step on the target directory and,
//! for uninstall, reports what it found there.
use vstd::prelude::*;
use crate::model::{removal_for, Removal};
use crate::tree::{below, is_file, EntryView, ResourceEntry, ResourceTree};

verus! {

/// The positions of the file entries of `es`, in order. Install writes
/// exactly these, each after creating the directories above it.
pub open spec fn file_positions(es: Seq<EntryView>) -> Seq<int>
    decreases es.len(),
{
    if es.len() == 0 {
        Seq::empty()
    } else if is_file(es.last()) {
        file_positions(es.drop_last()).push(es.len() - 1)
    } else {
        file_positions(es.drop_last())
    }
}

/// The order in which uninstall handles the entries: the enumeration
/// reversed, so that everything below a directory comes before it.
pub open spec fn reversed_positions(n: nat) -> Seq<int> {
    Seq::new(n, |k: int| n - 1 - k)
}

/// The positions in the enumeration of the files that install writes, in
/// the order in which it writes them.
pub fn install_order(tree: &ResourceTree) -> (r: Vec<usize>)
    ensures
        r@.map_values(|i: usize| i as int) == file_positions(tree@),
{
    let mut r: Vec<usize> = Vec::new();
    let mut i: usize = 0;
    while i < tree.len()
        invariant
            i <= tree@.len(),
            r@.map_values(|x: usize| x as int) == file_positions(tree@.subrange(0, i as int)),
        decreases tree@.len() - i,
    {
        let e = tree.entry(i);
        let ghost before = tree@.subrange(0, i as int);
        let ghost after = tree@.subrange(0, i + 1);
        assert(after.drop_last() =~= before);
        assert(after.last() == e@);
        if e.is_file() {
            r.push(i);
            assert(r@.map_values(|x: usize| x as int) =~= file_positions(before).push(i as int));
        }
        i = i + 1;
    }
    assert(tree@.subrange(0, tree@.len() as int) =~= tree@);
    r
}

/// The positions in the enumeration in the order in which uninstall
/// handles them: last first. In a well-formed tree no entry is handled
/// before an entry that lies below it.
pub fn uninstall_order(tree: &ResourceTree) -> (r: Vec<usize>)
    ensures
        r@.map_values(|i: usize| i as int) == reversed_positions(tree@.len()),
        forall|k1: int, k2: int|
            0 <= k1 < k2 < r@.len() ==> !below(
                tree@[r@[k2] as int].path,
                tree@[r@[k1] as int].path,
            ),
{
    proof {
        use_type_invariant(tree);
        tree.lemma_inv();
    }
    let n = tree.len();
    let mut r: Vec<usize> = Vec::new();
    let mut k: usize = 0;
    while k < n
        invariant
            n == tree@.len(),
            k <= n,
            r@.len() == k,
            forall|j: int| 0 <= j < k ==> r@[j] == n - 1 - j,
        decreases n - k,
    {
        r.push(n - 1 - k);
        k = k + 1;
    }
    assert(r@.map_values(|i: usize| i as int) =~= reversed_positions(n as nat));
    assert forall|k1: int, k2: int| 0 <= k1 < k2 < r@.len() implies !below(
        tree@[r@[k2] as int].path,
        tree@[r@[k1] as int].path,
    ) by {
        let a = r@[k2] as int;
        let b = r@[k1] as int;
        assert(0 <= a < b < n);
        assert(!below(tree@[a].path, tree@[b].path));
    }
    r
}

/// What uninstall does with `entry`, given whether its path exists under
/// the target and, for a directory, whether the directory holds nothing.
pub fn removal(entry: &ResourceEntry, exists: bool, empty: bool) -> (r: Removal)
    ensures
        r == removal_for(entry@, exists, empty),
{
    if entry.is_file() {
        if exists {
            Removal::RemoveFile
        } else {
            Removal::Keep
        }
    } else if exists && empty {
        Removal::RemoveDir
    } else {
        Removal::Keep
    }
}

} // verus!
