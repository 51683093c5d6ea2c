//! What holds of every scan, stated over the models of entries and trees.

use vstd::prelude::*;
use crate::aggregate::attached;
use crate::aggregate::dir_node;
use crate::aggregate::files_in;
use crate::aggregate::holder_of;
use crate::aggregate::is_retained_dir;
use crate::aggregate::is_shown;
use crate::aggregate::leaf_of;
use crate::aggregate::lemma_retained_dirs;
use crate::aggregate::nodes_for;
use crate::aggregate::retained_dirs;
use crate::aggregate::scan_tree;
use crate::entry::counted_bytes;
use crate::entry::dir_count;
use crate::entry::file_bytes;
use crate::entry::is_sized_file;
use crate::entry::lemma_dir_count_is_tally;
use crate::entry::lemma_file_bytes_is_tally;
use crate::entry::lemma_tally_ignores_order;
use crate::entry::EntryKind;
use crate::entry::EntryView;
use crate::location::name_of;
use crate::location::PathView;
use crate::message::final_progress;
use crate::members::lemma_added_path;
use crate::members::lemma_attached_members;
use crate::members::lemma_files_are_leaves;
use crate::members::lemma_files_in_members;
use crate::members::lemma_files_in_order;
use crate::tree::all_balanced;
use crate::tree::all_named_by_path;
use crate::tree::paths_distinct;
use crate::tree::lemma_total_size_concat;
use crate::tree::lemma_total_size_push;
use crate::tree::total_size;
use crate::tree::NodeView;

verus! {

/// The totals of a scan do not depend on the order in which the traversal
/// found the entries: two entry lists with the same entries give the same
/// directory count, the same byte count, and so the same root size and the
/// same progress message.
pub proof fn lemma_totals_ignore_order(root: PathView, a: Seq<EntryView>, b: Seq<EntryView>)
    requires
        a.to_multiset() == b.to_multiset(),
    ensures
        dir_count(a) == dir_count(b),
        file_bytes(a) == file_bytes(b),
        final_progress(a) == final_progress(b),
        scan_tree(root, a).size == scan_tree(root, b).size,
{
    lemma_file_bytes_is_tally(a);
    lemma_file_bytes_is_tally(b);
    lemma_tally_ignores_order(a, b, |e: EntryView| counted_bytes(e));
    lemma_dir_count_is_tally(a);
    lemma_dir_count_is_tally(b);
    lemma_tally_ignores_order(
        a,
        b,
        |e: EntryView|
            if e.kind == EntryKind::Directory {
                1nat
            } else {
                0nat
            },
    );
}

/// The root's size is the sum of the lengths of all sized files found, at
/// whatever depth they lie.
pub proof fn lemma_root_size_is_total(root: PathView, entries: Seq<EntryView>)
    ensures
        scan_tree(root, entries).size == file_bytes(entries),
        final_progress(entries).is_complete(),
{
}

/// A scan that finds no sized file, such as a scan of an empty directory or
/// of a path that does not exist, gives a tree of size 0 without children.
pub proof fn lemma_no_files_empty_tree(root: PathView, entries: Seq<EntryView>)
    requires
        forall|i: int| 0 <= i < entries.len() ==> !is_sized_file(#[trigger] entries[i]),
    ensures
        scan_tree(root, entries) == (NodeView {
            name: name_of(root),
            path: root,
            size: 0,
            children: Seq::empty(),
        }),
        retained_dirs(root, entries) == Seq::<PathView>::empty(),
        file_bytes(entries) == 0,
    decreases entries.len(),
{
    if entries.len() > 0 {
        assert(!is_sized_file(entries.last()));
        assert forall|i: int| 0 <= i < entries.drop_last().len() implies !is_sized_file(
            #[trigger] entries.drop_last()[i],
        ) by {
            assert(entries.drop_last()[i] == entries[i]);
        }
        lemma_no_files_empty_tree(root, entries.drop_last());
    }
}

/// The children that `dirs` add depend only on the files found in `dirs`.
pub proof fn lemma_attached_same_files(
    root: PathView,
    a: Seq<EntryView>,
    b: Seq<EntryView>,
    dirs: Seq<PathView>,
)
    requires
        forall|j: int|
            0 <= j < dirs.len() ==> files_in(root, a, #[trigger] dirs[j]) == files_in(
                root,
                b,
                dirs[j],
            ),
    ensures
        attached(root, a, dirs) == attached(root, b, dirs),
    decreases dirs.len(),
{
    if dirs.len() > 0 {
        assert(files_in(root, a, dirs[dirs.len() - 1]) == files_in(root, b, dirs[dirs.len() - 1]));
        assert forall|j: int| 0 <= j < dirs.drop_last().len() implies files_in(
            root,
            a,
            #[trigger] dirs.drop_last()[j],
        ) == files_in(root, b, dirs.drop_last()[j]) by {
            assert(dirs.drop_last()[j] == dirs[j]);
        }
        lemma_attached_same_files(root, a, b, dirs.drop_last());
    }
}

/// An entry that is not shown, put anywhere into the entry list, changes
/// neither the retained directories nor the files of any retained directory.
pub proof fn lemma_insert_not_shown(root: PathView, entries: Seq<EntryView>, i: int, e: EntryView)
    requires
        0 <= i <= entries.len(),
        !is_shown(root, e),
    ensures
        retained_dirs(root, entries.insert(i, e)) == retained_dirs(root, entries),
        forall|dir: PathView|
            is_retained_dir(root, dir) ==> #[trigger] files_in(root, entries.insert(i, e), dir)
                == files_in(root, entries, dir),
        file_bytes(entries.insert(i, e)) == file_bytes(entries) + counted_bytes(e),
        attached(root, entries.insert(i, e), retained_dirs(root, entries.insert(i, e)))
            == attached(root, entries, retained_dirs(root, entries)),
    decreases entries.len() - i,
{
    let longer = entries.insert(i, e);
    if i == entries.len() {
        assert(longer.drop_last() =~= entries);
        assert(longer.last() == e);
        assert forall|dir: PathView| is_retained_dir(root, dir) implies #[trigger] files_in(
            root,
            longer,
            dir,
        ) == files_in(root, entries, dir) by {
            assert(!(is_sized_file(e) && holder_of(root, e) == dir));
        }
    } else {
        let shorter = entries.drop_last();
        lemma_insert_not_shown(root, shorter, i, e);
        assert(longer.drop_last() =~= shorter.insert(i, e));
        assert(longer.last() == entries.last());
        assert forall|dir: PathView| is_retained_dir(root, dir) implies #[trigger] files_in(
            root,
            longer,
            dir,
        ) == files_in(root, entries, dir) by {
            assert(files_in(root, shorter.insert(i, e), dir) == files_in(root, shorter, dir));
        }
    }
    lemma_retained_dirs(root, entries);
    let dirs = retained_dirs(root, entries);
    assert forall|j: int| 0 <= j < dirs.len() implies files_in(root, longer, #[trigger] dirs[j])
        == files_in(root, entries, dirs[j]) by {
        assert(is_retained_dir(root, dirs[j]));
    }
    lemma_attached_same_files(root, longer, entries, dirs);
}

/// Truncation leaves the totals whole: a sized file that lies two or more
/// directory levels below the root adds its length to the root's size and to
/// the byte total, and adds no node to the tree.
pub proof fn lemma_deep_file_counts_unseen(
    root: PathView,
    entries: Seq<EntryView>,
    i: int,
    e: EntryView,
)
    requires
        0 <= i <= entries.len(),
        is_sized_file(e),
        !is_retained_dir(root, holder_of(root, e)),
    ensures
        scan_tree(root, entries.insert(i, e)).size == scan_tree(root, entries).size
            + e.len.unwrap(),
        file_bytes(entries.insert(i, e)) == file_bytes(entries) + e.len.unwrap(),
        scan_tree(root, entries.insert(i, e)).children == scan_tree(root, entries).children,
{
    lemma_insert_not_shown(root, entries, i, e);
}

/// An entry whose length could not be read, or that is no regular file,
/// changes neither the tree nor the byte total.
pub proof fn lemma_unsized_entry_ignored(
    root: PathView,
    entries: Seq<EntryView>,
    i: int,
    e: EntryView,
)
    requires
        0 <= i <= entries.len(),
        !is_sized_file(e),
    ensures
        scan_tree(root, entries.insert(i, e)) == scan_tree(root, entries),
        file_bytes(entries.insert(i, e)) == file_bytes(entries),
{
    lemma_insert_not_shown(root, entries, i, e);
}

/// The bytes of the sized files among `entries` that are shown.
pub open spec fn shown_bytes(root: PathView, entries: Seq<EntryView>) -> nat
    decreases entries.len(),
{
    if entries.len() == 0 {
        0
    } else {
        shown_bytes(root, entries.drop_last()) + if is_shown(root, entries.last()) {
            counted_bytes(entries.last())
        } else {
            0
        }
    }
}

/// The bytes of the sized files among `entries` that are not shown: those
/// that lie two or more directory levels below the root.
pub open spec fn hidden_bytes(root: PathView, entries: Seq<EntryView>) -> nat
    decreases entries.len(),
{
    if entries.len() == 0 {
        0
    } else {
        hidden_bytes(root, entries.drop_last()) + if is_shown(root, entries.last()) {
            0
        } else {
            counted_bytes(entries.last())
        }
    }
}

/// Every counted byte is either shown or hidden.
pub proof fn lemma_bytes_split(root: PathView, entries: Seq<EntryView>)
    ensures
        file_bytes(entries) == shown_bytes(root, entries) + hidden_bytes(root, entries),
    decreases entries.len(),
{
    if entries.len() > 0 {
        lemma_bytes_split(root, entries.drop_last());
    }
}

/// What a directory adds to the root's children weighs as much as its files.
pub proof fn lemma_nodes_for_total(root: PathView, entries: Seq<EntryView>, dir: PathView)
    ensures
        total_size(nodes_for(root, entries, dir)) == total_size(files_in(root, entries, dir)),
{
    if dir != root {
        let node = dir_node(dir, files_in(root, entries, dir));
        assert(seq![node].drop_last() =~= Seq::<NodeView>::empty());
        assert(total_size(seq![node].drop_last()) == 0);
    }
}

/// One more entry adds its length to the children's total if it is a
/// sized file whose directory is among `dirs`, and nothing otherwise.
pub proof fn lemma_attached_total_step(root: PathView, entries: Seq<EntryView>, dirs: Seq<PathView>)
    requires
        entries.len() > 0,
        dirs.no_duplicates(),
    ensures
        total_size(attached(root, entries, dirs)) == total_size(
            attached(root, entries.drop_last(), dirs),
        ) + if is_sized_file(entries.last()) && dirs.contains(holder_of(root, entries.last())) {
            counted_bytes(entries.last())
        } else {
            0
        },
    decreases dirs.len(),
{
    let e = entries.last();
    let h = holder_of(root, e);
    let shorter = entries.drop_last();
    if dirs.len() > 0 {
        let ds = dirs.drop_last();
        let d = dirs.last();
        lemma_attached_total_step(root, entries, ds);
        lemma_total_size_concat(attached(root, entries, ds), nodes_for(root, entries, d));
        lemma_total_size_concat(attached(root, shorter, ds), nodes_for(root, shorter, d));
        lemma_nodes_for_total(root, entries, d);
        lemma_nodes_for_total(root, shorter, d);
        lemma_total_size_push(files_in(root, shorter, d), leaf_of(e));
        if ds.contains(h) {
            let k = choose|k: int| 0 <= k < ds.len() && ds[k] == h;
            assert(dirs[k] == h);
            assert(d != h);
        }
        if dirs.contains(h) {
            let k = choose|k: int| 0 <= k < dirs.len() && dirs[k] == h;
            if k < ds.len() {
                assert(ds[k] == h);
            }
            assert(ds.contains(h) || d == h);
        } else {
            if ds.contains(h) {
                let k = choose|k: int| 0 <= k < ds.len() && ds[k] == h;
                assert(dirs[k] == h);
            }
            assert(dirs[dirs.len() - 1] == d);
            assert(d != h);
        }
    }
}

/// The root's children together weigh as much as the shown files.
pub proof fn lemma_children_total(root: PathView, entries: Seq<EntryView>)
    ensures
        total_size(scan_tree(root, entries).children) == shown_bytes(root, entries),
    decreases entries.len(),
{
    if entries.len() > 0 {
        let e = entries.last();
        let h = holder_of(root, e);
        let shorter = entries.drop_last();
        let before = retained_dirs(root, shorter);
        let dirs = retained_dirs(root, entries);
        lemma_children_total(root, shorter);
        lemma_retained_dirs(root, shorter);
        lemma_attached_total_step(root, entries, before);
        if is_shown(root, e) && !before.contains(h) {
            assert(dirs == before.push(h));
            assert(dirs.drop_last() =~= before);
            lemma_total_size_concat(attached(root, entries, before), nodes_for(root, entries, h));
            lemma_nodes_for_total(root, entries, h);
            lemma_total_size_push(files_in(root, shorter, h), leaf_of(e));
        } else {
            assert(dirs == before);
            if !is_shown(root, e) && is_sized_file(e) {
                if before.contains(h) {
                    let k = choose|k: int| 0 <= k < before.len() && before[k] == h;
                    assert(is_retained_dir(root, before[k]));
                }
            }
        }
    }
}

/// The root's size is the total of its children plus the bytes that
/// truncation hides. The root is therefore balanced exactly when no byte is
/// hidden or it has no children.
pub proof fn lemma_root_size_splits(root: PathView, entries: Seq<EntryView>)
    ensures
        scan_tree(root, entries).size == total_size(scan_tree(root, entries).children)
            + hidden_bytes(root, entries),
        total_size(scan_tree(root, entries).children) <= scan_tree(root, entries).size,
{
    lemma_bytes_split(root, entries);
    lemma_children_total(root, entries);
}

/// Every node below the root is balanced: a directory node's size is the sum
/// of its children's sizes, and a file node has no children.
pub proof fn lemma_subtrees_balanced(root: PathView, entries: Seq<EntryView>)
    ensures
        forall|i: int|
            0 <= i < scan_tree(root, entries).children.len() ==> all_balanced(
                #[trigger] scan_tree(root, entries).children[i],
            ),
{
    lemma_attached_balanced(root, entries, retained_dirs(root, entries));
}

/// Every child that `dirs` add is balanced, with all below it.
pub proof fn lemma_attached_balanced(root: PathView, entries: Seq<EntryView>, dirs: Seq<PathView>)
    ensures
        forall|i: int|
            0 <= i < attached(root, entries, dirs).len() ==> all_balanced(
                #[trigger] attached(root, entries, dirs)[i],
            ),
    decreases dirs.len(),
{
    if dirs.len() > 0 {
        let d = dirs.last();
        let front = attached(root, entries, dirs.drop_last());
        let back = nodes_for(root, entries, d);
        let files = files_in(root, entries, d);
        lemma_attached_balanced(root, entries, dirs.drop_last());
        lemma_files_are_leaves(root, entries, d);
        assert forall|k: int| 0 <= k < files.len() implies all_balanced(#[trigger] files[k]) by {
            assert(files[k].children.len() == 0);
        }
        assert forall|i: int| 0 <= i < (front + back).len() implies all_balanced(
            #[trigger] (front + back)[i],
        ) by {
            if i < front.len() {
                assert((front + back)[i] == front[i]);
            } else {
                assert((front + back)[i] == back[i - front.len()]);
                if d != root {
                    assert(back[i - front.len()] == dir_node(d, files));
                }
            }
        }
    }
}

/// Every node of the tree is named by the final component of its path.
pub proof fn lemma_names_follow_paths(root: PathView, entries: Seq<EntryView>)
    ensures
        all_named_by_path(scan_tree(root, entries)),
{
    lemma_attached_named(root, entries, retained_dirs(root, entries));
}

/// Every child that `dirs` add is named by its path, with all below it.
pub proof fn lemma_attached_named(root: PathView, entries: Seq<EntryView>, dirs: Seq<PathView>)
    ensures
        forall|i: int|
            0 <= i < attached(root, entries, dirs).len() ==> all_named_by_path(
                #[trigger] attached(root, entries, dirs)[i],
            ),
    decreases dirs.len(),
{
    if dirs.len() > 0 {
        let d = dirs.last();
        let front = attached(root, entries, dirs.drop_last());
        let back = nodes_for(root, entries, d);
        let files = files_in(root, entries, d);
        lemma_attached_named(root, entries, dirs.drop_last());
        lemma_files_are_leaves(root, entries, d);
        assert forall|k: int| 0 <= k < files.len() implies all_named_by_path(
            #[trigger] files[k],
        ) by {
            assert(files.contains(files[k]));
            lemma_files_in_members(root, entries, d, files[k]);
            assert(files[k].children.len() == 0);
        }
        assert forall|i: int| 0 <= i < (front + back).len() implies all_named_by_path(
            #[trigger] (front + back)[i],
        ) by {
            if i < front.len() {
                assert((front + back)[i] == front[i]);
            } else {
                assert((front + back)[i] == back[i - front.len()]);
                if d != root {
                    assert(back[i - front.len()] == dir_node(d, files));
                }
            }
        }
    }
}

/// The tree is at most two levels deep below the root: the children of the
/// root's children are files and have no children.
pub proof fn lemma_tree_is_shallow(root: PathView, entries: Seq<EntryView>)
    ensures
        forall|i: int, k: int|
            #![trigger scan_tree(root, entries).children[i].children[k]]
            0 <= i < scan_tree(root, entries).children.len() && 0 <= k < scan_tree(
                root,
                entries,
            ).children[i].children.len() ==> scan_tree(
                root,
                entries,
            ).children[i].children[k].children.len() == 0,
{
    let tree = scan_tree(root, entries);
    let dirs = retained_dirs(root, entries);
    assert forall|i: int, k: int|
        #![trigger tree.children[i].children[k]]
        0 <= i < tree.children.len() && 0 <= k < tree.children[i].children.len()
            implies tree.children[i].children[k].children.len() == 0 by {
        let child = tree.children[i];
        assert(attached(root, entries, dirs).contains(child));
        lemma_attached_members(root, entries, dirs, child);
        let j = choose|j: int|
            0 <= j < dirs.len() && nodes_for(root, entries, #[trigger] dirs[j]).contains(child);
        let added = nodes_for(root, entries, dirs[j]);
        let n = choose|n: int| 0 <= n < added.len() && added[n] == child;
        lemma_files_are_leaves(root, entries, dirs[j]);
    }
}

/// The entries are as a filesystem reports them: no two sized files share
/// a path, and no sized file is at the same time a directory that holds a
/// sized file.
pub open spec fn paths_consistent(root: PathView, entries: Seq<EntryView>) -> bool {
    &&& forall|i: int, j: int|
        0 <= i < j < entries.len() && is_sized_file(#[trigger] entries[i]) && is_sized_file(
            #[trigger] entries[j],
        ) ==> entries[i].path != entries[j].path
    &&& forall|i: int, j: int|
        0 <= i < entries.len() && 0 <= j < entries.len() && is_sized_file(#[trigger] entries[i])
            && is_sized_file(#[trigger] entries[j]) ==> entries[i].path != holder_of(
            root,
            entries[j],
        )
}

/// Among consistent entries the files of one directory have distinct paths.
pub proof fn lemma_files_in_distinct(root: PathView, entries: Seq<EntryView>, dir: PathView)
    requires
        paths_consistent(root, entries),
    ensures
        paths_distinct(files_in(root, entries, dir)),
{
    let files = files_in(root, entries, dir);
    assert forall|a: int, b: int| 0 <= a < files.len() && 0 <= b < files.len() && a != b implies (
    #[trigger] files[a]).path != (#[trigger] files[b]).path by {
        if a < b {
            let found = lemma_files_in_order(root, entries, dir, a, b);
            assert(entries[found.0].path != entries[found.1].path);
        } else {
            let found = lemma_files_in_order(root, entries, dir, b, a);
            assert(entries[found.0].path != entries[found.1].path);
        }
    }
}

/// Among consistent entries the nodes that the first `n` retained
/// directories add have distinct paths.
proof fn lemma_attached_distinct(root: PathView, entries: Seq<EntryView>, n: int)
    requires
        paths_consistent(root, entries),
        0 <= n <= retained_dirs(root, entries).len(),
    ensures
        paths_distinct(attached(root, entries, retained_dirs(root, entries).take(n))),
    decreases n,
{
    let all_dirs = retained_dirs(root, entries);
    let dirs = all_dirs.take(n);
    if n > 0 {
        let ds = dirs.drop_last();
        assert(ds =~= all_dirs.take(n - 1));
        let d = dirs.last();
        assert(d == all_dirs[n - 1]);
        let front = attached(root, entries, ds);
        let back = nodes_for(root, entries, d);
        let all = front + back;
        lemma_attached_distinct(root, entries, n - 1);
        lemma_files_in_distinct(root, entries, d);
        lemma_retained_dirs(root, entries);
        assert forall|a: int, b: int| 0 <= a < all.len() && 0 <= b < all.len() && a != b implies (
        #[trigger] all[a]).path != (#[trigger] all[b]).path by {
            if a < front.len() && b < front.len() {
                assert(all[a] == front[a] && all[b] == front[b]);
            } else if a >= front.len() && b >= front.len() {
                assert(all[a] == back[a - front.len()] && all[b] == back[b - front.len()]);
            } else {
                let (x, y) = if a < front.len() {
                    (a, b)
                } else {
                    (b, a)
                };
                assert(all[x] == front[x] && all[y] == back[y - front.len()]);
                assert(front.contains(all[x]));
                assert(back.contains(all[y]));
                lemma_attached_members(root, entries, ds, all[x]);
                let j = choose|j: int|
                    0 <= j < ds.len() && nodes_for(root, entries, #[trigger] ds[j]).contains(
                        all[x],
                    );
                assert(ds[j] == all_dirs[j]);
                assert(all_dirs[j] != all_dirs[n - 1]);
                assert(all_dirs.contains(ds[j]));
                assert(all_dirs.contains(d));
                lemma_added_path(root, entries, ds[j], all[x]);
                lemma_added_path(root, entries, d, all[y]);
            }
        }
    }
}

/// Among consistent entries no two siblings of the tree share a path.
pub proof fn lemma_sibling_paths_distinct(root: PathView, entries: Seq<EntryView>)
    requires
        paths_consistent(root, entries),
    ensures
        paths_distinct(scan_tree(root, entries).children),
        forall|i: int|
            0 <= i < scan_tree(root, entries).children.len() ==> paths_distinct(
                (#[trigger] scan_tree(root, entries).children[i]).children,
            ),
{
    let tree = scan_tree(root, entries);
    let dirs = retained_dirs(root, entries);
    lemma_attached_distinct(root, entries, dirs.len() as int);
    assert(dirs.take(dirs.len() as int) =~= dirs);
    assert forall|i: int| 0 <= i < tree.children.len() implies paths_distinct(
        (#[trigger] tree.children[i]).children,
    ) by {
        let child = tree.children[i];
        assert(attached(root, entries, dirs).contains(child));
        lemma_attached_members(root, entries, dirs, child);
        let j = choose|j: int|
            0 <= j < dirs.len() && nodes_for(root, entries, #[trigger] dirs[j]).contains(child);
        let added = nodes_for(root, entries, dirs[j]);
        let n = choose|n: int| 0 <= n < added.len() && added[n] == child;
        lemma_files_are_leaves(root, entries, dirs[j]);
        lemma_files_in_distinct(root, entries, dirs[j]);
    }
}

/// Every node of the tree is balanced, the root included, exactly when the
/// root has no children or truncation hides no byte. The nodes below the
/// root are balanced in any case.
pub proof fn lemma_balanced_unless_hidden(root: PathView, entries: Seq<EntryView>)
    ensures
        all_balanced(scan_tree(root, entries)) <==> scan_tree(root, entries).children.len() == 0
            || hidden_bytes(root, entries) == 0,
{
    lemma_subtrees_balanced(root, entries);
    lemma_root_size_splits(root, entries);
}

/// Where no sized file lies deeper than one directory level below the root,
/// every node of the tree, the root included, is balanced.
pub proof fn lemma_shallow_tree_balanced(root: PathView, entries: Seq<EntryView>)
    requires
        forall|i: int|
            0 <= i < entries.len() && is_sized_file(#[trigger] entries[i]) ==> is_shown(
                root,
                entries[i],
            ),
    ensures
        all_balanced(scan_tree(root, entries)),
{
    lemma_balanced_unless_hidden(root, entries);
    lemma_nothing_hidden(root, entries);
}

/// Where every sized file is shown, no byte is hidden.
pub proof fn lemma_nothing_hidden(root: PathView, entries: Seq<EntryView>)
    requires
        forall|i: int|
            0 <= i < entries.len() && is_sized_file(#[trigger] entries[i]) ==> is_shown(
                root,
                entries[i],
            ),
    ensures
        hidden_bytes(root, entries) == 0,
    decreases entries.len(),
{
    if entries.len() > 0 {
        assert forall|i: int|
            0 <= i < entries.drop_last().len() && is_sized_file(
                #[trigger] entries.drop_last()[i],
            ) implies is_shown(root, entries.drop_last()[i]) by {
            assert(entries.drop_last()[i] == entries[i]);
        }
        lemma_nothing_hidden(root, entries.drop_last());
        assert(entries.last() == entries[entries.len() - 1]);
    }
}

} // verus!
