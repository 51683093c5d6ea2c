//! A traversal may report the entries in any order. The order decides in
//! which order nodes appear among their siblings, and nothing else: which
//! paths the tree retains, and the size recorded at each, depend only on
//! which entries were found.

use vstd::prelude::*;
use crate::aggregate::attached;
use crate::aggregate::dir_node;
use crate::aggregate::files_in;
use crate::aggregate::holder_of;
use crate::aggregate::is_shown;
use crate::aggregate::leaf_of;
use crate::aggregate::nodes_for;
use crate::aggregate::retained_dirs;
use crate::aggregate::scan_tree;
use crate::entry::counted_bytes;
use crate::entry::file_bytes;
use crate::entry::is_sized_file;
use crate::entry::lemma_tally_ignores_order;
use crate::entry::tally;
use crate::entry::EntryView;
use crate::laws::lemma_totals_ignore_order;
use crate::location::is_child_of;
use crate::members::has_file_in;
use crate::members::lemma_attached_members;
use crate::members::lemma_files_are_leaves;
use crate::members::lemma_files_in_members;
use crate::members::lemma_retained_dirs_members;
use crate::location::PathView;
use crate::tree::lemma_total_size_push;
use crate::tree::total_size;
use crate::tree::NodeView;

verus! {

/// The tree under `node` holds a node with path `path` and size `size`.
pub open spec fn records(node: NodeView, path: PathView, size: nat) -> bool
    decreases node,
{
    ||| node.path == path && node.size == size
    ||| exists|i: int|
        0 <= i < node.children.len() && records(#[trigger] node.children[i], path, size)
}

/// `entries` holds a shown file with path `path` and length `size`.
pub open spec fn has_shown_file(
    root: PathView,
    entries: Seq<EntryView>,
    path: PathView,
    size: nat,
) -> bool {
    exists|i: int|
        0 <= i < entries.len() && is_shown(root, #[trigger] entries[i]) && entries[i].path == path
            && counted_bytes(entries[i]) == size
}

/// What a scan of `root` that found `entries` records at `path`, said
/// without the tree: the byte total at the root, the sum of its files'
/// lengths at each immediate subdirectory that holds a sized file, and its
/// length at each shown file.
pub open spec fn recorded_by_scan(
    root: PathView,
    entries: Seq<EntryView>,
    path: PathView,
    size: nat,
) -> bool {
    ||| path == root && size == file_bytes(entries)
    ||| has_shown_file(root, entries, path, size)
    ||| is_child_of(path, root) && has_file_in(root, entries, path) && size == total_size(
        files_in(root, entries, path),
    )
}

/// A scan records at a path what `recorded_by_scan` says, and nothing else.
pub proof fn lemma_scan_records(
    root: PathView,
    entries: Seq<EntryView>,
    path: PathView,
    size: nat,
)
    ensures
        records(scan_tree(root, entries), path, size) == recorded_by_scan(
            root,
            entries,
            path,
            size,
        ),
{
    if records(scan_tree(root, entries), path, size) {
        lemma_records_only_expected(root, entries, path, size);
    }
    if recorded_by_scan(root, entries, path, size) {
        lemma_records_all_expected(root, entries, path, size);
    }
}

proof fn lemma_records_only_expected(
    root: PathView,
    entries: Seq<EntryView>,
    path: PathView,
    size: nat,
)
    requires
        records(scan_tree(root, entries), path, size),
    ensures
        recorded_by_scan(root, entries, path, size),
{
    reveal_with_fuel(records, 3);
    let tree = scan_tree(root, entries);
    let dirs = retained_dirs(root, entries);
    if !(tree.path == path && tree.size == size) {
        let i = choose|i: int|
            0 <= i < tree.children.len() && records(#[trigger] tree.children[i], path, size);
        let child = tree.children[i];
        assert(attached(root, entries, dirs).contains(child));
        lemma_attached_members(root, entries, dirs, child);
        let j = choose|j: int|
            0 <= j < dirs.len() && nodes_for(root, entries, #[trigger] dirs[j]).contains(child);
        let d = dirs[j];
        let files = files_in(root, entries, d);
        assert(dirs.contains(d));
        lemma_retained_dirs_members(root, entries, d);
        lemma_files_are_leaves(root, entries, d);
        let file = if d == root {
            let k = choose|k: int| 0 <= k < files.len() && files[k] == child;
            assert(files[k].children.len() == 0);
            child
        } else {
            let added = nodes_for(root, entries, d);
            let k = choose|k: int| 0 <= k < added.len() && added[k] == child;
            assert(child == dir_node(d, files));
            if child.path == path && child.size == size {
                child
            } else {
                let k = choose|k: int|
                    0 <= k < child.children.len() && records(
                        #[trigger] child.children[k],
                        path,
                        size,
                    );
                assert(files[k].children.len() == 0);
                files[k]
            }
        };
        if !(d != root && file == child) {
            assert(files.contains(file));
            assert(file.path == path && file.size == size);
            lemma_files_in_members(root, entries, d, file);
            let i = choose|i: int|
                0 <= i < entries.len() && is_sized_file(#[trigger] entries[i]) && holder_of(
                    root,
                    entries[i],
                ) == d && leaf_of(entries[i]) == file;
            assert(is_shown(root, entries[i]));
            assert(has_shown_file(root, entries, path, size));
        }
    }
}

proof fn lemma_records_all_expected(
    root: PathView,
    entries: Seq<EntryView>,
    path: PathView,
    size: nat,
)
    requires
        recorded_by_scan(root, entries, path, size),
    ensures
        records(scan_tree(root, entries), path, size),
{
    reveal_with_fuel(records, 3);
    let tree = scan_tree(root, entries);
    let dirs = retained_dirs(root, entries);
    if !(path == root && size == file_bytes(entries)) {
        let (d, file_index) = if has_shown_file(root, entries, path, size) {
            let i = choose|i: int|
                0 <= i < entries.len() && is_shown(root, #[trigger] entries[i]) && entries[i].path
                    == path && counted_bytes(entries[i]) == size;
            (holder_of(root, entries[i]), i)
        } else {
            let i = choose|i: int|
                0 <= i < entries.len() && is_sized_file(#[trigger] entries[i]) && holder_of(
                    root,
                    entries[i],
                ) == path;
            (path, i)
        };
        let e = entries[file_index];
        let files = files_in(root, entries, d);
        assert(has_file_in(root, entries, d));
        lemma_retained_dirs_members(root, entries, d);
        assert(dirs.contains(d));
        let j = choose|j: int| 0 <= j < dirs.len() && dirs[j] == d;
        lemma_files_in_members(root, entries, d, leaf_of(e));
        assert(files.contains(leaf_of(e)));
        let k = choose|k: int| 0 <= k < files.len() && files[k] == leaf_of(e);
        let child = if d == root {
            leaf_of(e)
        } else {
            dir_node(d, files)
        };
        if d != root {
            assert(nodes_for(root, entries, d)[0] == child);
        }
        assert(nodes_for(root, entries, dirs[j]).contains(child));
        lemma_attached_members(root, entries, dirs, child);
        let i = choose|i: int| 0 <= i < tree.children.len() && tree.children[i] == child;
        if d == root {
            assert(has_shown_file(root, entries, path, size));
            assert(records(child, path, size));
        } else if has_shown_file(root, entries, path, size) {
            assert(records(child.children[k], path, size));
            assert(records(child, path, size));
        } else {
            assert(records(child, path, size));
        }
        assert(records(tree.children[i], path, size));
    }
}

/// The weight of a directory node is the tally of its files' lengths.
pub proof fn lemma_dir_bytes_is_tally(root: PathView, entries: Seq<EntryView>, dir: PathView)
    ensures
        total_size(files_in(root, entries, dir)) == tally(
            entries,
            |e: EntryView|
                if is_sized_file(e) && holder_of(root, e) == dir {
                    counted_bytes(e)
                } else {
                    0nat
                },
        ),
    decreases entries.len(),
{
    if entries.len() > 0 {
        lemma_dir_bytes_is_tally(root, entries.drop_last(), dir);
        lemma_total_size_push(files_in(root, entries.drop_last(), dir), leaf_of(entries.last()));
    }
}

/// An entry of one list is an entry of every list with the same entries.
pub proof fn lemma_same_entries_member(a: Seq<EntryView>, b: Seq<EntryView>, i: int) -> (k: int)
    requires
        a.to_multiset() == b.to_multiset(),
        0 <= i < a.len(),
    ensures
        0 <= k < b.len(),
        b[k] == a[i],
{
    assert(a.contains(a[i]));
    vstd::seq_lib::to_multiset_contains(a, a[i]);
    vstd::seq_lib::to_multiset_contains(b, a[i]);
    choose|k: int| 0 <= k < b.len() && b[k] == a[i]
}

proof fn lemma_recorded_carries_over(
    root: PathView,
    a: Seq<EntryView>,
    b: Seq<EntryView>,
    path: PathView,
    size: nat,
)
    requires
        a.to_multiset() == b.to_multiset(),
        recorded_by_scan(root, a, path, size),
    ensures
        recorded_by_scan(root, b, path, size),
{
    lemma_totals_ignore_order(root, a, b);
    if has_shown_file(root, a, path, size) {
        let i = choose|i: int|
            0 <= i < a.len() && is_shown(root, #[trigger] a[i]) && a[i].path == path
                && counted_bytes(a[i]) == size;
        let k = lemma_same_entries_member(a, b, i);
        assert(is_shown(root, b[k]));
    }
    if has_file_in(root, a, path) {
        let i = choose|i: int|
            0 <= i < a.len() && is_sized_file(#[trigger] a[i]) && holder_of(root, a[i]) == path;
        let k = lemma_same_entries_member(a, b, i);
        assert(is_sized_file(b[k]));
    }
    lemma_dir_bytes_is_tally(root, a, path);
    lemma_dir_bytes_is_tally(root, b, path);
    lemma_tally_ignores_order(
        a,
        b,
        |e: EntryView|
            if is_sized_file(e) && holder_of(root, e) == path {
                counted_bytes(e)
            } else {
                0nat
            },
    );
}

/// Two scans of one root that find the same entries, in whatever order,
/// give trees that record the same sizes at the same paths.
pub proof fn lemma_same_entries_same_sizes(root: PathView, a: Seq<EntryView>, b: Seq<EntryView>)
    requires
        a.to_multiset() == b.to_multiset(),
    ensures
        forall|path: PathView, size: nat|
            #![trigger records(scan_tree(root, a), path, size)]
            #![trigger records(scan_tree(root, b), path, size)]
            records(scan_tree(root, a), path, size) == records(scan_tree(root, b), path, size),
{
    assert forall|path: PathView, size: nat|
        #![trigger records(scan_tree(root, a), path, size)]
        #![trigger records(scan_tree(root, b), path, size)]
        records(scan_tree(root, a), path, size) == records(scan_tree(root, b), path, size) by {
        lemma_scan_records(root, a, path, size);
        lemma_scan_records(root, b, path, size);
        if recorded_by_scan(root, a, path, size) {
            lemma_recorded_carries_over(root, a, b, path, size);
        }
        if recorded_by_scan(root, b, path, size) {
            lemma_recorded_carries_over(root, b, a, path, size);
        }
    }
}

} // verus!
