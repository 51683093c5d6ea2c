//! Which nodes a tree holds, traced back to the entries that they come from.

use vstd::prelude::*;
use crate::aggregate::attached;
use crate::aggregate::dir_node;
use crate::aggregate::files_in;
use crate::aggregate::holder_of;
use crate::aggregate::is_retained_dir;
use crate::aggregate::leaf_of;
use crate::aggregate::nodes_for;
use crate::aggregate::retained_dirs;
use crate::entry::is_sized_file;
use crate::entry::EntryView;
use crate::location::PathView;
use crate::tree::NodeView;

verus! {

/// `entries` holds a sized file that is filed under `dir`.
pub open spec fn has_file_in(root: PathView, entries: Seq<EntryView>, dir: PathView) -> bool {
    exists|i: int|
        0 <= i < entries.len() && is_sized_file(#[trigger] entries[i]) && holder_of(
            root,
            entries[i],
        ) == dir
}

/// The retained directories are the root and its immediate subdirectories
/// that hold a sized file.
pub proof fn lemma_retained_dirs_members(root: PathView, entries: Seq<EntryView>, dir: PathView)
    ensures
        retained_dirs(root, entries).contains(dir) <==> is_retained_dir(root, dir) && has_file_in(
            root,
            entries,
            dir,
        ),
    decreases entries.len(),
{
    if entries.len() > 0 {
        let shorter = entries.drop_last();
        let e = entries.last();
        let h = holder_of(root, e);
        let before = retained_dirs(root, shorter);
        let dirs = retained_dirs(root, entries);
        lemma_retained_dirs_members(root, shorter, dir);
        if has_file_in(root, shorter, dir) {
            let i = choose|i: int|
                0 <= i < shorter.len() && is_sized_file(#[trigger] shorter[i]) && holder_of(
                    root,
                    shorter[i],
                ) == dir;
            assert(entries[i] == shorter[i]);
        }
        if has_file_in(root, entries, dir) {
            let i = choose|i: int|
                0 <= i < entries.len() && is_sized_file(#[trigger] entries[i]) && holder_of(
                    root,
                    entries[i],
                ) == dir;
            if i < shorter.len() {
                assert(shorter[i] == entries[i]);
                assert(has_file_in(root, shorter, dir));
            } else {
                assert(entries[i] == e);
            }
        }
        if is_sized_file(e) && h == dir {
            assert(entries[entries.len() - 1] == e);
            assert(has_file_in(root, entries, dir));
        }
        if dirs != before {
            assert(dirs == before.push(h));
            assert(dirs[before.len() as int] == h);
            if before.contains(dir) {
                let k = choose|k: int| 0 <= k < before.len() && before[k] == dir;
                assert(dirs[k] == dir);
            }
            if dirs.contains(dir) {
                let k = choose|k: int| 0 <= k < dirs.len() && dirs[k] == dir;
                if k < before.len() {
                    assert(before[k] == dir);
                }
            }
        }
    }
}

/// The file nodes of a directory are the nodes of the sized files that are
/// filed under it.
pub proof fn lemma_files_in_members(
    root: PathView,
    entries: Seq<EntryView>,
    dir: PathView,
    node: NodeView,
)
    ensures
        files_in(root, entries, dir).contains(node) <==> exists|i: int|
            0 <= i < entries.len() && is_sized_file(#[trigger] entries[i]) && holder_of(
                root,
                entries[i],
            ) == dir && leaf_of(entries[i]) == node,
    decreases entries.len(),
{
    let files = files_in(root, entries, dir);
    if entries.len() > 0 {
        let shorter = entries.drop_last();
        let e = entries.last();
        let rest = files_in(root, shorter, dir);
        let belongs = is_sized_file(e) && holder_of(root, e) == dir;
        lemma_files_in_members(root, shorter, dir, node);
        if files.contains(node) {
            let k = choose|k: int| 0 <= k < files.len() && files[k] == node;
            if k < rest.len() {
                assert(rest[k] == node);
                assert(rest.contains(node));
                let i = choose|i: int|
                    0 <= i < shorter.len() && is_sized_file(#[trigger] shorter[i]) && holder_of(
                        root,
                        shorter[i],
                    ) == dir && leaf_of(shorter[i]) == node;
                assert(entries[i] == shorter[i]);
            } else {
                assert(belongs && leaf_of(e) == node);
                assert(entries[entries.len() - 1] == e);
            }
        }
        if exists|i: int|
            0 <= i < entries.len() && is_sized_file(#[trigger] entries[i]) && holder_of(
                root,
                entries[i],
            ) == dir && leaf_of(entries[i]) == node {
            let i = choose|i: int|
                0 <= i < entries.len() && is_sized_file(#[trigger] entries[i]) && holder_of(
                    root,
                    entries[i],
                ) == dir && leaf_of(entries[i]) == node;
            if i < shorter.len() {
                assert(shorter[i] == entries[i]);
                assert(rest.contains(node));
                let k = choose|k: int| 0 <= k < rest.len() && rest[k] == node;
                assert(files[k] == node);
            } else {
                assert(entries[i] == e);
                assert(files == rest.push(node));
                assert(files[rest.len() as int] == node);
            }
        }
    } else {
        if files.contains(node) {
            let k = choose|k: int| 0 <= k < files.len() && files[k] == node;
        }
    }
}

/// The root's children are what its retained directories add.
pub proof fn lemma_attached_members(
    root: PathView,
    entries: Seq<EntryView>,
    dirs: Seq<PathView>,
    node: NodeView,
)
    ensures
        attached(root, entries, dirs).contains(node) <==> exists|j: int|
            0 <= j < dirs.len() && nodes_for(root, entries, #[trigger] dirs[j]).contains(node),
    decreases dirs.len(),
{
    let all = attached(root, entries, dirs);
    if dirs.len() > 0 {
        let ds = dirs.drop_last();
        let d = dirs.last();
        let front = attached(root, entries, ds);
        let back = nodes_for(root, entries, d);
        lemma_attached_members(root, entries, ds, node);
        if all.contains(node) {
            let k = choose|k: int| 0 <= k < all.len() && all[k] == node;
            if k < front.len() {
                assert(front[k] == node);
                assert(front.contains(node));
                let j = choose|j: int|
                    0 <= j < ds.len() && nodes_for(root, entries, #[trigger] ds[j]).contains(node);
                assert(dirs[j] == ds[j]);
            } else {
                assert(back[k - front.len()] == node);
                assert(back.contains(node));
                assert(dirs[dirs.len() - 1] == d);
            }
        }
        if exists|j: int|
            0 <= j < dirs.len() && nodes_for(root, entries, #[trigger] dirs[j]).contains(node) {
            let j = choose|j: int|
                0 <= j < dirs.len() && nodes_for(root, entries, #[trigger] dirs[j]).contains(node);
            if j < ds.len() {
                assert(ds[j] == dirs[j]);
                assert(front.contains(node));
                let k = choose|k: int| 0 <= k < front.len() && front[k] == node;
                assert(all[k] == node);
            } else {
                assert(dirs[j] == d);
                let k = choose|k: int| 0 <= k < back.len() && back[k] == node;
                assert(all[front.len() + k] == node);
            }
        }
    } else {
        if all.contains(node) {
            let k = choose|k: int| 0 <= k < all.len() && all[k] == node;
        }
    }
}

/// Every file node is a leaf.
pub proof fn lemma_files_are_leaves(root: PathView, entries: Seq<EntryView>, dir: PathView)
    ensures
        forall|k: int|
            0 <= k < files_in(root, entries, dir).len() ==> (#[trigger] files_in(
                root,
                entries,
                dir,
            )[k]).children.len() == 0,
    decreases entries.len(),
{
    if entries.len() > 0 {
        lemma_files_are_leaves(root, entries.drop_last(), dir);
        let rest = files_in(root, entries.drop_last(), dir);
        let files = files_in(root, entries, dir);
        assert forall|k: int| 0 <= k < files.len() implies (#[trigger] files[k]).children.len()
            == 0 by {
            if k < rest.len() {
                assert(files[k] == rest[k]);
            } else {
                assert(files[k] == leaf_of(entries.last()));
            }
        }
    }
}

/// The file nodes of a directory stand in the order of their entries.
pub proof fn lemma_files_in_order(
    root: PathView,
    entries: Seq<EntryView>,
    dir: PathView,
    k1: int,
    k2: int,
) -> (found: (int, int))
    requires
        0 <= k1 < k2 < files_in(root, entries, dir).len(),
    ensures
        0 <= found.0 < found.1 < entries.len(),
        is_sized_file(entries[found.0]),
        is_sized_file(entries[found.1]),
        files_in(root, entries, dir)[k1] == leaf_of(entries[found.0]),
        files_in(root, entries, dir)[k2] == leaf_of(entries[found.1]),
    decreases entries.len(),
{
    let shorter = entries.drop_last();
    let rest = files_in(root, shorter, dir);
    let files = files_in(root, entries, dir);
    if k2 < rest.len() {
        assert(files[k1] == rest[k1] && files[k2] == rest[k2]);
        let found = lemma_files_in_order(root, shorter, dir, k1, k2);
        assert(entries[found.0] == shorter[found.0]);
        assert(entries[found.1] == shorter[found.1]);
        found
    } else {
        assert(files == rest.push(leaf_of(entries.last())));
        assert(files[k1] == rest[k1]);
        assert(rest.contains(rest[k1]));
        lemma_files_in_members(root, shorter, dir, rest[k1]);
        let i = choose|i: int|
            0 <= i < shorter.len() && is_sized_file(#[trigger] shorter[i]) && holder_of(
                root,
                shorter[i],
            ) == dir && leaf_of(shorter[i]) == rest[k1];
        assert(entries[i] == shorter[i]);
        (i, entries.len() - 1)
    }
}

/// A node that a retained directory adds carries either the path of a sized
/// file filed under the root, or the path of that directory, which holds a
/// sized file.
pub proof fn lemma_added_path(
    root: PathView,
    entries: Seq<EntryView>,
    dir: PathView,
    node: NodeView,
)
    requires
        retained_dirs(root, entries).contains(dir),
        nodes_for(root, entries, dir).contains(node),
    ensures
        dir == root ==> exists|i: int|
            0 <= i < entries.len() && is_sized_file(#[trigger] entries[i]) && entries[i].path
                == node.path,
        dir != root ==> node.path == dir && exists|i: int|
            0 <= i < entries.len() && is_sized_file(#[trigger] entries[i]) && holder_of(
                root,
                entries[i],
            ) == dir,
{
    lemma_retained_dirs_members(root, entries, dir);
    if dir == root {
        lemma_files_in_members(root, entries, dir, node);
        let i = choose|i: int|
            0 <= i < entries.len() && is_sized_file(#[trigger] entries[i]) && holder_of(
                root,
                entries[i],
            ) == dir && leaf_of(entries[i]) == node;
        assert(entries[i].path == node.path);
    } else {
        let added = nodes_for(root, entries, dir);
        let n = choose|n: int| 0 <= n < added.len() && added[n] == node;
        assert(node == dir_node(dir, files_in(root, entries, dir)));
    }
}

} // verus!
