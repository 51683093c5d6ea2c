//! Folding the flat entry list into the tree.
//!
//! Every sized file is filed under the directory that holds it. The root's
//! own files become children of the root. Each immediate subdirectory of the
//! root that holds a sized file becomes a directory node with those files as
//! its children. Files that lie deeper are left out of the tree; their bytes
//! still count in the root's size.

use vstd::prelude::*;
use crate::entry::counted_bytes;
use crate::entry::entry_views;
use crate::entry::file_bytes;
use crate::entry::is_sized_file;
use crate::entry::sum_file_bytes;
use crate::entry::Entry;
use crate::entry::EntryView;
use crate::location::is_child_of;
use crate::location::lemma_parent_within_one_level;
use crate::location::name_of;
use crate::location::parent_or;
use crate::location::PathView;
use crate::location::ScanPath;
use crate::tree::lemma_total_size_push;
use crate::tree::sum_sizes;
use crate::tree::total_size;
use crate::tree::views_of;
use crate::tree::DirNode;
use crate::tree::NodeView;

verus! {

/// The directory that the file `e` is filed under: its parent, or the root
/// where it has none.
pub open spec fn holder_of(root: PathView, e: EntryView) -> PathView {
    parent_or(e.path, root)
}

/// `dir` is a directory whose files appear in the tree: the root itself or
/// one of its immediate subdirectories.
pub open spec fn is_retained_dir(root: PathView, dir: PathView) -> bool {
    dir == root || is_child_of(dir, root)
}

/// `e` is a sized file that lies in the root or in one of its immediate
/// subdirectories, so that it gets a node of its own.
pub open spec fn is_shown(root: PathView, e: EntryView) -> bool {
    is_sized_file(e) && is_retained_dir(root, holder_of(root, e))
}

/// The node that stands for the file `e`.
pub open spec fn leaf_of(e: EntryView) -> NodeView {
    NodeView {
        name: name_of(e.path),
        path: e.path,
        size: counted_bytes(e),
        children: Seq::empty(),
    }
}

/// The nodes of the sized files among `entries` that are filed under `dir`,
/// in the order of `entries`.
pub open spec fn files_in(root: PathView, entries: Seq<EntryView>, dir: PathView) -> Seq<NodeView>
    decreases entries.len(),
{
    if entries.len() == 0 {
        Seq::empty()
    } else {
        let rest = files_in(root, entries.drop_last(), dir);
        let e = entries.last();
        if is_sized_file(e) && holder_of(root, e) == dir {
            rest.push(leaf_of(e))
        } else {
            rest
        }
    }
}

/// The retained directories that hold a sized file of `entries`, each once,
/// in the order in which `entries` first names them.
pub open spec fn retained_dirs(root: PathView, entries: Seq<EntryView>) -> Seq<PathView>
    decreases entries.len(),
{
    if entries.len() == 0 {
        Seq::empty()
    } else {
        let rest = retained_dirs(root, entries.drop_last());
        let e = entries.last();
        if is_sized_file(e) && is_retained_dir(root, holder_of(root, e)) && !rest.contains(
            holder_of(root, e),
        ) {
            rest.push(holder_of(root, e))
        } else {
            rest
        }
    }
}

/// The directory node for `dir` with the file nodes `files`.
pub open spec fn dir_node(dir: PathView, files: Seq<NodeView>) -> NodeView {
    NodeView { name: name_of(dir), path: dir, size: total_size(files), children: files }
}

/// What the retained directory `dir` adds to the root's children: its files
/// themselves where `dir` is the root, else one directory node.
pub open spec fn nodes_for(root: PathView, entries: Seq<EntryView>, dir: PathView) -> Seq<
    NodeView,
> {
    if dir == root {
        files_in(root, entries, dir)
    } else {
        seq![dir_node(dir, files_in(root, entries, dir))]
    }
}

/// The root's children: what each of `dirs` adds, in the order of `dirs`.
pub open spec fn attached(root: PathView, entries: Seq<EntryView>, dirs: Seq<PathView>) -> Seq<
    NodeView,
>
    decreases dirs.len(),
{
    if dirs.len() == 0 {
        Seq::empty()
    } else {
        attached(root, entries, dirs.drop_last()) + nodes_for(root, entries, dirs.last())
    }
}

/// The tree of a scan of `root` that found `entries`.
pub open spec fn scan_tree(root: PathView, entries: Seq<EntryView>) -> NodeView {
    NodeView {
        name: name_of(root),
        path: root,
        size: file_bytes(entries),
        children: attached(root, entries, retained_dirs(root, entries)),
    }
}

/// The sized files of one retained directory.
pub struct FileGroup {
    pub dir: ScanPath,
    pub files: Vec<DirNode>,
}

/// `groups` holds the retained directories of `entries` in order, each with
/// the nodes of its files.
pub open spec fn groups_match(
    groups: Seq<FileGroup>,
    root: PathView,
    entries: Seq<EntryView>,
) -> bool {
    &&& groups.len() == retained_dirs(root, entries).len()
    &&& forall|j: int|
        0 <= j < groups.len() ==> {
            &&& (#[trigger] groups[j]).dir@ == retained_dirs(root, entries)[j]
            &&& views_of(groups[j].files@) == files_in(root, entries, groups[j].dir@)
        }
}

/// Every directory listed by `retained_dirs` is retained, none is listed
/// twice, and a retained directory that is not listed holds no file.
pub proof fn lemma_retained_dirs(root: PathView, entries: Seq<EntryView>)
    ensures
        retained_dirs(root, entries).no_duplicates(),
        forall|j: int|
            0 <= j < retained_dirs(root, entries).len() ==> is_retained_dir(
                root,
                #[trigger] retained_dirs(root, entries)[j],
            ),
        forall|dir: PathView|
            is_retained_dir(root, dir) && !retained_dirs(root, entries).contains(dir)
                ==> #[trigger] files_in(root, entries, dir) == Seq::<NodeView>::empty(),
    decreases entries.len(),
{
    if entries.len() > 0 {
        lemma_retained_dirs(root, entries.drop_last());
        let rest = retained_dirs(root, entries.drop_last());
        let e = entries.last();
        let h = holder_of(root, e);
        let dirs = retained_dirs(root, entries);
        let grows = is_sized_file(e) && is_retained_dir(root, h) && !rest.contains(h);
        if grows {
            assert(dirs == rest.push(h));
            assert(dirs[rest.len() as int] == h);
            assert forall|a: int, b: int|
                0 <= a < dirs.len() && 0 <= b < dirs.len() && a != b implies dirs[a]
                != dirs[b] by {
                if a == rest.len() {
                    assert(rest[b] == dirs[b]);
                } else if b == rest.len() {
                    assert(rest[a] == dirs[a]);
                } else {
                    assert(rest[a] == dirs[a] && rest[b] == dirs[b]);
                }
            }
        } else {
            assert(dirs == rest);
        }
        assert forall|dir: PathView|
            is_retained_dir(root, dir) && !dirs.contains(dir) implies #[trigger] files_in(
            root,
            entries,
            dir,
        ) == Seq::<NodeView>::empty() by {
            if rest.contains(dir) {
                let j = choose|j: int| 0 <= j < rest.len() && rest[j] == dir;
                assert(dirs[j] == dir);
                assert(false);
            }
            assert(files_in(root, entries.drop_last(), dir) == Seq::<NodeView>::empty());
            if is_sized_file(e) && h == dir {
                if grows {
                    assert(dirs[rest.len() as int] == dir);
                }
                assert(false);
            }
        }
    }
}

/// Whether a file at `path` is filed under a retained directory. Decided
/// on the components of `path`, without building its parent.
fn lies_within_one_level(path: &ScanPath, root: &ScanPath) -> (within: bool)
    ensures
        within == is_retained_dir(root@, parent_or(path@, root@)),
{
    let n = path.len();
    let r = root.len();
    if n == 0 {
        true
    } else {
        proof {
            lemma_parent_within_one_level(path@, root@);
        }
        (n - 1 == r || (n >= 2 && n - 2 == r)) && path.starts_with(root)
    }
}

/// The position of the group for `dir`, where there is one.
fn find_group(groups: &Vec<FileGroup>, dir: &ScanPath) -> (found: Option<usize>)
    ensures
        match found {
            Some(k) => k < groups@.len() && groups@[k as int].dir@ == dir@,
            None => forall|j: int| 0 <= j < groups@.len() ==> groups@[j].dir@ != dir@,
        },
{
    let mut k: usize = 0;
    while k < groups.len()
        invariant
            k <= groups@.len(),
            forall|j: int| 0 <= j < k ==> groups@[j].dir@ != dir@,
        decreases groups@.len() - k,
    {
        if groups[k].dir.same_as(dir) {
            return Some(k);
        }
        k += 1;
    }
    None
}

/// Files every sized file of `entries` that lies in the root or in one of
/// its immediate subdirectories under that directory.
pub fn group_files(root: &ScanPath, entries: &Vec<Entry>) -> (groups: Vec<FileGroup>)
    ensures
        groups_match(groups@, root@, entry_views(entries@)),
{
    let ghost views = entry_views(entries@);
    let mut groups: Vec<FileGroup> = Vec::new();
    let mut i: usize = 0;
    while i < entries.len()
        invariant
            i <= entries@.len(),
            views == entry_views(entries@),
            groups_match(groups@, root@, views.take(i as int)),
        decreases entries@.len() - i,
    {
        let ghost before = views.take(i as int);
        let ghost after = views.take(i + 1);
        let ghost old_groups = groups@;
        proof {
            assert(after.drop_last() =~= before);
            assert(after.last() == entries@[i as int]@);
            lemma_retained_dirs(root@, before);
        }
        let entry = &entries[i];
        let retained = if entry.is_sized_file() && lies_within_one_level(&entry.path, root) {
            Some(entry.path.parent_or(root))
        } else {
            None
        };
        match (retained, entry.len) {
            (Some(dir), Some(len)) => {
                let leaf = DirNode::new(entry.path.name(), entry.path.clone(), len);
                assert(leaf@ == leaf_of(entry@));
                match find_group(&groups, &dir) {
                    Some(k) => {
                        let ghost old_files = groups@[k as int].files@;
                        groups[k].files.push(leaf);
                        proof {
                            let dirs = retained_dirs(root@, before);
                            assert(old_groups[k as int].dir@ == dirs[k as int]);
                            assert(dirs.contains(dir@));
                            assert(retained_dirs(root@, after) == dirs);
                            assert(groups@.len() == old_groups.len());
                            assert forall|j: int| 0 <= j < groups@.len() implies {
                                &&& (#[trigger] groups@[j]).dir@ == dirs[j]
                                &&& views_of(groups@[j].files@) == files_in(
                                    root@,
                                    after,
                                    groups@[j].dir@,
                                )
                            } by {
                                if j == k {
                                    assert(views_of(groups@[j].files@) =~= views_of(
                                        old_files,
                                    ).push(leaf@));
                                } else {
                                    assert(groups@[j] == old_groups[j]);
                                    assert(dirs[j] != dirs[k as int]);
                                }
                            }
                        }
                    },
                    None => {
                        let mut files: Vec<DirNode> = Vec::new();
                        files.push(leaf);
                        proof {
                            let dirs = retained_dirs(root@, before);
                            if dirs.contains(dir@) {
                                let j = choose|j: int| 0 <= j < dirs.len() && dirs[j] == dir@;
                                assert(old_groups[j].dir@ == dir@);
                            }
                            assert(!dirs.contains(dir@));
                            assert(retained_dirs(root@, after) == dirs.push(dir@));
                            assert(files_in(root@, before, dir@) == Seq::<NodeView>::empty());
                            assert(views_of(files@) =~= Seq::<NodeView>::empty().push(leaf@));
                        }
                        groups.push(FileGroup { dir, files });
                        proof {
                            let dirs = retained_dirs(root@, before);
                            assert forall|j: int| 0 <= j < groups@.len() implies {
                                &&& (#[trigger] groups@[j]).dir@ == retained_dirs(root@, after)[j]
                                &&& views_of(groups@[j].files@) == files_in(
                                    root@,
                                    after,
                                    groups@[j].dir@,
                                )
                            } by {
                                if j < old_groups.len() {
                                    assert(groups@[j] == old_groups[j]);
                                    assert(dirs[j] != dir@);
                                }
                            }
                        }
                    },
                }
            },
            _ => {
                proof {
                    let dirs = retained_dirs(root@, before);
                    assert(retained_dirs(root@, after) == dirs);
                    assert forall|j: int| 0 <= j < groups@.len() implies {
                        &&& (#[trigger] groups@[j]).dir@ == dirs[j]
                        &&& views_of(groups@[j].files@) == files_in(
                            root@,
                            after,
                            groups@[j].dir@,
                        )
                    } by {
                        assert(is_retained_dir(root@, dirs[j]));
                    }
                }
            },
        }
        i += 1;
    }
    proof {
        assert(views.take(i as int) =~= views);
    }
    groups
}

/// The files of one directory never weigh more than all files together.
pub proof fn lemma_files_in_bounded(root: PathView, entries: Seq<EntryView>, dir: PathView)
    ensures
        total_size(files_in(root, entries, dir)) <= file_bytes(entries),
    decreases entries.len(),
{
    if entries.len() > 0 {
        lemma_files_in_bounded(root, entries.drop_last(), dir);
        lemma_total_size_push(files_in(root, entries.drop_last(), dir), leaf_of(entries.last()));
    }
}

/// Turns the groups into the root's children.
fn attach_groups(
    root: &ScanPath,
    groups: Vec<FileGroup>,
    Ghost(entries): Ghost<Seq<EntryView>>,
) -> (children: Vec<DirNode>)
    requires
        groups_match(groups@, root@, entries),
        file_bytes(entries) <= u64::MAX,
    ensures
        views_of(children@) == attached(root@, entries, retained_dirs(root@, entries)),
{
    let ghost dirs = retained_dirs(root@, entries);
    let mut children: Vec<DirNode> = Vec::new();
    assert(views_of(children@) =~= attached(root@, entries, dirs.take(0)));
    for group in it: groups
        invariant
            dirs == retained_dirs(root@, entries),
            it.seq() == groups@,
            groups_match(groups@, root@, entries),
            file_bytes(entries) <= u64::MAX,
            views_of(children@) == attached(root@, entries, dirs.take(it.index() as int)),
    {
        let ghost j = it.index() as int;
        let ghost before = children@;
        proof {
            assert(group == groups@[j]);
            assert(dirs.take(j + 1).drop_last() =~= dirs.take(j));
            assert(dirs.take(j + 1).last() == dirs[j]);
            lemma_files_in_bounded(root@, entries, dirs[j]);
        }
        let FileGroup { dir, files } = group;
        if dir.same_as(root) {
            let mut files = files;
            children.append(&mut files);
            proof {
                assert(views_of(children@) =~= views_of(before) + files_in(
                    root@,
                    entries,
                    dirs[j],
                ));
            }
        } else {
            let size = sum_sizes(&files).unwrap();
            let node = DirNode { name: dir.name(), path: dir, size, children: files };
            proof {
                node.lemma_view();
                assert(node@ == dir_node(dirs[j], files_in(root@, entries, dirs[j])));
            }
            children.push(node);
            proof {
                assert(views_of(children@) =~= views_of(before) + seq![node@]);
            }
        }
    }
    proof {
        assert(dirs.take(groups@.len() as int) =~= dirs);
    }
    children
}

/// Puts the tree together from its parts; `size` is the byte total.
pub(crate) fn assemble(root: &ScanPath, entries: &Vec<Entry>, size: u64) -> (tree: DirNode)
    requires
        size == file_bytes(entry_views(entries@)),
    ensures
        tree@ == scan_tree(root@, entry_views(entries@)),
{
    let groups = group_files(root, entries);
    let children = attach_groups(root, groups, Ghost(entry_views(entries@)));
    let tree = DirNode { name: root.name(), path: root.clone(), size, children };
    proof {
        tree.lemma_view();
    }
    tree
}

/// Builds the tree of a scan of `root` that found `entries`. There is a
/// tree unless the byte total does not fit in 64 bits.
pub fn build_tree(root: &ScanPath, entries: &Vec<Entry>) -> (tree: Option<DirNode>)
    ensures
        tree.is_some() == (file_bytes(entry_views(entries@)) <= u64::MAX),
        match tree {
            Some(t) => t@ == scan_tree(root@, entry_views(entries@)),
            None => true,
        },
{
    match sum_file_bytes(entries) {
        Some(size) => Some(assemble(root, entries, size)),
        None => None,
    }
}

} // verus!
