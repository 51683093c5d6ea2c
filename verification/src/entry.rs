//! The flat list of filesystem entries that a traversal hands to the
//! aggregation, and the two totals computed over it.

use vstd::prelude::*;
use crate::location::PathView;
use crate::location::ScanPath;
use crate::reduce::lemma_sum_of_bounded;
use crate::reduce::parallel_sum;
use crate::reduce::sum_of;

verus! {

/// What kind of filesystem object an entry is.
#[derive(Clone, Copy, Debug, PartialEq, Eq, Structural)]
pub enum EntryKind {
    Directory,
    File,
    /// Anything else: a symbolic link, a socket, a device.
    Other,
}

/// The mathematical model of an entry.
pub struct EntryView {
    pub path: PathView,
    pub kind: EntryKind,
    pub len: Option<u64>,
}

/// One filesystem object found by a traversal.
#[derive(Debug, PartialEq, Eq)]
pub struct Entry {
    /// Where the object is.
    pub path: ScanPath,
    pub kind: EntryKind,
    /// The byte length, where it could be read.
    pub len: Option<u64>,
}

impl View for Entry {
    type V = EntryView;

    open spec fn view(&self) -> EntryView {
        EntryView { path: self.path@, kind: self.kind, len: self.len }
    }
}

/// The models of the entries in `entries`, in the same order.
pub open spec fn entry_views(entries: Seq<Entry>) -> Seq<EntryView> {
    Seq::new(entries.len(), |i: int| entries[i]@)
}

/// `e` is a regular file whose length is known. Only such entries carry
/// bytes and appear in a tree.
pub open spec fn is_sized_file(e: EntryView) -> bool {
    e.kind == EntryKind::File && e.len.is_some()
}

/// The bytes that `e` contributes to a scan's total.
pub open spec fn counted_bytes(e: EntryView) -> nat {
    if is_sized_file(e) {
        e.len.unwrap() as nat
    } else {
        0
    }
}

/// The number of directories among `entries`.
pub open spec fn dir_count(entries: Seq<EntryView>) -> nat
    decreases entries.len(),
{
    if entries.len() == 0 {
        0
    } else {
        dir_count(entries.drop_last()) + if entries.last().kind == EntryKind::Directory {
            1nat
        } else {
            0nat
        }
    }
}

/// The sum of the lengths of the sized files among `entries`.
pub open spec fn file_bytes(entries: Seq<EntryView>) -> nat
    decreases entries.len(),
{
    if entries.len() == 0 {
        0
    } else {
        file_bytes(entries.drop_last()) + counted_bytes(entries.last())
    }
}

/// The sum of `weight` over `entries`.
pub open spec fn tally(entries: Seq<EntryView>, weight: spec_fn(EntryView) -> nat) -> nat
    decreases entries.len(),
{
    if entries.len() == 0 {
        0
    } else {
        tally(entries.drop_last(), weight) + weight(entries.last())
    }
}

/// Taking one entry out lowers a tally by that entry's weight.
pub proof fn lemma_tally_remove(entries: Seq<EntryView>, weight: spec_fn(EntryView) -> nat, i: int)
    requires
        0 <= i < entries.len(),
    ensures
        tally(entries, weight) == tally(entries.remove(i), weight) + weight(entries[i]),
    decreases entries.len(),
{
    if i == entries.len() - 1 {
        assert(entries.remove(i) =~= entries.drop_last());
    } else {
        lemma_tally_remove(entries.drop_last(), weight, i);
        assert(entries.remove(i).drop_last() =~= entries.drop_last().remove(i));
        assert(entries.remove(i).last() == entries.last());
    }
}

/// A tally does not depend on the order of the entries.
pub proof fn lemma_tally_ignores_order(
    a: Seq<EntryView>,
    b: Seq<EntryView>,
    weight: spec_fn(EntryView) -> nat,
)
    requires
        a.to_multiset() == b.to_multiset(),
    ensures
        tally(a, weight) == tally(b, weight),
    decreases a.len(),
{
    vstd::seq_lib::to_multiset_len(a);
    vstd::seq_lib::to_multiset_len(b);
    if a.len() > 0 {
        let x = a.last();
        let rest = a.drop_last();
        assert(rest.push(x) =~= a);
        vstd::seq_lib::to_multiset_build(rest, x);
        vstd::seq_lib::to_multiset_contains(b, x);
        assert(b.contains(x));
        let k = choose|k: int| 0 <= k < b.len() && b[k] == x;
        vstd::seq_lib::to_multiset_remove(b, k);
        assert(b.remove(k).to_multiset() =~= rest.to_multiset());
        lemma_tally_ignores_order(rest, b.remove(k), weight);
        lemma_tally_remove(b, weight, k);
    }
}

/// The byte total is the tally of the counted bytes.
pub proof fn lemma_file_bytes_is_tally(entries: Seq<EntryView>)
    ensures
        file_bytes(entries) == tally(entries, |e: EntryView| counted_bytes(e)),
    decreases entries.len(),
{
    if entries.len() > 0 {
        lemma_file_bytes_is_tally(entries.drop_last());
    }
}

/// The directory count is the tally that gives each directory the weight 1.
pub proof fn lemma_dir_count_is_tally(entries: Seq<EntryView>)
    ensures
        dir_count(entries) == tally(
            entries,
            |e: EntryView|
                if e.kind == EntryKind::Directory {
                    1nat
                } else {
                    0nat
                },
        ),
    decreases entries.len(),
{
    if entries.len() > 0 {
        lemma_dir_count_is_tally(entries.drop_last());
    }
}

/// The kind of an object of which a traversal says whether it is a
/// directory and whether it is a regular file.
pub open spec fn kind_of(is_dir: bool, is_file: bool) -> EntryKind {
    if is_dir {
        EntryKind::Directory
    } else if is_file {
        EntryKind::File
    } else {
        EntryKind::Other
    }
}

impl Entry {
    /// The entry for an object as a traversal reports it: where it is,
    /// whether it is a directory, whether it is a regular file, and its
    /// length where that could be read.
    pub fn found(path: ScanPath, is_dir: bool, is_file: bool, len: Option<u64>) -> (entry: Self)
        ensures
            entry@ == (EntryView { path: path@, kind: kind_of(is_dir, is_file), len }),
    {
        let kind = if is_dir {
            EntryKind::Directory
        } else if is_file {
            EntryKind::File
        } else {
            EntryKind::Other
        };
        Entry { path, kind, len }
    }

    /// A directory at `path`.
    pub fn directory(path: ScanPath) -> (entry: Self)
        ensures
            entry@ == (EntryView { path: path@, kind: EntryKind::Directory, len: None }),
    {
        Entry { path, kind: EntryKind::Directory, len: None }
    }

    /// A regular file of `len` bytes at `path`.
    pub fn file(path: ScanPath, len: u64) -> (entry: Self)
        ensures
            entry@ == (EntryView { path: path@, kind: EntryKind::File, len: Some(len) }),
    {
        Entry { path, kind: EntryKind::File, len: Some(len) }
    }

    /// Whether this is a regular file whose length is known.
    pub fn is_sized_file(&self) -> (sized: bool)
        ensures
            sized == is_sized_file(self@),
    {
        match self.kind {
            EntryKind::File => self.len.is_some(),
            _ => false,
        }
    }
}

/// Counts the directories among `entries`.
pub fn count_dirs(entries: &Vec<Entry>) -> (count: u64)
    ensures
        count == dir_count(entry_views(entries@)),
{
    let ghost views = entry_views(entries@);
    let mut count: u64 = 0;
    let mut i: usize = 0;
    while i < entries.len()
        invariant
            i <= entries@.len(),
            views == entry_views(entries@),
            count == dir_count(views.take(i as int)),
            count <= i,
        decreases entries@.len() - i,
    {
        proof {
            assert(views.take(i + 1).drop_last() =~= views.take(i as int));
        }
        match entries[i].kind {
            EntryKind::Directory => {
                count += 1;
            },
            _ => {},
        }
        i += 1;
    }
    proof {
        assert(views.take(i as int) =~= views);
    }
    count
}

/// Adds up the lengths of the sized files among `entries`. The result is
/// `None` exactly when the sum does not fit in 64 bits.
pub fn sum_file_bytes(entries: &Vec<Entry>) -> (total: Option<u64>)
    ensures
        total == if file_bytes(entry_views(entries@)) <= u64::MAX {
            Some(file_bytes(entry_views(entries@)) as u64)
        } else {
            None
        },
{
    let ghost views = entry_views(entries@);
    let mut lens: Vec<u128> = Vec::new();
    let mut i: usize = 0;
    while i < entries.len()
        invariant
            i <= entries@.len(),
            views == entry_views(entries@),
            lens@.len() <= i,
            forall|j: int| 0 <= j < lens@.len() ==> lens@[j] <= u64::MAX,
            sum_of(lens@) == file_bytes(views.take(i as int)),
        decreases entries@.len() - i,
    {
        proof {
            assert(views.take(i + 1).drop_last() =~= views.take(i as int));
        }
        let ghost before = lens@;
        if entries[i].is_sized_file() {
            match entries[i].len {
                Some(len) => {
                    lens.push(len as u128);
                    assert(lens@.drop_last() =~= before);
                },
                None => {},
            }
        }
        i += 1;
    }
    proof {
        assert(views.take(i as int) =~= views);
        lemma_sum_of_bounded(lens@, u64::MAX as nat);
        assert(lens@.len() * (u64::MAX as nat) <= u128::MAX) by (nonlinear_arith)
            requires
                lens@.len() <= usize::MAX,
        ;
    }
    let sum = parallel_sum(&lens);
    if sum <= u64::MAX as u128 {
        Some(sum as u64)
    } else {
        None
    }
}

} // verus!
