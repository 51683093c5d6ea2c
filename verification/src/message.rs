//! What a scan reports: its totals, then its tree.

use vstd::prelude::*;
use crate::aggregate::assemble;
use crate::aggregate::scan_tree;
use crate::entry::count_dirs;
use crate::entry::dir_count;
use crate::entry::entry_views;
use crate::entry::file_bytes;
use crate::entry::sum_file_bytes;
use crate::entry::Entry;
use crate::entry::EntryView;
use crate::location::PathView;
use crate::location::ScanPath;
use crate::tree::DirNode;
use crate::tree::NodeView;

verus! {

/// The number of bytes in one mebibyte.
pub const MEBIBYTE: u64 = 1_048_576;

/// A snapshot of a traversal's totals.
#[derive(Clone, Copy, Debug, PartialEq, Eq, Structural)]
pub struct ScanProgress {
    pub total_dirs: u64,
    pub total_bytes: u64,
    pub scanned_dirs: u64,
    pub scanned_bytes: u64,
}

impl ScanProgress {
    /// Everything that was found has been scanned.
    pub open spec fn is_complete(self) -> bool {
        self.scanned_dirs == self.total_dirs && self.scanned_bytes == self.total_bytes
    }

    /// The whole mebibytes scanned so far and found in total, as a progress
    /// text shows them.
    pub fn mebibytes(&self) -> (shown: (u64, u64))
        ensures
            shown.0 == self.scanned_bytes / MEBIBYTE,
            shown.1 == self.total_bytes / MEBIBYTE,
    {
        (self.scanned_bytes / MEBIBYTE, self.total_bytes / MEBIBYTE)
    }

    /// The scanned part as numerator and denominator of a fraction. The
    /// denominator is the byte total, or 1 where that is 0, so that the
    /// fraction is defined for an empty scan too.
    pub fn fraction(&self) -> (parts: (u64, u64))
        ensures
            parts.0 == self.scanned_bytes,
            parts.1 == if self.total_bytes == 0 {
                1
            } else {
                self.total_bytes
            },
    {
        if self.total_bytes == 0 {
            (self.scanned_bytes, 1)
        } else {
            (self.scanned_bytes, self.total_bytes)
        }
    }

    /// The snapshot of a traversal that has scanned all it found.
    pub fn completed(total_dirs: u64, total_bytes: u64) -> (progress: Self)
        ensures
            progress == (ScanProgress {
                total_dirs,
                total_bytes,
                scanned_dirs: total_dirs,
                scanned_bytes: total_bytes,
            }),
    {
        ScanProgress {
            total_dirs,
            total_bytes,
            scanned_dirs: total_dirs,
            scanned_bytes: total_bytes,
        }
    }
}

/// A message from a scan to its consumer.
#[derive(Debug, PartialEq, Eq)]
pub enum ScanMsg {
    Progress(ScanProgress),
    Finished(DirNode),
}

/// The mathematical model of a message.
pub enum MsgView {
    Progress(ScanProgress),
    Finished(NodeView),
}

impl View for ScanMsg {
    type V = MsgView;

    open spec fn view(&self) -> MsgView {
        match *self {
            ScanMsg::Progress(progress) => MsgView::Progress(progress),
            ScanMsg::Finished(tree) => MsgView::Finished(tree@),
        }
    }
}

/// The models of `msgs`, in the same order.
pub open spec fn msg_views(msgs: Seq<ScanMsg>) -> Seq<MsgView> {
    Seq::new(msgs.len(), |i: int| msgs[i]@)
}

/// The totals of a finished traversal that found `entries`.
pub open spec fn final_progress(entries: Seq<EntryView>) -> ScanProgress {
    ScanProgress {
        total_dirs: dir_count(entries) as u64,
        total_bytes: file_bytes(entries) as u64,
        scanned_dirs: dir_count(entries) as u64,
        scanned_bytes: file_bytes(entries) as u64,
    }
}

/// What a scan of `root` that found `entries` sends, in the order in which
/// it sends it: the totals first, the tree second, and nothing else.
pub open spec fn scan_outbox(root: PathView, entries: Seq<EntryView>) -> Seq<MsgView> {
    seq![MsgView::Progress(final_progress(entries)), MsgView::Finished(scan_tree(root, entries))]
}

/// A scan sends two messages: its totals first, its tree second.
pub proof fn lemma_outbox_order(root: PathView, entries: Seq<EntryView>)
    ensures
        scan_outbox(root, entries).len() == 2,
        scan_outbox(root, entries)[0] == MsgView::Progress(final_progress(entries)),
        scan_outbox(root, entries)[1] == MsgView::Finished(scan_tree(root, entries)),
        final_progress(entries).is_complete(),
{
}

/// Computes the totals of a finished traversal. There are totals unless the
/// byte total does not fit in 64 bits.
pub fn summarize(entries: &Vec<Entry>) -> (progress: Option<ScanProgress>)
    ensures
        progress == if file_bytes(entry_views(entries@)) <= u64::MAX {
            Some(final_progress(entry_views(entries@)))
        } else {
            None
        },
{
    match sum_file_bytes(entries) {
        Some(total_bytes) => Some(ScanProgress::completed(count_dirs(entries), total_bytes)),
        None => None,
    }
}

/// Runs the aggregation over the entries that a traversal of `root` found
/// and returns the messages that the scan is to send, in sending order.
/// There are messages unless the byte total does not fit in 64 bits.
pub fn scan_messages(root: &ScanPath, entries: &Vec<Entry>) -> (outbox: Option<Vec<ScanMsg>>)
    ensures
        outbox.is_some() == (file_bytes(entry_views(entries@)) <= u64::MAX),
        match outbox {
            Some(msgs) => msgs@.len() == 2 && msg_views(msgs@) == scan_outbox(
                root@,
                entry_views(entries@),
            ),
            None => true,
        },
{
    match sum_file_bytes(entries) {
        Some(total_bytes) => {
            let progress = ScanProgress::completed(count_dirs(entries), total_bytes);
            let tree = assemble(root, entries, total_bytes);
            let mut msgs: Vec<ScanMsg> = Vec::new();
            msgs.push(ScanMsg::Progress(progress));
            msgs.push(ScanMsg::Finished(tree));
            proof {
                assert(msg_views(msgs@) =~= scan_outbox(root@, entry_views(entries@)));
            }
            Some(msgs)
        },
        None => None,
    }
}

} // verus!
