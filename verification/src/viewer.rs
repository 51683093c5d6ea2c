//! The consumer's side of a scan: what it holds between polls, how each
//! message changes it, and which node of the tree it currently shows.
//!
//! The node on show is addressed by a trail of child indices from the root,
//! resolved against the tree on every access, so a trail never outlives the
//! tree that it was walked in.

use crossbeam_channel::Receiver;
use vstd::prelude::*;
use crate::aggregate::scan_tree;
use crate::entry::EntryView;
use crate::location::PathView;
use crate::mailbox::take_arrived;
use crate::message::final_progress;
use crate::message::msg_views;
use crate::message::scan_outbox;
use crate::message::MsgView;
use crate::message::ScanMsg;
use crate::message::ScanProgress;
use crate::tree::DirNode;
use crate::tree::NodeView;

verus! {

/// The node reached from `node` by following `trail`, one child index per
/// level; `None` where an index names no child.
pub open spec fn descend(node: NodeView, trail: Seq<usize>) -> Option<NodeView>
    decreases trail.len(),
{
    if trail.len() == 0 {
        Some(node)
    } else if trail[0] < node.children.len() {
        descend(node.children[trail[0] as int], trail.drop_first())
    } else {
        None
    }
}

/// The mathematical model of the consumer's state.
pub struct ViewerState {
    /// The tree of the last finished scan.
    pub tree: Option<NodeView>,
    /// The last totals received from the scan in progress or just finished.
    pub progress: Option<ScanProgress>,
    /// A scan has been started and its tree has not arrived yet.
    pub listening: bool,
    /// The child indices from the root to the node on show.
    pub trail: Seq<usize>,
}

impl ViewerState {
    /// The state before any scan.
    pub open spec fn idle() -> ViewerState {
        ViewerState { tree: None, progress: None, listening: false, trail: Seq::empty() }
    }

    /// The trail leads to a node of the tree, and while a scan is awaited
    /// there is no tree.
    pub open spec fn well_formed(self) -> bool {
        &&& match self.tree {
            Some(root) => descend(root, self.trail).is_some(),
            None => self.trail.len() == 0,
        }
        &&& self.listening ==> self.tree.is_none()
    }

    /// The node on show, where there is a tree.
    pub open spec fn current(self) -> Option<NodeView> {
        match self.tree {
            Some(root) => descend(root, self.trail),
            None => None,
        }
    }

    /// The state after a scan was started: tree, totals and trail are
    /// dropped, and the scan's messages are awaited.
    pub open spec fn started(self) -> ViewerState {
        ViewerState { tree: None, progress: None, listening: true, trail: Seq::empty() }
    }

    /// The state after `msg` was taken from the scan. Totals replace the
    /// totals held. A tree is kept and ends the listening. A consumer that
    /// awaits no scan takes no message.
    pub open spec fn received(self, msg: MsgView) -> ViewerState {
        if !self.listening {
            self
        } else {
            match msg {
                MsgView::Progress(progress) => ViewerState { progress: Some(progress), ..self },
                MsgView::Finished(tree) => ViewerState {
                    tree: Some(tree),
                    listening: false,
                    ..self
                },
            }
        }
    }

    /// The state after all of `msgs` were taken, first to last.
    pub open spec fn received_all(self, msgs: Seq<MsgView>) -> ViewerState
        decreases msgs.len(),
    {
        if msgs.len() == 0 {
            self
        } else {
            self.received_all(msgs.drop_last()).received(msgs.last())
        }
    }

    /// Child `index` of the node on show can be entered: it exists and has
    /// children of its own.
    pub open spec fn can_enter(self, index: usize) -> bool {
        match self.current() {
            Some(node) => index < node.children.len() && node.children[index as int].children.len()
                > 0,
            None => false,
        }
    }

    /// The state after an attempt to enter child `index`.
    pub open spec fn entered(self, index: usize) -> ViewerState {
        if self.can_enter(index) {
            ViewerState { trail: self.trail.push(index), ..self }
        } else {
            self
        }
    }

    /// The state after a step back towards the root.
    pub open spec fn backed(self) -> ViewerState {
        if self.trail.len() > 0 {
            ViewerState { trail: self.trail.drop_last(), ..self }
        } else {
            self
        }
    }
}

/// Following a trail and then one more index is following the longer trail.
pub proof fn lemma_descend_push(root: NodeView, trail: Seq<usize>, index: usize)
    ensures
        descend(root, trail.push(index)) == match descend(root, trail) {
            Some(node) => if index < node.children.len() {
                Some(node.children[index as int])
            } else {
                None
            },
            None => None,
        },
    decreases trail.len(),
{
    reveal_with_fuel(descend, 2);
    if trail.len() == 0 {
        assert(trail.push(index).drop_first() =~= Seq::<usize>::empty());
    } else {
        assert(trail.push(index).drop_first() =~= trail.drop_first().push(index));
        if trail[0] < root.children.len() {
            lemma_descend_push(root.children[trail[0] as int], trail.drop_first(), index);
        }
    }
}

/// A trail that leads somewhere still does so without its last index.
pub proof fn lemma_descend_drop_last(root: NodeView, trail: Seq<usize>)
    requires
        trail.len() > 0,
        descend(root, trail).is_some(),
    ensures
        descend(root, trail.drop_last()).is_some(),
{
    assert(trail.drop_last().push(trail.last()) =~= trail);
    lemma_descend_push(root, trail.drop_last(), trail.last());
}

/// Every step leads from a well-formed state to a well-formed state, and
/// the state before any scan is well formed.
pub proof fn lemma_steps_keep_well_formed(state: ViewerState, msg: MsgView, index: usize)
    requires
        state.well_formed(),
    ensures
        ViewerState::idle().well_formed(),
        state.started().well_formed(),
        state.received(msg).well_formed(),
        state.entered(index).well_formed(),
        state.backed().well_formed(),
{
    if state.can_enter(index) {
        lemma_descend_push(state.tree.unwrap(), state.trail, index);
    }
    if state.trail.len() > 0 {
        lemma_descend_drop_last(state.tree.unwrap(), state.trail);
    }
}

/// A consumer that starts a scan and takes the scan's messages in the order
/// in which they were sent holds the totals after the first and still
/// listens, and holds totals and tree after the second, shows the root, and
/// listens no more. What it held before the scan is gone.
pub proof fn lemma_scan_arrives(state: ViewerState, root: PathView, entries: Seq<EntryView>)
    ensures
        state.started().received(scan_outbox(root, entries)[0]) == (ViewerState {
            tree: None,
            progress: Some(final_progress(entries)),
            listening: true,
            trail: Seq::empty(),
        }),
        state.started().received_all(scan_outbox(root, entries)) == (ViewerState {
            tree: Some(scan_tree(root, entries)),
            progress: Some(final_progress(entries)),
            listening: false,
            trail: Seq::empty(),
        }),
        state.started().received_all(scan_outbox(root, entries)).current() == Some(
            scan_tree(root, entries),
        ),
{
    reveal_with_fuel(ViewerState::received_all, 3);
    let outbox = scan_outbox(root, entries);
    assert(outbox.drop_last() =~= seq![outbox[0]]);
    assert(outbox.drop_last().drop_last() =~= Seq::<MsgView>::empty());
}

/// Messages that arrive while no scan is awaited change nothing.
pub proof fn lemma_stale_messages_ignored(state: ViewerState, msgs: Seq<MsgView>)
    requires
        !state.listening,
    ensures
        state.received_all(msgs) == state,
    decreases msgs.len(),
{
    if msgs.len() > 0 {
        lemma_stale_messages_ignored(state, msgs.drop_last());
    }
}

/// The consumer's state. While a scan is awaited it holds the receiving end
/// of that scan's channel.
pub struct Viewer {
    tree: Option<DirNode>,
    rx: Option<Receiver<ScanMsg>>,
    progress: Option<ScanProgress>,
    trail: Vec<usize>,
}

impl View for Viewer {
    type V = ViewerState;

    closed spec fn view(&self) -> ViewerState {
        ViewerState {
            tree: match self.tree {
                Some(root) => Some(root@),
                None => None,
            },
            progress: self.progress,
            listening: self.rx.is_some(),
            trail: self.trail@,
        }
    }
}

impl Default for Viewer {
    fn default() -> (viewer: Self)
        ensures
            viewer@ == ViewerState::idle(),
    {
        Viewer::new()
    }
}

impl Viewer {
    #[verifier::type_invariant]
    spec fn inv(self) -> bool {
        self@.well_formed()
    }

    /// A consumer that has seen no scan.
    pub fn new() -> (viewer: Self)
        ensures
            viewer@ == ViewerState::idle(),
    {
        Viewer { tree: None, rx: None, progress: None, trail: Vec::new() }
    }

    /// Turns to a scan that was just started and reports on `rx`. What was
    /// held of an earlier scan is dropped, its channel included: whatever
    /// that scan still sends is never read.
    pub fn begin_scan(&mut self, rx: Receiver<ScanMsg>)
        ensures
            final(self)@ == old(self)@.started(),
    {
        *self = Viewer { tree: None, rx: Some(rx), progress: None, trail: Vec::new() };
    }

    /// Takes one message from the scan. The tree ends the listening: the
    /// channel is let go. Returns whether further messages are awaited.
    pub fn receive(&mut self, msg: ScanMsg) -> (listening: bool)
        ensures
            final(self)@ == old(self)@.received(msg@),
            listening == final(self)@.listening,
    {
        proof {
            use_type_invariant(&*self);
        }
        if self.rx.is_some() {
            match msg {
                ScanMsg::Progress(progress) => {
                    self.progress = Some(progress);
                },
                ScanMsg::Finished(tree) => {
                    self.rx = None;
                    self.tree = Some(tree);
                },
            }
        }
        self.rx.is_some()
    }

    /// Takes what the awaited scan has sent so far, without waiting, up to
    /// and including its tree. Returns whether further messages are awaited.
    pub fn poll(&mut self) -> (listening: bool)
        ensures
            exists|msgs: Seq<MsgView>| final(self)@ == #[trigger] old(self)@.received_all(msgs),
            !old(self)@.listening ==> final(self)@ == old(self)@,
            listening == final(self)@.listening,
    {
        let ghost mut taken: Seq<MsgView> = Seq::empty();
        let mut polls: usize = 0;
        while polls < usize::MAX
            invariant
                self@ == old(self)@.received_all(taken),
            decreases usize::MAX - polls,
        {
            let arrived = match &self.rx {
                Some(rx) => take_arrived(rx),
                None => None,
            };
            match arrived {
                Some(msg) => {
                    proof {
                        assert(taken.push(msg@).drop_last() =~= taken);
                        taken = taken.push(msg@);
                    }
                    self.receive(msg);
                },
                None => {
                    break ;
                },
            }
            polls += 1;
        }
        proof {
            if !old(self)@.listening {
                lemma_stale_messages_ignored(old(self)@, taken);
            }
        }
        self.rx.is_some()
    }

    /// Takes all of `msgs`, first to last. Returns whether further messages
    /// are awaited.
    pub fn receive_all(&mut self, msgs: Vec<ScanMsg>) -> (listening: bool)
        ensures
            final(self)@ == old(self)@.received_all(msg_views(msgs@)),
            listening == final(self)@.listening,
    {
        let ghost views = msg_views(msgs@);
        assert(views.take(0) =~= Seq::<MsgView>::empty());
        for msg in it: msgs
            invariant
                it.seq() == msgs@,
                views == msg_views(msgs@),
                self@ == old(self)@.received_all(views.take(it.index() as int)),
        {
            proof {
                assert(views.take(it.index() + 1).drop_last() =~= views.take(it.index() as int));
                assert(views.take(it.index() + 1).last() == msg@);
            }
            self.receive(msg);
        }
        proof {
            assert(views.take(msgs@.len() as int) =~= views);
        }
        self.rx.is_some()
    }

    /// Whether a scan's messages are awaited.
    pub fn is_listening(&self) -> (listening: bool)
        ensures
            listening == self@.listening,
    {
        self.rx.is_some()
    }

    /// The last totals received.
    pub fn progress(&self) -> (progress: Option<ScanProgress>)
        ensures
            progress == self@.progress,
    {
        self.progress
    }

    /// The tree of the last finished scan.
    pub fn tree(&self) -> (tree: Option<&DirNode>)
        ensures
            match tree {
                Some(root) => self@.tree == Some(root@),
                None => self@.tree.is_none(),
            },
    {
        self.tree.as_ref()
    }

    /// How many levels below the root the node on show lies.
    pub fn depth(&self) -> (depth: usize)
        ensures
            depth == self@.trail.len(),
    {
        self.trail.len()
    }

    /// The node on show: the root of the tree, or the node that the trail
    /// leads to. There is one whenever there is a tree.
    pub fn current(&self) -> (node: Option<&DirNode>)
        ensures
            match node {
                Some(n) => self@.current() == Some(n@),
                None => self@.current().is_none(),
            },
            node.is_some() == self@.tree.is_some(),
    {
        proof {
            use_type_invariant(self);
        }
        match &self.tree {
            None => None,
            Some(root) => {
                let mut node: &DirNode = root;
                let mut k: usize = 0;
                assert(self.trail@.skip(0) =~= self.trail@);
                while k < self.trail.len()
                    invariant
                        k <= self.trail@.len(),
                        descend(root@, self.trail@).is_some(),
                        descend(root@, self.trail@) == descend(node@, self.trail@.skip(k as int)),
                    decreases self.trail@.len() - k,
                {
                    let index = self.trail[k];
                    proof {
                        node.lemma_view();
                        assert(self.trail@.skip(k as int)[0] == index);
                        assert(self.trail@.skip(k as int).drop_first() =~= self.trail@.skip(
                            k + 1,
                        ));
                    }
                    node = &node.children[index];
                    k += 1;
                }
                proof {
                    assert(self.trail@.skip(k as int) =~= Seq::<usize>::empty());
                }
                Some(node)
            },
        }
    }

    /// Shows child `index` of the node on show, if that child has children
    /// of its own. Returns whether it did.
    pub fn enter(&mut self, index: usize) -> (moved: bool)
        ensures
            moved == old(self)@.can_enter(index),
            final(self)@ == old(self)@.entered(index),
    {
        proof {
            use_type_invariant(&*self);
        }
        let enterable = match self.current() {
            Some(node) => {
                proof {
                    node.lemma_view();
                }
                if index < node.children.len() {
                    proof {
                        node.children@[index as int].lemma_view();
                    }
                    node.children[index].children.len() > 0
                } else {
                    false
                }
            },
            None => false,
        };
        if enterable {
            proof {
                lemma_descend_push(self@.tree.unwrap(), self.trail@, index);
            }
            let mut trail = self.trail.clone();
            assert(trail@ =~= self.trail@);
            trail.push(index);
            self.trail = trail;
        }
        enterable
    }

    /// Shows the parent of the node on show, if that is not the root.
    /// Returns whether it did.
    pub fn back(&mut self) -> (moved: bool)
        ensures
            moved == (old(self)@.trail.len() > 0),
            final(self)@ == old(self)@.backed(),
    {
        proof {
            use_type_invariant(&*self);
        }
        if self.trail.len() > 0 {
            proof {
                lemma_descend_drop_last(self@.tree.unwrap(), self.trail@);
            }
            let mut trail = self.trail.clone();
            assert(trail@ =~= self.trail@);
            trail.pop();
            self.trail = trail;
            true
        } else {
            false
        }
    }
}

} // verus!
