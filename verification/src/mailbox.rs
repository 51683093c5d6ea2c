//! The channel between a scan and its consumer.
//!
//! A scan holds the sending end in an [`Outbox`], which keeps a record of
//! what it was given to send. The consumer holds the receiving end and takes
//! what has arrived without ever waiting.

use crossbeam_channel::Receiver;
use crossbeam_channel::Sender;
use vstd::prelude::*;
use crate::entry::entry_views;
use crate::entry::file_bytes;
use crate::entry::Entry;
use crate::location::ScanPath;
use crate::message::msg_views;
use crate::message::scan_messages;
use crate::message::scan_outbox;
use crate::message::MsgView;
use crate::message::ScanMsg;

verus! {

/// The sending end of a channel of `crossbeam_channel`, carried through as
/// an opaque value.
#[verifier::external_type_specification]
#[verifier::external_body]
#[verifier::reject_recursive_types(T)]
pub struct ExSender<T>(Sender<T>);

/// The receiving end of a channel of `crossbeam_channel`, carried through as
/// an opaque value.
#[verifier::external_type_specification]
#[verifier::external_body]
#[verifier::reject_recursive_types(T)]
pub struct ExReceiver<T>(Receiver<T>);

/// Makes a channel without a capacity limit.
///
/// Trusted: calls `crossbeam_channel::unbounded`. Nothing is claimed of the
/// two ends.
#[verifier::external_body]
fn unbounded_channel() -> (ends: (Sender<ScanMsg>, Receiver<ScanMsg>)) {
    crossbeam_channel::unbounded()
}

/// Hands `msg` to the channel without waiting. Returns whether the channel
/// took it.
///
/// Trusted: calls `crossbeam_channel::Sender::try_send`, which returns at
/// once on every channel. Nothing is claimed of the result: whether the
/// message is taken depends on whether the receiving end still exists.
#[verifier::external_body]
fn offer(sender: &Sender<ScanMsg>, msg: ScanMsg) -> (taken: bool) {
    sender.try_send(msg).is_ok()
}

/// Takes the next message that has arrived, if there is one, without
/// waiting.
///
/// Trusted: calls `crossbeam_channel::Receiver::try_recv`. Nothing is
/// claimed of the result: what has arrived depends on the sending thread.
#[verifier::external_body]
pub(crate) fn take_arrived(receiver: &Receiver<ScanMsg>) -> (msg: Option<ScanMsg>) {
    receiver.try_recv().ok()
}

/// The sending end of a scan's channel, with a record of every message that
/// it was given to send.
pub struct Outbox {
    sender: Sender<ScanMsg>,
    given: Ghost<Seq<MsgView>>,
}

impl Outbox {
    /// The messages that this outbox was given to send, first to last.
    pub closed spec fn given(&self) -> Seq<MsgView> {
        self.given@
    }

    /// Hands `msg` to the channel. A consumer that has gone away is no
    /// error: the message is dropped. Returns whether the channel took it.
    pub fn send(&mut self, msg: ScanMsg) -> (taken: bool)
        ensures
            final(self).given() == old(self).given().push(msg@),
    {
        proof {
            self.given@ = self.given@.push(msg@);
        }
        offer(&self.sender, msg)
    }

    /// Hands all of `msgs` to the channel, first to last. Returns how many
    /// the channel took.
    pub fn send_all(&mut self, msgs: Vec<ScanMsg>) -> (taken: usize)
        ensures
            final(self).given() == old(self).given() + msg_views(msgs@),
            taken <= msgs@.len(),
    {
        let ghost views = msg_views(msgs@);
        let count = msgs.len();
        let mut taken: usize = 0;
        assert(self.given() =~= old(self).given() + views.take(0));
        for msg in it: msgs
            invariant
                it.seq() == msgs@,
                msgs@.len() == count,
                views == msg_views(msgs@),
                taken <= it.index(),
                self.given() == old(self).given() + views.take(it.index() as int),
        {
            proof {
                assert(views.take(it.index() + 1) =~= views.take(it.index() as int).push(msg@));
                assert((old(self).given() + views.take(it.index() as int)).push(msg@) =~= old(
                    self,
                ).given() + views.take(it.index() + 1));
            }
            assert(it.index() < msgs@.len());
            if self.send(msg) {
                taken += 1;
            }
        }
        proof {
            assert(views.take(msgs@.len() as int) =~= views);
        }
        taken
    }
}

/// Makes the channel of one scan: the outbox for the scan, which has been
/// given nothing yet, and the receiving end for the consumer.
pub fn scan_channel() -> (ends: (Outbox, Receiver<ScanMsg>))
    ensures
        ends.0.given() == Seq::<MsgView>::empty(),
{
    let (sender, receiver) = unbounded_channel();
    (Outbox { sender, given: Ghost(Seq::empty()) }, receiver)
}

/// Runs the aggregation over the entries that a traversal of `root` found
/// and sends the result: the totals first, the tree second, and nothing
/// else. Nothing is sent where the byte total does not fit in 64 bits.
/// Returns whether the messages were sent.
pub fn run_scan(root: &ScanPath, entries: &Vec<Entry>, outbox: &mut Outbox) -> (sent: bool)
    ensures
        sent == (file_bytes(entry_views(entries@)) <= u64::MAX),
        final(outbox).given() == if sent {
            old(outbox).given() + scan_outbox(root@, entry_views(entries@))
        } else {
            old(outbox).given()
        },
{
    match scan_messages(root, entries) {
        Some(msgs) => {
            outbox.send_all(msgs);
            true
        },
        None => false,
    }
}

} // verus!
