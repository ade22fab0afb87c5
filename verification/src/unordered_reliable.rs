//! The guaranteed-but-unordered channel mode.
//!
//! The sender is the reliable sender: identities on the wire, resend until
//! acknowledged.  At-least-once delivery means duplicates can arrive — a
//! resend racing a late acknowledgment — so the receiver remembers the
//! identities it has accepted and hands each identity to the application at
//! most once, in arrival order.

use vstd::prelude::*;
use crate::bits::{BitReader, BitWriter, SerdeErr, suffix_of};
use crate::codec::{EntryView, WireEntry, entries_view, enc_block, parse_block, read_block};
use crate::channel_config::ReliableSettings;
use crate::message::{Manifest, Message, MessageView};
use crate::reliable_sender::{ReliableSender, ReliableSenderView, ack_transition,
    collect_transition, enqueue_transition, has_ready_record, mark_sent, ready_entries, ready_ids,
    sender_wf};
use crate::MessageId;

verus! {

/// The mathematical state of a deduplicating receiver: the identities ever
/// accepted, and the messages not yet drained.
pub ghost struct UnorderedReliableReceiverView {
    pub seen: Seq<u16>,
    pub incoming: Seq<MessageView>,
}

/// One arrival: an identity seen before is discarded — it must never reach
/// the application twice — and a new identity is accepted and remembered.
pub open spec fn unordered_recv_one(
    s: UnorderedReliableReceiverView,
    e: EntryView,
) -> UnorderedReliableReceiverView {
    if s.seen.contains(e.id) {
        s
    } else {
        UnorderedReliableReceiverView {
            seen: s.seen.push(e.id),
            incoming: s.incoming.push(e.msg),
        }
    }
}

/// A run of arrivals, processed front to back.
pub open spec fn unordered_recv_all(
    s: UnorderedReliableReceiverView,
    es: Seq<EntryView>,
) -> UnorderedReliableReceiverView
    decreases es.len(),
{
    if es.len() == 0 {
        s
    } else {
        unordered_recv_all(unordered_recv_one(s, es[0]), es.skip(1))
    }
}

/// Receive side of the guaranteed-but-unordered mode.
pub struct UnorderedReliableReceiver {
    received_message_ids: Vec<MessageId>,
    incoming_messages: Vec<Message>,
}

impl View for UnorderedReliableReceiver {
    type V = UnorderedReliableReceiverView;

    closed spec fn view(&self) -> UnorderedReliableReceiverView {
        UnorderedReliableReceiverView {
            seen: self.received_message_ids@,
            incoming: self.incoming_messages@.map_values(|m: Message| m@),
        }
    }
}

impl UnorderedReliableReceiver {
    /// A fresh receiver: nothing seen, nothing deliverable.
    pub fn new() -> (r: Self)
        ensures
            r@.seen == Seq::<u16>::empty(),
            r@.incoming == Seq::<MessageView>::empty(),
    {
        let r = UnorderedReliableReceiver {
            received_message_ids: Vec::new(),
            incoming_messages: Vec::new(),
        };
        proof {
            assert(r@.incoming =~= Seq::<MessageView>::empty());
        }
        r
    }

    /// Handles one arrival: accepts a new identity, discards a duplicate.
    pub fn recv_entry(&mut self, entry: WireEntry)
        ensures
            final(self)@ == unordered_recv_one(old(self)@, entry@),
    {
        let ghost seen = self@.seen;
        let n = self.received_message_ids.len();
        let mut i: usize = 0;
        while i < n
            invariant
                n == seen.len(),
                seen == self.received_message_ids@,
                i <= n,
                forall|k: int| 0 <= k < i ==> seen[k] != entry.id,
                self@ == old(self)@,
            decreases n - i,
        {
            if self.received_message_ids[i] == entry.id {
                proof {
                    assert(seen.contains(entry@.id));
                }
                return ;
            }
            i = i + 1;
        }
        proof {
            assert(!seen.contains(entry@.id));
        }
        self.received_message_ids.push(entry.id);
        self.incoming_messages.push(entry.message);
        proof {
            assert(self@.incoming =~= old(self)@.incoming.push(entry@.msg));
        }
    }

    /// Applies a decoded run of arrivals, front to back.
    pub fn apply_incoming(&mut self, entries: Vec<WireEntry>)
        ensures
            final(self)@ == unordered_recv_all(old(self)@, entries_view(entries@)),
    {
        let ghost es = entries_view(entries@);
        let total = entries.len();
        let mut entries = entries;
        let mut i: usize = 0;
        proof {
            assert(es.skip(0) =~= es);
        }
        while entries.len() > 0
            invariant
                i + entries@.len() == total,
                es.len() == total,
                entries_view(entries@) =~= es.skip(i as int),
                unordered_recv_all(self@, es.skip(i as int)) == unordered_recv_all(old(self)@, es),
            decreases entries@.len(),
        {
            let ghost pre = entries@;
            let entry = entries.remove(0);
            proof {
                assert(entries_view(pre)[0] == pre[0]@);
                assert(entry@ == es[i as int]);
                assert(entries_view(entries@) =~= entries_view(pre).skip(1));
                assert(entries_view(pre).skip(1) =~= es.skip(i + 1));
            }
            self.recv_entry(entry);
            i = i + 1;
        }
    }

    /// Decodes this channel's block and applies it; a malformed block fails
    /// without touching the receiver.
    pub fn read_messages(&mut self, reader: &mut BitReader, manifest: &Manifest) -> (r: Result<
        (),
        SerdeErr,
    >)
        ensures
            match parse_block(old(reader)@, true, manifest@) {
                Some((es, c)) => r is Ok && final(self)@ == unordered_recv_all(old(self)@, es)
                    && final(reader)@ == old(reader)@.skip(c),
                None => r is Err && final(self)@ == old(self)@ && suffix_of(
                    final(reader)@,
                    old(reader)@,
                ),
            },
    {
        let entries = match read_block(reader, true, manifest) {
            Ok(v) => v,
            Err(e) => {
                return Err(e);
            },
        };
        self.apply_incoming(entries);
        Ok(())
    }

    /// Drains everything currently deliverable, in arrival order; the seen
    /// identities are kept, so later duplicates stay dead.
    pub fn collect_incoming_messages(&mut self) -> (r: Vec<Message>)
        ensures
            r@.map_values(|m: Message| m@) == old(self)@.incoming,
            final(self)@.incoming == Seq::<MessageView>::empty(),
            final(self)@.seen == old(self)@.seen,
    {
        let mut out: Vec<Message> = Vec::new();
        std::mem::swap(&mut out, &mut self.incoming_messages);
        proof {
            assert(self@.incoming =~= Seq::<MessageView>::empty());
        }
        out
    }
}

/// The mathematical state of a guaranteed-but-unordered channel.
pub ghost struct UnorderedReliableChannelView {
    pub sender: ReliableSenderView,
    pub receiver: UnorderedReliableReceiverView,
}

/// One guaranteed-but-unordered channel: a reliable sender and a
/// deduplicating receiver.
pub struct UnorderedReliableChannel {
    sender: ReliableSender,
    receiver: UnorderedReliableReceiver,
}

impl View for UnorderedReliableChannel {
    type V = UnorderedReliableChannelView;

    closed spec fn view(&self) -> UnorderedReliableChannelView {
        UnorderedReliableChannelView { sender: self.sender@, receiver: self.receiver@ }
    }
}

impl UnorderedReliableChannel {
    /// The channel is as well-formed as its sender.
    pub open spec fn wf(self) -> bool {
        sender_wf(self@.sender)
    }

    /// A fresh channel with the given tuning.
    pub fn new(settings: &ReliableSettings) -> (r: Self)
        ensures
            r.wf(),
            r@.sender == (ReliableSenderView {
                next_id: 0,
                records: Seq::<crate::reliable_sender::RecordView>::empty(),
                interval: settings.resend_interval,
                now: 0,
            }),
            r@.receiver.seen == Seq::<u16>::empty(),
            r@.receiver.incoming == Seq::<MessageView>::empty(),
    {
        UnorderedReliableChannel {
            sender: ReliableSender::new(settings.resend_interval),
            receiver: UnorderedReliableReceiver::new(),
        }
    }

    /// Accepts a message for guaranteed transmission.
    pub fn send_message(&mut self, message: Message)
        requires
            old(self).wf(),
            message@.wf(),
        ensures
            final(self).wf(),
            final(self)@.sender == enqueue_transition(old(self)@.sender, message@),
            final(self)@.receiver == old(self)@.receiver,
    {
        self.sender.send_message(message);
    }

    /// One tick: re-arms overdue records.
    pub fn collect_outgoing_messages(&mut self)
        requires
            old(self).wf(),
        ensures
            final(self).wf(),
            final(self)@.sender == collect_transition(old(self)@.sender),
            final(self)@.receiver == old(self)@.receiver,
    {
        self.sender.collect_outgoing_messages();
    }

    /// Whether the next write would carry anything.
    pub fn has_outgoing_messages(&self) -> (r: bool)
        ensures
            r == has_ready_record(self@.sender.records),
    {
        self.sender.has_outgoing_messages()
    }

    /// Writes every ready record, identities included, and reports them.
    pub fn write_messages(&mut self, writer: &mut BitWriter) -> (r: Option<Vec<MessageId>>)
        requires
            old(self).wf(),
        ensures
            final(self).wf(),
            final(self)@.receiver == old(self)@.receiver,
            final(self)@.sender.next_id == old(self)@.sender.next_id,
            final(self)@.sender.interval == old(self)@.sender.interval,
            final(self)@.sender.now == old(self)@.sender.now,
            ready_entries(old(self)@.sender.records).len() == 0 ==> r is None && final(self)@
                == old(self)@ && final(writer)@ == old(writer)@,
            ready_entries(old(self)@.sender.records).len() > 0 ==> (r matches Some(ids) && ids@
                == ready_ids(old(self)@.sender.records)) && final(self)@.sender.records
                == mark_sent(old(self)@.sender.records, old(self)@.sender.now)
                && final(writer)@ == old(writer)@ + enc_block(
                ready_entries(old(self)@.sender.records),
                true,
            ),
    {
        self.sender.write_messages(writer)
    }

    /// Forwards a delivery confirmation: the acknowledged record leaves.
    pub fn notify_message_delivered(&mut self, message_id: MessageId)
        requires
            old(self).wf(),
        ensures
            final(self).wf(),
            final(self)@.sender.records == ack_transition(old(self)@.sender.records, message_id),
            final(self)@.sender.next_id == old(self)@.sender.next_id,
            final(self)@.sender.interval == old(self)@.sender.interval,
            final(self)@.sender.now == old(self)@.sender.now,
            final(self)@.receiver == old(self)@.receiver,
    {
        self.sender.notify_message_delivered(message_id);
    }

    /// Applies a decoded run of arrivals to the receiver.
    pub fn apply_incoming(&mut self, entries: Vec<WireEntry>)
        requires
            old(self).wf(),
        ensures
            final(self).wf(),
            final(self)@.sender == old(self)@.sender,
            final(self)@.receiver == unordered_recv_all(
                old(self)@.receiver,
                entries_view(entries@),
            ),
    {
        self.receiver.apply_incoming(entries);
    }

    /// Decodes this channel's block from an incoming packet and applies it.
    pub fn read_messages(&mut self, reader: &mut BitReader, manifest: &Manifest) -> (r: Result<
        (),
        SerdeErr,
    >)
        requires
            old(self).wf(),
        ensures
            final(self).wf(),
            final(self)@.sender == old(self)@.sender,
            match parse_block(old(reader)@, true, manifest@) {
                Some((es, c)) => r is Ok && final(self)@.receiver == unordered_recv_all(
                    old(self)@.receiver,
                    es,
                ) && final(reader)@ == old(reader)@.skip(c),
                None => r is Err && final(self)@ == old(self)@ && suffix_of(
                    final(reader)@,
                    old(reader)@,
                ),
            },
    {
        self.receiver.read_messages(reader, manifest)
    }

    /// Drains everything deliverable, in arrival order.
    pub fn collect_incoming_messages(&mut self) -> (r: Vec<Message>)
        requires
            old(self).wf(),
        ensures
            final(self).wf(),
            r@.map_values(|m: Message| m@) == old(self)@.receiver.incoming,
            final(self)@.receiver.incoming == Seq::<MessageView>::empty(),
            final(self)@.receiver.seen == old(self)@.receiver.seen,
            final(self)@.sender == old(self)@.sender,
    {
        self.receiver.collect_incoming_messages()
    }
}

} // verus!
