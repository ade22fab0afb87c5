//! The fire-and-forget channel mode.
//!
//! No identities, no retransmission, no reorder buffer: a message is written
//! into exactly one packet and forgotten, so it is lost if that packet is
//! lost.  The receiver appends whatever arrives, in arrival order.

use vstd::prelude::*;
use crate::bits::{BitReader, BitWriter, SerdeErr, suffix_of};
use crate::codec::{EntryView, WireEntry, entries_view, enc_block, msgs_of, parse_block,
    read_block, write_block, block_wf};
use crate::message::{Manifest, Message, MessageView};
use crate::MessageId;

verus! {

/// The entries an unreliable queue contributes to a packet: no identities on
/// the wire, so every entry carries identity zero.
pub open spec fn unreliable_entries(msgs: Seq<MessageView>) -> Seq<EntryView> {
    msgs.map_values(|m: MessageView| EntryView { id: 0, msg: m })
}

/// What an unreliable receiver holds after a run of messages arrives: it
/// appends every arrival, in arrival order, and invents nothing.
pub open spec fn unreliable_received(incoming: Seq<MessageView>, arrivals: Seq<MessageView>) -> Seq<
    MessageView,
> {
    incoming + arrivals
}

/// Unreliable fidelity: starting empty, the receiver's drain order is exactly
/// the arrival order, so whenever the arrivals are drawn from what was sent —
/// in any order, with any losses — the application observes a sub-multiset of
/// the sent messages, never more.  No retransmission exists on this mode:
/// the sender's queue is emptied by the write that first carries it.
pub proof fn lemma_unreliable_fidelity(arrivals: Seq<MessageView>, sent: Seq<MessageView>)
    requires
        arrivals.to_multiset().subset_of(sent.to_multiset()),
    ensures
        unreliable_received(Seq::<MessageView>::empty(), arrivals) == arrivals,
        unreliable_received(Seq::<MessageView>::empty(), arrivals).to_multiset().subset_of(
            sent.to_multiset(),
        ),
{
    assert(Seq::<MessageView>::empty() + arrivals =~= arrivals);
}

/// Dropping consumed entries from the front commutes with taking views.
proof fn lemma_entries_view_skip(v: Seq<WireEntry>, k: int)
    requires
        0 <= k <= v.len(),
    ensures
        entries_view(v.skip(k)) == entries_view(v).skip(k),
{
    assert(entries_view(v.skip(k)) =~= entries_view(v).skip(k));
}

/// Dropping written messages from the front commutes with taking views.
proof fn lemma_messages_view_skip(v: Seq<Message>, k: int)
    requires
        0 <= k <= v.len(),
    ensures
        v.skip(k).map_values(|m: Message| m@) == v.map_values(|m: Message| m@).skip(k),
{
    assert(v.skip(k).map_values(|m: Message| m@) =~= v.map_values(|m: Message| m@).skip(k));
}

/// Receive side of the fire-and-forget mode: an unordered ready queue.
pub struct UnorderedUnreliableReceiver {
    incoming_messages: Vec<Message>,
}

impl View for UnorderedUnreliableReceiver {
    type V = Seq<MessageView>;

    closed spec fn view(&self) -> Seq<MessageView> {
        self.incoming_messages@.map_values(|m: Message| m@)
    }
}

impl UnorderedUnreliableReceiver {
    /// An empty ready queue.
    pub fn new() -> (r: Self)
        ensures
            r@ == Seq::<MessageView>::empty(),
    {
        let r = UnorderedUnreliableReceiver { incoming_messages: Vec::new() };
        proof {
            assert(r@ =~= Seq::<MessageView>::empty());
        }
        r
    }

    /// Hands one decoded message to the ready queue.
    pub fn recv_message(&mut self, message: Message)
        ensures
            final(self)@ == old(self)@.push(message@),
    {
        self.incoming_messages.push(message);
        proof {
            assert(self@ =~= old(self)@.push(message@));
        }
    }

    /// Decodes this channel's block from an incoming packet and enqueues
    /// every decoded message; a malformed block fails without touching the
    /// queue.
    pub fn read_messages(&mut self, reader: &mut BitReader, manifest: &Manifest) -> (r: Result<
        (),
        SerdeErr,
    >)
        ensures
            match parse_block(old(reader)@, false, manifest@) {
                Some((es, c)) => r is Ok && final(self)@ == unreliable_received(
                    old(self)@,
                    msgs_of(es),
                ) && final(reader)@ == old(reader)@.skip(c),
                None => r is Err && final(self)@ == old(self)@ && suffix_of(
                    final(reader)@,
                    old(reader)@,
                ),
            },
    {
        let entries = match read_block(reader, false, manifest) {
            Ok(v) => v,
            Err(e) => {
                return Err(e);
            },
        };
        let ghost es = entries_view(entries@);
        let ghost start = self@;
        let mut entries = entries;
        let total = entries.len();
        let mut i: usize = 0;
        proof {
            assert(start + msgs_of(es.take(0)) =~= start);
        }
        while entries.len() > 0
            invariant
                i + entries@.len() == es.len(),
                es.len() == total,
                entries_view(entries@) =~= es.skip(i as int),
                self@ == start + msgs_of(es.take(i as int)),
            decreases entries@.len(),
        {
            let ghost pre = entries@;
            let entry = entries.remove(0);
            proof {
                assert(entries_view(pre)[0] == pre[0]@);
                assert(entry@ == es[i as int]);
                assert(entries@ =~= pre.skip(1));
                lemma_entries_view_skip(pre, 1);
                assert(es.skip(i as int).skip(1) =~= es.skip(i + 1));
                assert(entries_view(entries@) =~= es.skip(i + 1));
                assert(msgs_of(es.take(i as int)).push(es[i as int].msg) =~= msgs_of(
                    es.take(i + 1),
                ));
                assert(start + msgs_of(es.take(i as int)).push(es[i as int].msg) =~= (start
                    + msgs_of(es.take(i as int))).push(es[i as int].msg));
            }
            self.recv_message(entry.message);
            i = i + 1;
        }
        proof {
            assert(es.take(es.len() as int) =~= es);
        }
        Ok(())
    }

    /// Drains everything currently deliverable, in arrival order.
    pub fn collect_incoming_messages(&mut self) -> (r: Vec<Message>)
        ensures
            r@.map_values(|m: Message| m@) == old(self)@,
            final(self)@ == Seq::<MessageView>::empty(),
    {
        let mut out: Vec<Message> = Vec::new();
        std::mem::swap(&mut out, &mut self.incoming_messages);
        proof {
            assert(self@ =~= Seq::<MessageView>::empty());
        }
        out
    }
}

/// The mathematical state of a fire-and-forget channel.
pub ghost struct UnorderedUnreliableChannelView {
    pub outgoing: Seq<MessageView>,
    pub incoming: Seq<MessageView>,
}

/// One fire-and-forget channel: a transient send queue and the receiver.
pub struct UnorderedUnreliableChannel {
    outgoing_messages: Vec<Message>,
    receiver: UnorderedUnreliableReceiver,
}

impl View for UnorderedUnreliableChannel {
    type V = UnorderedUnreliableChannelView;

    closed spec fn view(&self) -> UnorderedUnreliableChannelView {
        UnorderedUnreliableChannelView {
            outgoing: self.outgoing_messages@.map_values(|m: Message| m@),
            incoming: self.receiver@,
        }
    }
}

impl UnorderedUnreliableChannel {
    /// The channel fits the wire format: the queue fits one count header and
    /// every queued payload fits its length prefix.
    pub open spec fn wf(self) -> bool {
        &&& self@.outgoing.len() <= 0xFFFF
        &&& forall|i: int| 0 <= i < self@.outgoing.len() ==> (#[trigger] self@.outgoing[i]).wf()
    }

    /// A fresh channel with empty queues.
    pub fn new() -> (r: Self)
        ensures
            r@.outgoing == Seq::<MessageView>::empty(),
            r@.incoming == Seq::<MessageView>::empty(),
            r.wf(),
    {
        let r = UnorderedUnreliableChannel {
            outgoing_messages: Vec::new(),
            receiver: UnorderedUnreliableReceiver::new(),
        };
        proof {
            assert(r@.outgoing =~= Seq::<MessageView>::empty());
        }
        r
    }

    /// Enqueues a message for the next packet; it will be written once and
    /// never kept.  A queue already holding as many messages as the count
    /// header can carry drops the message instead of corrupting the wire.
    pub fn send_message(&mut self, message: Message)
        requires
            old(self).wf(),
            message@.wf(),
        ensures
            final(self).wf(),
            final(self)@.outgoing == if old(self)@.outgoing.len() < 0xFFFF {
                old(self)@.outgoing.push(message@)
            } else {
                old(self)@.outgoing
            },
            final(self)@.incoming == old(self)@.incoming,
    {
        if self.outgoing_messages.len() < 0xFFFF {
            self.outgoing_messages.push(message);
            proof {
                assert(self@.outgoing =~= old(self)@.outgoing.push(message@));
            }
        }
    }

    /// Whether the next packet would carry anything from this channel.
    pub fn has_outgoing_messages(&self) -> (r: bool)
        ensures
            r == (self@.outgoing.len() > 0),
    {
        self.outgoing_messages.len() > 0
    }

    /// Writes every queued message into the packet and forgets them; with an
    /// empty queue nothing is written and the caller owes the zero header.
    /// No identities are tracked, so a successful write reports none.
    pub fn write_messages(&mut self, writer: &mut BitWriter) -> (r: Option<Vec<MessageId>>)
        requires
            old(self).wf(),
        ensures
            final(self).wf(),
            final(self)@.incoming == old(self)@.incoming,
            old(self)@.outgoing.len() == 0 ==> r is None && final(self)@ == old(self)@
                && final(writer)@ == old(writer)@,
            old(self)@.outgoing.len() > 0 ==> (r matches Some(ids) && ids@ == Seq::<u16>::empty())
                && final(self)@.outgoing == Seq::<MessageView>::empty()
                && final(writer)@ == old(writer)@ + enc_block(
                unreliable_entries(old(self)@.outgoing),
                false,
            ),
    {
        if self.outgoing_messages.len() == 0 {
            return None;
        }
        let ghost msgs = self@.outgoing;
        let total = self.outgoing_messages.len();
        let mut entries: Vec<WireEntry> = Vec::new();
        let mut i: usize = 0;
        while self.outgoing_messages.len() > 0
            invariant
                i + self.outgoing_messages@.len() == msgs.len(),
                msgs.len() == total,
                self.outgoing_messages@.map_values(|m: Message| m@) =~= msgs.skip(i as int),
                entries_view(entries@) =~= unreliable_entries(msgs.take(i as int)),
                self@.incoming == old(self)@.incoming,
                forall|k: int| 0 <= k < msgs.len() ==> (#[trigger] msgs[k]).wf(),
            decreases self.outgoing_messages@.len(),
        {
            let ghost pre = self.outgoing_messages@;
            let m = self.outgoing_messages.remove(0);
            proof {
                assert(pre.map_values(|m: Message| m@)[0] == pre[0]@);
                assert(m@ == msgs[i as int]);
                assert(self.outgoing_messages@ =~= pre.skip(1));
                lemma_messages_view_skip(pre, 1);
                assert(msgs.skip(i as int).skip(1) =~= msgs.skip(i + 1));
                assert(self.outgoing_messages@.map_values(|m: Message| m@) =~= msgs.skip(i + 1));
                assert(entries_view(entries@).push(EntryView { id: 0, msg: m@ })
                    =~= unreliable_entries(msgs.take(i + 1)));
                assert(entries_view(entries@.push(WireEntry { id: 0, message: m }))
                    =~= entries_view(entries@).push(EntryView { id: 0, msg: m@ }));
            }
            entries.push(WireEntry { id: 0, message: m });
            i = i + 1;
        }
        proof {
            assert(msgs.take(msgs.len() as int) =~= msgs);
            assert(block_wf(entries_view(entries@)));
        }
        write_block(writer, false, &entries);
        proof {
            assert(self@.outgoing =~= Seq::<MessageView>::empty());
        }
        Some(Vec::new())
    }

    /// Applies a decoded run of arrivals: every message goes straight to the
    /// ready queue, identities are not carried on this mode.
    pub fn apply_incoming(&mut self, entries: Vec<WireEntry>)
        requires
            old(self).wf(),
        ensures
            final(self).wf(),
            final(self)@.outgoing == old(self)@.outgoing,
            final(self)@.incoming == unreliable_received(
                old(self)@.incoming,
                msgs_of(entries_view(entries@)),
            ),
    {
        let ghost es = entries_view(entries@);
        let ghost start = self@.incoming;
        let total = entries.len();
        let mut entries = entries;
        let mut i: usize = 0;
        proof {
            assert(start + msgs_of(es.take(0)) =~= start);
        }
        while entries.len() > 0
            invariant
                i + entries@.len() == total,
                es.len() == total,
                entries_view(entries@) =~= es.skip(i as int),
                self@.incoming == start + msgs_of(es.take(i as int)),
                self@.outgoing == old(self)@.outgoing,
            decreases entries@.len(),
        {
            let ghost pre = entries@;
            let entry = entries.remove(0);
            proof {
                assert(entries_view(pre)[0] == pre[0]@);
                assert(entry@ == es[i as int]);
                assert(entries@ =~= pre.skip(1));
                lemma_entries_view_skip(pre, 1);
                assert(es.skip(i as int).skip(1) =~= es.skip(i + 1));
                assert(entries_view(entries@) =~= es.skip(i + 1));
                assert(msgs_of(es.take(i as int)).push(es[i as int].msg) =~= msgs_of(
                    es.take(i + 1),
                ));
                assert(start + msgs_of(es.take(i as int)).push(es[i as int].msg) =~= (start
                    + msgs_of(es.take(i as int))).push(es[i as int].msg));
            }
            self.receiver.recv_message(entry.message);
            i = i + 1;
        }
        proof {
            assert(es.take(es.len() as int) =~= es);
        }
    }

    /// Decodes this channel's block from an incoming packet; arrivals go
    /// straight to the ready queue.
    pub fn read_messages(&mut self, reader: &mut BitReader, manifest: &Manifest) -> (r: Result<
        (),
        SerdeErr,
    >)
        requires
            old(self).wf(),
        ensures
            final(self).wf(),
            final(self)@.outgoing == old(self)@.outgoing,
            match parse_block(old(reader)@, false, manifest@) {
                Some((es, c)) => r is Ok && final(self)@.incoming == unreliable_received(
                    old(self)@.incoming,
                    msgs_of(es),
                ) && final(reader)@ == old(reader)@.skip(c),
                None => r is Err && final(self)@ == old(self)@ && suffix_of(
                    final(reader)@,
                    old(reader)@,
                ),
            },
    {
        self.receiver.read_messages(reader, manifest)
    }

    /// Drains everything deliverable, in arrival order.
    pub fn collect_incoming_messages(&mut self) -> (r: Vec<Message>)
        requires
            old(self).wf(),
        ensures
            final(self).wf(),
            r@.map_values(|m: Message| m@) == old(self)@.incoming,
            final(self)@.incoming == Seq::<MessageView>::empty(),
            final(self)@.outgoing == old(self)@.outgoing,
    {
        self.receiver.collect_incoming_messages()
    }
}

} // verus!
