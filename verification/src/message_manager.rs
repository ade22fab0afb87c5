//! The channel multiplexer.
//!
//! The manager owns one channel state machine per configured channel, routes
//! application sends to them, packs every channel's ready messages into one
//! outgoing packet in the fixed configuration order — the same order the
//! peer uses to read — and keeps, per written packet, which message
//! identities it carried on which channel, so that a delivery notification
//! from the transport reaches the right channel's acknowledgment handler.

use vstd::prelude::*;
use crate::bits::{BitReader, BitWriter, SerdeErr, suffix_of, lemma_suffix_refl,
    lemma_suffix_trans, lemma_skip_is_suffix};
use crate::codec::{EntryView, WireEntry, entries_view, enc_count, parse_block, read_block,
    write_list_header, lemma_parse_block_consumed};
use crate::channel_config::{ChannelConfig, ChannelMode, indices_unique};
use crate::message::{Manifest, Message, MessageView};
use crate::ordered_reliable::{OrderedReliableChannel, OrderedReliableChannelView,
    OrderedReceiverView, ordered_recv_all, receiver_wf, initial_receiver};
use crate::reliable_sender::{ReliableSenderView, RecordView, ack_transition, collect_transition,
    enqueue_transition, has_ready_record, mark_sent, ready_entries, ready_ids, sender_wf,
    lemma_ready_entries_empty};
use crate::unordered_reliable::{UnorderedReliableChannel, UnorderedReliableChannelView,
    UnorderedReliableReceiverView, unordered_recv_all};
use crate::unordered_unreliable::{UnorderedUnreliableChannel, UnorderedUnreliableChannelView,
    unreliable_entries, unreliable_received};
use crate::codec::{enc_block, msgs_of};
use crate::{ChannelId, MessageId, PacketIndex};

verus! {

/// One channel, in whichever of the three modes it was configured.
pub enum Channel {
    UnorderedUnreliable(UnorderedUnreliableChannel),
    UnorderedReliable(UnorderedReliableChannel),
    OrderedReliable(OrderedReliableChannel),
}

/// The mathematical state of one channel.
pub ghost enum ChannelView {
    UnorderedUnreliable(UnorderedUnreliableChannelView),
    UnorderedReliable(UnorderedReliableChannelView),
    OrderedReliable(OrderedReliableChannelView),
}

impl View for Channel {
    type V = ChannelView;

    closed spec fn view(&self) -> ChannelView {
        match self {
            Channel::UnorderedUnreliable(c) => ChannelView::UnorderedUnreliable(c@),
            Channel::UnorderedReliable(c) => ChannelView::UnorderedReliable(c@),
            Channel::OrderedReliable(c) => ChannelView::OrderedReliable(c@),
        }
    }
}

/// A channel's own invariant, by mode.
pub open spec fn channel_view_wf(c: ChannelView) -> bool {
    match c {
        ChannelView::UnorderedUnreliable(v) => v.outgoing.len() <= 0xFFFF && forall|i: int|
            0 <= i < v.outgoing.len() ==> (#[trigger] v.outgoing[i]).wf(),
        ChannelView::UnorderedReliable(v) => sender_wf(v.sender),
        ChannelView::OrderedReliable(v) => sender_wf(v.sender) && receiver_wf(v.receiver),
    }
}

/// One configured channel and its identity, in configuration order.
pub struct ChannelSlot {
    pub index: ChannelId,
    pub channel: Channel,
}

/// The mathematical state of one slot.
pub ghost struct ChannelSlotView {
    pub index: u16,
    pub channel: ChannelView,
}

impl View for ChannelSlot {
    type V = ChannelSlotView;

    open spec fn view(&self) -> ChannelSlotView {
        ChannelSlotView { index: self.index, channel: self.channel@ }
    }
}

/// One row of the packet-to-message map: the given packet carried the given
/// message identity on the given channel.
#[derive(Clone, Copy)]
pub struct PacketRecord {
    pub packet: PacketIndex,
    pub channel: ChannelId,
    pub message: MessageId,
}

/// The mathematical value of one row.
pub ghost struct PacketRecordView {
    pub packet: u16,
    pub channel: u16,
    pub message: u16,
}

impl View for PacketRecord {
    type V = PacketRecordView;

    open spec fn view(&self) -> PacketRecordView {
        PacketRecordView { packet: self.packet, channel: self.channel, message: self.message }
    }
}

/// The views of the configured channels.
pub open spec fn slots_view(v: Seq<ChannelSlot>) -> Seq<ChannelSlotView> {
    v.map_values(|s: ChannelSlot| s@)
}

/// The views of the packet-to-message rows.
pub open spec fn map_view(v: Seq<PacketRecord>) -> Seq<PacketRecordView> {
    v.map_values(|r: PacketRecord| r@)
}

/// The mathematical state of the manager.
pub ghost struct MessageManagerView {
    pub channels: Seq<ChannelSlotView>,
    pub packet_map: Seq<PacketRecordView>,
}

// ---------------------------------------------------------------------------
// Per-channel transitions, by mode
// ---------------------------------------------------------------------------

/// A fresh channel for a configured mode.
pub open spec fn initial_channel(mode: ChannelMode) -> ChannelView {
    match mode {
        ChannelMode::UnorderedUnreliable => ChannelView::UnorderedUnreliable(
            UnorderedUnreliableChannelView {
                outgoing: Seq::<MessageView>::empty(),
                incoming: Seq::<MessageView>::empty(),
            },
        ),
        ChannelMode::UnorderedReliable(st) => ChannelView::UnorderedReliable(
            UnorderedReliableChannelView {
                sender: ReliableSenderView {
                    next_id: 0,
                    records: Seq::<RecordView>::empty(),
                    interval: st.resend_interval,
                    now: 0,
                },
                receiver: UnorderedReliableReceiverView {
                    seen: Seq::<u16>::empty(),
                    incoming: Seq::<MessageView>::empty(),
                },
            },
        ),
        ChannelMode::OrderedReliable(st) => ChannelView::OrderedReliable(
            OrderedReliableChannelView {
                sender: ReliableSenderView {
                    next_id: 0,
                    records: Seq::<RecordView>::empty(),
                    interval: st.resend_interval,
                    now: 0,
                },
                receiver: initial_receiver(0),
            },
        ),
    }
}

/// Accepting one message, by mode.
pub open spec fn channel_send(c: ChannelView, m: MessageView) -> ChannelView {
    match c {
        ChannelView::UnorderedUnreliable(v) => ChannelView::UnorderedUnreliable(
            UnorderedUnreliableChannelView {
                outgoing: if v.outgoing.len() < 0xFFFF {
                    v.outgoing.push(m)
                } else {
                    v.outgoing
                },
                ..v
            },
        ),
        ChannelView::UnorderedReliable(v) => ChannelView::UnorderedReliable(
            UnorderedReliableChannelView { sender: enqueue_transition(v.sender, m), ..v },
        ),
        ChannelView::OrderedReliable(v) => ChannelView::OrderedReliable(
            OrderedReliableChannelView { sender: enqueue_transition(v.sender, m), ..v },
        ),
    }
}

/// One tick, by mode: reliable senders re-arm overdue records; the
/// unreliable mode has nothing to re-arm.
pub open spec fn channel_collect(c: ChannelView) -> ChannelView {
    match c {
        ChannelView::UnorderedUnreliable(v) => c,
        ChannelView::UnorderedReliable(v) => ChannelView::UnorderedReliable(
            UnorderedReliableChannelView { sender: collect_transition(v.sender), ..v },
        ),
        ChannelView::OrderedReliable(v) => ChannelView::OrderedReliable(
            OrderedReliableChannelView { sender: collect_transition(v.sender), ..v },
        ),
    }
}

/// Whether the next packet would carry anything from this channel.
pub open spec fn channel_has_outgoing(c: ChannelView) -> bool {
    match c {
        ChannelView::UnorderedUnreliable(v) => v.outgoing.len() > 0,
        ChannelView::UnorderedReliable(v) => has_ready_record(v.sender.records),
        ChannelView::OrderedReliable(v) => has_ready_record(v.sender.records),
    }
}

/// Whether this mode carries message identities on the wire.
pub open spec fn channel_with_id(c: ChannelView) -> bool {
    !(c is UnorderedUnreliable)
}

/// The bytes this channel contributes to a packet: its block, or the zero
/// count header when it has nothing ready.
pub open spec fn channel_write_bytes(c: ChannelView) -> Seq<u8> {
    match c {
        ChannelView::UnorderedUnreliable(v) => if v.outgoing.len() == 0 {
            enc_count(0)
        } else {
            enc_block(unreliable_entries(v.outgoing), false)
        },
        ChannelView::UnorderedReliable(v) => if ready_entries(v.sender.records).len() == 0 {
            enc_count(0)
        } else {
            enc_block(ready_entries(v.sender.records), true)
        },
        ChannelView::OrderedReliable(v) => if ready_entries(v.sender.records).len() == 0 {
            enc_count(0)
        } else {
            enc_block(ready_entries(v.sender.records), true)
        },
    }
}

/// The channel after contributing to a packet: the unreliable queue is
/// forgotten, written records rest until their resend interval elapses.
pub open spec fn channel_after_write(c: ChannelView) -> ChannelView {
    match c {
        ChannelView::UnorderedUnreliable(v) => ChannelView::UnorderedUnreliable(
            UnorderedUnreliableChannelView { outgoing: Seq::<MessageView>::empty(), ..v },
        ),
        ChannelView::UnorderedReliable(v) => ChannelView::UnorderedReliable(
            UnorderedReliableChannelView {
                sender: ReliableSenderView {
                    records: mark_sent(v.sender.records, v.sender.now),
                    ..v.sender
                },
                ..v
            },
        ),
        ChannelView::OrderedReliable(v) => ChannelView::OrderedReliable(
            OrderedReliableChannelView {
                sender: ReliableSenderView {
                    records: mark_sent(v.sender.records, v.sender.now),
                    ..v.sender
                },
                ..v
            },
        ),
    }
}

/// The identities this channel's contribution carries, in written order;
/// none on the unreliable mode, which tracks nothing.
pub open spec fn channel_written_ids(c: ChannelView) -> Seq<u16> {
    match c {
        ChannelView::UnorderedUnreliable(v) => Seq::<u16>::empty(),
        ChannelView::UnorderedReliable(v) => ready_ids(v.sender.records),
        ChannelView::OrderedReliable(v) => ready_ids(v.sender.records),
    }
}

/// The channel after its block of a packet is decoded, by mode.
pub open spec fn channel_read(c: ChannelView, es: Seq<EntryView>) -> ChannelView {
    match c {
        ChannelView::UnorderedUnreliable(v) => ChannelView::UnorderedUnreliable(
            UnorderedUnreliableChannelView {
                incoming: unreliable_received(v.incoming, msgs_of(es)),
                ..v
            },
        ),
        ChannelView::UnorderedReliable(v) => ChannelView::UnorderedReliable(
            UnorderedReliableChannelView { receiver: unordered_recv_all(v.receiver, es), ..v },
        ),
        ChannelView::OrderedReliable(v) => ChannelView::OrderedReliable(
            OrderedReliableChannelView { receiver: ordered_recv_all(v.receiver, es), ..v },
        ),
    }
}

/// What this channel holds ready for the application, in delivery order.
pub open spec fn channel_incoming(c: ChannelView) -> Seq<MessageView> {
    match c {
        ChannelView::UnorderedUnreliable(v) => v.incoming,
        ChannelView::UnorderedReliable(v) => v.receiver.incoming,
        ChannelView::OrderedReliable(v) => v.receiver.ready,
    }
}

/// The channel after its ready queue is drained.
pub open spec fn channel_clear_incoming(c: ChannelView) -> ChannelView {
    match c {
        ChannelView::UnorderedUnreliable(v) => ChannelView::UnorderedUnreliable(
            UnorderedUnreliableChannelView { incoming: Seq::<MessageView>::empty(), ..v },
        ),
        ChannelView::UnorderedReliable(v) => ChannelView::UnorderedReliable(
            UnorderedReliableChannelView {
                receiver: UnorderedReliableReceiverView {
                    incoming: Seq::<MessageView>::empty(),
                    ..v.receiver
                },
                ..v
            },
        ),
        ChannelView::OrderedReliable(v) => ChannelView::OrderedReliable(
            OrderedReliableChannelView {
                receiver: OrderedReceiverView {
                    ready: Seq::<MessageView>::empty(),
                    ..v.receiver
                },
                ..v
            },
        ),
    }
}

/// Forwarding one acknowledged identity, by mode: the unreliable mode
/// ignores it.
pub open spec fn channel_ack(c: ChannelView, id: u16) -> ChannelView {
    match c {
        ChannelView::UnorderedUnreliable(v) => c,
        ChannelView::UnorderedReliable(v) => ChannelView::UnorderedReliable(
            UnorderedReliableChannelView {
                sender: ReliableSenderView {
                    records: ack_transition(v.sender.records, id),
                    ..v.sender
                },
                ..v
            },
        ),
        ChannelView::OrderedReliable(v) => ChannelView::OrderedReliable(
            OrderedReliableChannelView {
                sender: ReliableSenderView {
                    records: ack_transition(v.sender.records, id),
                    ..v.sender
                },
                ..v
            },
        ),
    }
}

// ---------------------------------------------------------------------------
// Manager transitions
// ---------------------------------------------------------------------------

/// Some slot carries the given channel identity.
pub open spec fn has_slot(slots: Seq<ChannelSlotView>, index: u16) -> bool {
    exists|i: int| 0 <= i < slots.len() && (#[trigger] slots[i]).index == index
}

/// The position of the slot with the given channel identity.
pub open spec fn slot_index_of(slots: Seq<ChannelSlotView>, index: u16) -> int {
    choose|i: int| 0 <= i < slots.len() && (#[trigger] slots[i]).index == index
}

/// No two slots share a channel identity.
pub open spec fn slot_indices_unique(slots: Seq<ChannelSlotView>) -> bool {
    forall|i: int, j: int| 0 <= i < j < slots.len() ==> (#[trigger] slots[i]).index != (
    #[trigger] slots[j]).index
}

/// With unique identities the position of an identity is the one that holds
/// it.
pub proof fn lemma_slot_index_unique(slots: Seq<ChannelSlotView>, i: int)
    requires
        slot_indices_unique(slots),
        0 <= i < slots.len(),
    ensures
        slot_index_of(slots, slots[i].index) == i,
{
    let index = slots[i].index;
    assert(has_slot(slots, index));
    let j = slot_index_of(slots, index);
    if i < j {
        assert(slots[i].index != slots[j].index);
    } else if j < i {
        assert(slots[j].index != slots[i].index);
    }
}

/// The manager after a send: the named channel accepts the message; a
/// reference to an unconfigured channel is a silent no-op, not an error.
pub open spec fn manager_send(m: MessageManagerView, index: u16, msg: MessageView) -> MessageManagerView {
    if has_slot(m.channels, index) {
        let i = slot_index_of(m.channels, index);
        MessageManagerView {
            channels: m.channels.update(
                i,
                ChannelSlotView { channel: channel_send(m.channels[i].channel, msg), ..m.channels[i] },
            ),
            ..m
        }
    } else {
        m
    }
}

/// The rows a packet write adds for one slot: one per written identity.
pub open spec fn slot_map_entries(slot: ChannelSlotView, packet: u16) -> Seq<PacketRecordView> {
    Seq::new(
        channel_written_ids(slot.channel).len(),
        |k: int|
            PacketRecordView {
                packet,
                channel: slot.index,
                message: channel_written_ids(slot.channel)[k],
            },
    )
}

/// The bytes of one packet: every channel's contribution, in configuration
/// order.
pub open spec fn write_bytes_of(slots: Seq<ChannelSlotView>) -> Seq<u8>
    decreases slots.len(),
{
    if slots.len() == 0 {
        Seq::<u8>::empty()
    } else {
        channel_write_bytes(slots[0].channel) + write_bytes_of(slots.skip(1))
    }
}

/// The rows a packet write adds, in configuration order.
pub open spec fn map_entries_of(slots: Seq<ChannelSlotView>, packet: u16) -> Seq<PacketRecordView>
    decreases slots.len(),
{
    if slots.len() == 0 {
        Seq::<PacketRecordView>::empty()
    } else {
        slot_map_entries(slots[0], packet) + map_entries_of(slots.skip(1), packet)
    }
}

/// Every channel after a packet write.
pub open spec fn slots_after_write(slots: Seq<ChannelSlotView>) -> Seq<ChannelSlotView> {
    Seq::new(
        slots.len(),
        |i: int| ChannelSlotView { channel: channel_after_write(slots[i].channel), ..slots[i] },
    )
}

/// A packet's wire layout against a channel list: one block per channel, in
/// order, each with or without identities as its mode demands.
pub open spec fn parse_packet(slots: Seq<ChannelSlotView>, b: Seq<u8>, kinds: u16) -> Option<
    (Seq<Seq<EntryView>>, int),
>
    decreases slots.len(),
{
    if slots.len() == 0 {
        Some((Seq::<Seq<EntryView>>::empty(), 0int))
    } else {
        match parse_block(b, channel_with_id(slots[0].channel), kinds) {
            None => None,
            Some((es, c)) => match parse_packet(slots.skip(1), b.skip(c), kinds) {
                None => None,
                Some((blocks, c2)) => Some((seq![es] + blocks, c + c2)),
            },
        }
    }
}

/// Every channel after its block of a packet is decoded.
pub open spec fn slots_after_read(
    slots: Seq<ChannelSlotView>,
    blocks: Seq<Seq<EntryView>>,
) -> Seq<ChannelSlotView> {
    Seq::new(
        slots.len(),
        |i: int| ChannelSlotView { channel: channel_read(slots[i].channel, blocks[i]), ..slots[i] },
    )
}

/// Everything deliverable, tagged with its channel, in configuration order.
pub open spec fn drained_of(slots: Seq<ChannelSlotView>) -> Seq<(u16, MessageView)>
    decreases slots.len(),
{
    if slots.len() == 0 {
        Seq::<(u16, MessageView)>::empty()
    } else {
        Seq::new(
            channel_incoming(slots[0].channel).len(),
            |k: int| (slots[0].index, channel_incoming(slots[0].channel)[k]),
        ) + drained_of(slots.skip(1))
    }
}

/// Every channel after its ready queue is drained.
pub open spec fn slots_after_drain(slots: Seq<ChannelSlotView>) -> Seq<ChannelSlotView> {
    Seq::new(
        slots.len(),
        |i: int| ChannelSlotView { channel: channel_clear_incoming(slots[i].channel), ..slots[i] },
    )
}

/// The rows of the map that name the given packet, in map order.
pub open spec fn map_entries_for(map: Seq<PacketRecordView>, packet: u16) -> Seq<PacketRecordView>
    decreases map.len(),
{
    if map.len() == 0 {
        Seq::<PacketRecordView>::empty()
    } else {
        (if map[0].packet == packet {
            seq![map[0]]
        } else {
            Seq::<PacketRecordView>::empty()
        }) + map_entries_for(map.skip(1), packet)
    }
}

/// The map with every row naming the given packet removed.
pub open spec fn map_without(map: Seq<PacketRecordView>, packet: u16) -> Seq<PacketRecordView>
    decreases map.len(),
{
    if map.len() == 0 {
        Seq::<PacketRecordView>::empty()
    } else {
        (if map[0].packet == packet {
            Seq::<PacketRecordView>::empty()
        } else {
            seq![map[0]]
        }) + map_without(map.skip(1), packet)
    }
}

/// Forwarding one map row to the channel it names; an unconfigured channel
/// identity in a row is a no-op.
pub open spec fn ack_one(slots: Seq<ChannelSlotView>, e: PacketRecordView) -> Seq<ChannelSlotView> {
    if has_slot(slots, e.channel) {
        let i = slot_index_of(slots, e.channel);
        slots.update(
            i,
            ChannelSlotView { channel: channel_ack(slots[i].channel, e.message), ..slots[i] },
        )
    } else {
        slots
    }
}

/// Forwarding a run of map rows, front to back.
pub open spec fn ack_channels(
    slots: Seq<ChannelSlotView>,
    entries: Seq<PacketRecordView>,
) -> Seq<ChannelSlotView>
    decreases entries.len(),
{
    if entries.len() == 0 {
        slots
    } else {
        ack_channels(ack_one(slots, entries[0]), entries.skip(1))
    }
}

/// The manager after a packet is confirmed delivered: every identity that
/// packet carried reaches its channel's acknowledgment handler, and the
/// packet's rows leave the map.
pub open spec fn delivered_transition(m: MessageManagerView, packet: u16) -> MessageManagerView {
    MessageManagerView {
        channels: ack_channels(m.channels, map_entries_for(m.packet_map, packet)),
        packet_map: map_without(m.packet_map, packet),
    }
}

/// The manager after a packet is presumed lost: its rows simply leave the
/// map; reliable channels rediscover the need to resend through their own
/// elapsed-time check at the next tick.
pub open spec fn dropped_transition(m: MessageManagerView, packet: u16) -> MessageManagerView {
    MessageManagerView { packet_map: map_without(m.packet_map, packet), ..m }
}

/// No row of the map without a packet names that packet.
pub proof fn lemma_map_without_clears(map: Seq<PacketRecordView>, packet: u16)
    ensures
        map_entries_for(map_without(map, packet), packet) == Seq::<PacketRecordView>::empty(),
        map_without(map_without(map, packet), packet) == map_without(map, packet),
    decreases map.len(),
{
    if map.len() > 0 {
        lemma_map_without_clears(map.skip(1), packet);
        if map[0].packet == packet {
            assert(map_without(map, packet) =~= map_without(map.skip(1), packet));
        } else {
            let rest = map_without(map.skip(1), packet);
            assert(map_without(map, packet) == seq![map[0]] + rest);
            assert((seq![map[0]] + rest).len() > 0);
            assert((seq![map[0]] + rest)[0] == map[0]);
            assert((seq![map[0]] + rest).skip(1) =~= rest);
            assert(map_entries_for(seq![map[0]] + rest, packet) =~= map_entries_for(rest, packet));
            assert(map_without(seq![map[0]] + rest, packet) =~= seq![map[0]] + map_without(
                rest,
                packet,
            ));
        }
    }
}

/// Acknowledgment idempotence: confirming the same packet twice is the same
/// as confirming it once — the second confirmation finds no rows for the
/// packet, so no channel is touched and no record freed twice.
pub proof fn lemma_acknowledgment_idempotent(m: MessageManagerView, packet: u16)
    ensures
        delivered_transition(delivered_transition(m, packet), packet) == delivered_transition(
            m,
            packet,
        ),
{
    lemma_map_without_clears(m.packet_map, packet);
}

/// A packet write appends its bytes and map rows channel by channel.
proof fn lemma_write_of_snoc(slots: Seq<ChannelSlotView>, x: ChannelSlotView, packet: u16)
    ensures
        write_bytes_of(slots.push(x)) == write_bytes_of(slots) + channel_write_bytes(x.channel),
        map_entries_of(slots.push(x), packet) == map_entries_of(slots, packet) + slot_map_entries(
            x,
            packet,
        ),
    decreases slots.len(),
{
    let l = slots.push(x);
    if slots.len() == 0 {
        assert(l.skip(1) =~= Seq::<ChannelSlotView>::empty());
        assert(l[0] == x);
        assert(write_bytes_of(Seq::<ChannelSlotView>::empty()) == Seq::<u8>::empty());
        assert(map_entries_of(Seq::<ChannelSlotView>::empty(), packet) == Seq::<
            PacketRecordView,
        >::empty());
        assert(write_bytes_of(l) == channel_write_bytes(x.channel) + Seq::<u8>::empty());
        assert(channel_write_bytes(x.channel) + Seq::<u8>::empty() =~= Seq::<u8>::empty()
            + channel_write_bytes(x.channel));
        assert(map_entries_of(l, packet) == slot_map_entries(x, packet) + Seq::<
            PacketRecordView,
        >::empty());
        assert(slot_map_entries(x, packet) + Seq::<PacketRecordView>::empty() =~= Seq::<
            PacketRecordView,
        >::empty() + slot_map_entries(x, packet));
    } else {
        assert(l[0] == slots[0]);
        assert(l.skip(1) =~= slots.skip(1).push(x));
        lemma_write_of_snoc(slots.skip(1), x, packet);
        assert(write_bytes_of(l) == channel_write_bytes(slots[0].channel) + (write_bytes_of(
            slots.skip(1),
        ) + channel_write_bytes(x.channel)));
        assert(channel_write_bytes(slots[0].channel) + (write_bytes_of(slots.skip(1))
            + channel_write_bytes(x.channel)) =~= (channel_write_bytes(slots[0].channel)
            + write_bytes_of(slots.skip(1))) + channel_write_bytes(x.channel));
        assert(map_entries_of(l, packet) == slot_map_entries(slots[0], packet) + (map_entries_of(
            slots.skip(1),
            packet,
        ) + slot_map_entries(x, packet)));
        assert(slot_map_entries(slots[0], packet) + (map_entries_of(slots.skip(1), packet)
            + slot_map_entries(x, packet)) =~= (slot_map_entries(slots[0], packet)
            + map_entries_of(slots.skip(1), packet)) + slot_map_entries(x, packet));
    }
}

/// A successful packet parse consumes at most the packet and yields one
/// block per channel.
proof fn lemma_parse_packet_consumed(slots: Seq<ChannelSlotView>, b: Seq<u8>, kinds: u16)
    ensures
        parse_packet(slots, b, kinds) matches Some((blocks, c)) ==> 0 <= c <= b.len()
            && blocks.len() == slots.len(),
    decreases slots.len(),
{
    if slots.len() > 0 {
        lemma_parse_block_consumed(b, channel_with_id(slots[0].channel), kinds);
        match parse_block(b, channel_with_id(slots[0].channel), kinds) {
            Some((es, c)) => {
                lemma_parse_packet_consumed(slots.skip(1), b.skip(c), kinds);
            },
            None => {},
        }
    }
}

/// Draining appends each channel's ready run in configuration order.
proof fn lemma_drained_of_snoc(slots: Seq<ChannelSlotView>, x: ChannelSlotView)
    ensures
        drained_of(slots.push(x)) == drained_of(slots) + Seq::new(
            channel_incoming(x.channel).len(),
            |k: int| (x.index, channel_incoming(x.channel)[k]),
        ),
    decreases slots.len(),
{
    let l = slots.push(x);
    let tail = Seq::new(
        channel_incoming(x.channel).len(),
        |k: int| (x.index, channel_incoming(x.channel)[k]),
    );
    if slots.len() == 0 {
        assert(l.skip(1) =~= Seq::<ChannelSlotView>::empty());
        assert(l[0] == x);
        assert(drained_of(Seq::<ChannelSlotView>::empty()) == Seq::<(u16, MessageView)>::empty());
        assert(drained_of(l) == tail + Seq::<(u16, MessageView)>::empty());
        assert(tail + Seq::<(u16, MessageView)>::empty() =~= Seq::<(u16, MessageView)>::empty()
            + tail);
    } else {
        assert(l[0] == slots[0]);
        assert(l.skip(1) =~= slots.skip(1).push(x));
        lemma_drained_of_snoc(slots.skip(1), x);
        let head = Seq::new(
            channel_incoming(slots[0].channel).len(),
            |k: int| (slots[0].index, channel_incoming(slots[0].channel)[k]),
        );
        assert(drained_of(l) == head + (drained_of(slots.skip(1)) + tail));
        assert(head + (drained_of(slots.skip(1)) + tail) =~= (head + drained_of(slots.skip(1)))
            + tail);
    }
}

/// With no record ready, a write changes no record.
proof fn lemma_mark_sent_identity(records: Seq<RecordView>, now: u64)
    requires
        !has_ready_record(records),
    ensures
        mark_sent(records, now) == records,
{
    assert forall|k: int| 0 <= k < records.len() implies mark_sent(records, now)[k] == records[k] by {
        assert(!records[k].ready);
    }
    assert(mark_sent(records, now) =~= records);
}

/// A write leaves every record table well formed.
proof fn lemma_mark_sent_wf(s: ReliableSenderView)
    requires
        sender_wf(s),
    ensures
        sender_wf(ReliableSenderView { records: mark_sent(s.records, s.now), ..s }),
{
    let after = mark_sent(s.records, s.now);
    assert forall|a: int, b: int| 0 <= a < b < after.len() implies (#[trigger] after[a]).id != (
    #[trigger] after[b]).id by {
        assert(after[a].id == s.records[a].id);
        assert(after[b].id == s.records[b].id);
        assert(s.records[a].id != s.records[b].id);
    }
    assert forall|k: int| 0 <= k < after.len() implies (#[trigger] after[k]).msg.wf()
        && after[k].last_sent <= s.now by {
        assert(s.records[k].msg.wf() && s.records[k].last_sent <= s.now);
    }
}

/// The views of the decoded blocks of one packet, in channel order.
pub open spec fn blocks_view(v: Seq<Vec<WireEntry>>) -> Seq<Seq<EntryView>> {
    v.map_values(|b: Vec<WireEntry>| entries_view(b@))
}

/// Taking one slot out and putting its successor back in place is an update.
proof fn lemma_slots_view_update(v1: Seq<ChannelSlot>, v0: Seq<ChannelSlot>, i: int, x: ChannelSlot)
    requires
        0 <= i < v0.len(),
        v1 == v0.remove(i).insert(i, x),
    ensures
        slots_view(v1) == slots_view(v0).update(i, x@),
{
    assert(v1 =~= v0.update(i, x));
    assert(slots_view(v0.update(i, x)) =~= slots_view(v0).update(i, x@));
}

/// The channel multiplexer: one state machine per configured channel, and
/// the packet-to-message map that routes delivery notifications back to the
/// channels.
pub struct MessageManager {
    channels: Vec<ChannelSlot>,
    packet_to_message_map: Vec<PacketRecord>,
}

impl View for MessageManager {
    type V = MessageManagerView;

    closed spec fn view(&self) -> MessageManagerView {
        MessageManagerView {
            channels: slots_view(self.channels@),
            packet_map: map_view(self.packet_to_message_map@),
        }
    }
}

/// The next packet carries something from some channel.
pub open spec fn manager_has_outgoing(m: MessageManagerView) -> bool {
    exists|i: int| 0 <= i < m.channels.len() && channel_has_outgoing(
        (#[trigger] m.channels[i]).channel,
    )
}

impl MessageManager {
    /// The manager's invariant: channel identities unique, every channel's
    /// own invariant intact.
    pub open spec fn wf(self) -> bool {
        &&& slot_indices_unique(self@.channels)
        &&& forall|i: int|
            0 <= i < self@.channels.len() ==> channel_view_wf(
                (#[trigger] self@.channels[i]).channel,
            )
    }

    /// Builds one channel per configured entry, in configuration order, and
    /// an empty packet-to-message map.
    pub fn new(channel_config: &ChannelConfig) -> (r: Self)
        requires
            indices_unique(channel_config@),
        ensures
            r.wf(),
            r@.packet_map == Seq::<PacketRecordView>::empty(),
            r@.channels.len() == channel_config@.len(),
            forall|i: int|
                0 <= i < channel_config@.len() ==> (#[trigger] r@.channels[i]).index
                    == channel_config@[i].index && r@.channels[i].channel == initial_channel(
                    channel_config@[i].mode,
                ),
    {
        let settings = channel_config.all_channels();
        let n = settings.len();
        let mut channels: Vec<ChannelSlot> = Vec::new();
        let mut i: usize = 0;
        while i < n
            invariant
                n == channel_config@.len(),
                settings@ == channel_config@,
                i <= n,
                channels@.len() == i,
                forall|k: int|
                    0 <= k < i ==> (#[trigger] slots_view(channels@)[k]).index
                        == channel_config@[k].index && slots_view(channels@)[k].channel
                        == initial_channel(channel_config@[k].mode),
            decreases n - i,
        {
            let setting = settings[i];
            let channel = match setting.mode {
                ChannelMode::UnorderedUnreliable => Channel::UnorderedUnreliable(
                    UnorderedUnreliableChannel::new(),
                ),
                ChannelMode::UnorderedReliable(st) => Channel::UnorderedReliable(
                    UnorderedReliableChannel::new(&st),
                ),
                ChannelMode::OrderedReliable(st) => Channel::OrderedReliable(
                    OrderedReliableChannel::new(&st),
                ),
            };
            proof {
                assert(channel@ == initial_channel(setting.mode));
            }
            let ghost pre = channels@;
            channels.push(ChannelSlot { index: setting.index, channel });
            proof {
                assert(slots_view(channels@) =~= slots_view(pre).push(
                    ChannelSlotView { index: setting.index, channel: channel@ },
                ));
            }
            i = i + 1;
        }
        let r = MessageManager { channels, packet_to_message_map: Vec::new() };
        proof {
            assert(r@.packet_map =~= Seq::<PacketRecordView>::empty());
            assert forall|a: int, b: int| 0 <= a < b < r@.channels.len() implies (
            #[trigger] r@.channels[a]).index != (#[trigger] r@.channels[b]).index by {
                assert(channel_config@[a].index != channel_config@[b].index);
            }
            assert forall|k: int| 0 <= k < r@.channels.len() implies channel_view_wf(
                (#[trigger] r@.channels[k]).channel,
            ) by {
                assert(r@.channels[k].channel == initial_channel(channel_config@[k].mode));
            }
        }
        r
    }

    /// The position of the channel with the given identity, if configured.
    fn find_channel(&self, channel_index: ChannelId) -> (r: Option<usize>)
        requires
            self.wf(),
        ensures
            match r {
                Some(i) => i < self@.channels.len() && self@.channels[i as int].index
                    == channel_index && slot_index_of(self@.channels, channel_index) == i,
                None => !has_slot(self@.channels, channel_index),
            },
    {
        let ghost slots = self@.channels;
        let n = self.channels.len();
        let mut i: usize = 0;
        while i < n
            invariant
                n == slots.len(),
                slots == slots_view(self.channels@),
                slot_indices_unique(slots),
                i <= n,
                forall|k: int| 0 <= k < i ==> (#[trigger] slots[k]).index != channel_index,
            decreases n - i,
        {
            proof {
                assert(slots[i as int] == self.channels@[i as int]@);
            }
            if self.channels[i].index == channel_index {
                proof {
                    lemma_slot_index_unique(slots, i as int);
                }
                return Some(i);
            }
            i = i + 1;
        }
        proof {
            assert(!has_slot(slots, channel_index));
        }
        None
    }

    /// Queues a message on the named channel; a reference to an unconfigured
    /// channel drops the message silently, by design.
    pub fn send_message(&mut self, channel_index: ChannelId, message: Message)
        requires
            old(self).wf(),
            message@.wf(),
        ensures
            final(self).wf(),
            final(self)@ == manager_send(old(self)@, channel_index, message@),
    {
        let ghost slots = self@.channels;
        let found = self.find_channel(channel_index);
        let i = match found {
            None => {
                return ;
            },
            Some(i) => i,
        };
        let ghost pre = self.channels@;
        let mut slot = self.channels.remove(i);
        match &mut slot.channel {
            Channel::UnorderedUnreliable(c) => c.send_message(message),
            Channel::UnorderedReliable(c) => c.send_message(message),
            Channel::OrderedReliable(c) => c.send_message(message),
        }
        proof {
            assert(slot@.channel == channel_send(slots[i as int].channel, message@));
        }
        self.channels.insert(i, slot);
        proof {
            assert(self@.channels =~= slots.update(
                i as int,
                ChannelSlotView {
                    channel: channel_send(slots[i as int].channel, message@),
                    ..slots[i as int]
                },
            ));
            assert(self@.packet_map =~= old(self)@.packet_map);
            assert forall|a: int, b: int| 0 <= a < b < self@.channels.len() implies (
            #[trigger] self@.channels[a]).index != (#[trigger] self@.channels[b]).index by {
                assert(slots[a].index != slots[b].index);
            }
            assert forall|k: int| 0 <= k < self@.channels.len() implies channel_view_wf(
                (#[trigger] self@.channels[k]).channel,
            ) by {
                if k != i {
                    assert(self@.channels[k] == slots[k]);
                    assert(channel_view_wf(slots[k].channel));
                }
            }
        }
    }

    /// One tick: every reliable channel re-arms its overdue records.  The
    /// round-trip estimate is accepted from the transport, though this
    /// implementation resends on its fixed per-channel tick interval alone.
    #[allow(unused_variables)]
    pub fn collect_outgoing_messages(&mut self, rtt_millis: u32)
        requires
            old(self).wf(),
        ensures
            final(self).wf(),
            final(self)@.packet_map == old(self)@.packet_map,
            final(self)@.channels.len() == old(self)@.channels.len(),
            forall|k: int|
                0 <= k < old(self)@.channels.len() ==> (#[trigger] final(self)@.channels[k])
                    == (ChannelSlotView {
                    channel: channel_collect(old(self)@.channels[k].channel),
                    ..old(self)@.channels[k]
                }),
    {
        let ghost slots = self@.channels;
        let n = self.channels.len();
        let mut i: usize = 0;
        while i < n
            invariant
                old(self).wf(),
                n == slots.len(),
                slots == old(self)@.channels,
                self@.packet_map == old(self)@.packet_map,
                self@.channels.len() == n,
                i <= n,
                forall|k: int|
                    i <= k < n ==> (#[trigger] self@.channels[k]) == slots[k],
                forall|k: int|
                    0 <= k < i ==> (#[trigger] self@.channels[k]) == (ChannelSlotView {
                        channel: channel_collect(slots[k].channel),
                        ..slots[k]
                    }),
            decreases n - i,
        {
            let ghost pre = self@.channels;
            let mut slot = self.channels.remove(i);
            proof {
                assert(pre[i as int] == slots[i as int]);
                assert(slot@ == slots[i as int]);
            }
            match &mut slot.channel {
                Channel::UnorderedUnreliable(c) => {},
                Channel::UnorderedReliable(c) => c.collect_outgoing_messages(),
                Channel::OrderedReliable(c) => c.collect_outgoing_messages(),
            }
            proof {
                assert(channel_view_wf(slots[i as int].channel));
                assert(slot@.channel == channel_collect(slots[i as int].channel));
            }
            self.channels.insert(i, slot);
            proof {
                assert forall|k: int| 0 <= k < n implies #[trigger] self@.channels[k] == (if k < i
                    + 1 {
                    ChannelSlotView { channel: channel_collect(slots[k].channel), ..slots[k] }
                } else {
                    slots[k]
                }) by {
                    if k < i {
                        assert(self@.channels[k] == pre[k]);
                    } else if k == i {
                    } else {
                        assert(self@.channels[k] == pre[k]);
                    }
                }
            }
            i = i + 1;
        }
        proof {
            assert forall|k: int| 0 <= k < self@.channels.len() implies channel_view_wf(
                (#[trigger] self@.channels[k]).channel,
            ) by {
                assert(self@.channels[k].channel == channel_collect(slots[k].channel));
                assert(channel_view_wf(slots[k].channel));
            }
            assert forall|a: int, b: int| 0 <= a < b < self@.channels.len() implies (
            #[trigger] self@.channels[a]).index != (#[trigger] self@.channels[b]).index by {
                assert(slots[a].index != slots[b].index);
            }
        }
    }

    /// Whether any channel has ready-to-send content, so that the caller can
    /// decide whether a packet is worth sending.
    pub fn has_outgoing_messages(&self) -> (r: bool)
        ensures
            r == manager_has_outgoing(self@),
    {
        let ghost slots = self@.channels;
        let n = self.channels.len();
        let mut i: usize = 0;
        while i < n
            invariant
                n == slots.len(),
                slots == slots_view(self.channels@),
                i <= n,
                forall|k: int|
                    0 <= k < i ==> !channel_has_outgoing((#[trigger] slots[k]).channel),
            decreases n - i,
        {
            proof {
                assert(slots[i as int] == self.channels@[i as int]@);
            }
            let has = match &self.channels[i].channel {
                Channel::UnorderedUnreliable(c) => c.has_outgoing_messages(),
                Channel::UnorderedReliable(c) => c.has_outgoing_messages(),
                Channel::OrderedReliable(c) => c.has_outgoing_messages(),
            };
            if has {
                proof {
                    assert(channel_has_outgoing(slots[i as int].channel));
                }
                return true;
            }
            i = i + 1;
        }
        false
    }

    /// Writes one packet: every channel's block in configuration order — an
    /// explicit zero count header where a channel contributes nothing, so
    /// the wire format stays self-describing — and records, for each
    /// identity written, that this packet carried it on its channel.
    pub fn write_messages(&mut self, writer: &mut BitWriter, packet_index: PacketIndex)
        requires
            old(self).wf(),
        ensures
            final(self).wf(),
            final(self)@.channels == slots_after_write(old(self)@.channels),
            final(self)@.packet_map == old(self)@.packet_map + map_entries_of(
                old(self)@.channels,
                packet_index,
            ),
            final(writer)@ == old(writer)@ + write_bytes_of(old(self)@.channels),
    {
        let ghost slots = self@.channels;
        let ghost map0 = self@.packet_map;
        let n = self.channels.len();
        let mut i: usize = 0;
        proof {
            assert(writer@ =~= old(writer)@ + write_bytes_of(slots.take(0)));
            assert(map0 + map_entries_of(slots.take(0), packet_index) =~= map0);
        }
        while i < n
            invariant
                old(self).wf(),
                n == slots.len(),
                slots == old(self)@.channels,
                i <= n,
                self@.channels.len() == n,
                forall|k: int| i <= k < n ==> (#[trigger] self@.channels[k]) == slots[k],
                forall|k: int|
                    0 <= k < i ==> (#[trigger] self@.channels[k]) == (ChannelSlotView {
                        channel: channel_after_write(slots[k].channel),
                        ..slots[k]
                    }),
                writer@ == old(writer)@ + write_bytes_of(slots.take(i as int)),
                self@.packet_map == map0 + map_entries_of(slots.take(i as int), packet_index),
            decreases n - i,
        {
            let ghost pre = self@.channels;
            let ghost vec0 = self.channels@;
            let mut slot = self.channels.remove(i);
            proof {
                assert(pre[i as int] == slots[i as int]);
                assert(slot@ == slots[i as int]);
                assert(channel_view_wf(slots[i as int].channel));
                assert(slots.take(i as int).push(slots[i as int]) =~= slots.take(i + 1));
                lemma_write_of_snoc(slots.take(i as int), slots[i as int], packet_index);
            }
            let ghost wstart = writer@;
            let ghost mstart = self@.packet_map;
            let ids_opt = match &mut slot.channel {
                Channel::UnorderedUnreliable(c) => c.write_messages(writer),
                Channel::UnorderedReliable(c) => c.write_messages(writer),
                Channel::OrderedReliable(c) => c.write_messages(writer),
            };
            match ids_opt {
                None => {
                    write_list_header(writer, 0);
                    proof {
                        match slots[i as int].channel {
                            ChannelView::UnorderedUnreliable(v) => {
                                assert(v.outgoing =~= Seq::<MessageView>::empty());
                            },
                            ChannelView::UnorderedReliable(v) => {
                                lemma_ready_entries_empty(v.sender.records);
                                lemma_mark_sent_identity(v.sender.records, v.sender.now);
                            },
                            ChannelView::OrderedReliable(v) => {
                                lemma_ready_entries_empty(v.sender.records);
                                lemma_mark_sent_identity(v.sender.records, v.sender.now);
                            },
                        }
                        assert(slot@.channel == channel_after_write(slots[i as int].channel));
                        assert(writer@ =~= wstart + channel_write_bytes(slots[i as int].channel));
                        assert(slot_map_entries(slots[i as int], packet_index) =~= Seq::<
                            PacketRecordView,
                        >::empty());
                        assert(self@.packet_map =~= mstart + slot_map_entries(
                            slots[i as int],
                            packet_index,
                        ));
                    }
                },
                Some(ids) => {
                    proof {
                        match slots[i as int].channel {
                            ChannelView::UnorderedUnreliable(v) => {
                                assert(ids@ =~= channel_written_ids(slots[i as int].channel));
                            },
                            ChannelView::UnorderedReliable(v) => {
                                lemma_ready_entries_empty(v.sender.records);
                            },
                            ChannelView::OrderedReliable(v) => {
                                lemma_ready_entries_empty(v.sender.records);
                            },
                        }
                        assert(ids@ == channel_written_ids(slots[i as int].channel));
                        assert(slot@.channel == channel_after_write(slots[i as int].channel));
                        assert(writer@ =~= wstart + channel_write_bytes(slots[i as int].channel));
                    }
                    let ghost written = ids@;
                    let ghost chindex = slots[i as int].index;
                    let m = ids.len();
                    let mut j: usize = 0;
                    proof {
                        assert(mstart + Seq::new(
                            0,
                            |k: int|
                                PacketRecordView {
                                    packet: packet_index,
                                    channel: chindex,
                                    message: written[k],
                                },
                        ) =~= mstart);
                    }
                    while j < m
                        invariant
                            m == written.len(),
                            j <= m,
                            ids@ == written,
                            slot@.index == chindex,
                            0 <= i < pre.len(),
                            pre.len() == vec0.len(),
                            self.channels@ == vec0.remove(i as int),
                            self@.packet_map == mstart + Seq::new(
                                j as nat,
                                |k: int|
                                    PacketRecordView {
                                        packet: packet_index,
                                        channel: chindex,
                                        message: written[k],
                                    },
                            ),
                            self@.channels == pre.remove(i as int),
                        decreases m - j,
                    {
                        let ghost mpre = self@.packet_map;
                        self.packet_to_message_map.push(
                            PacketRecord {
                                packet: packet_index,
                                channel: slot.index,
                                message: ids[j],
                            },
                        );
                        proof {
                            assert(self@.packet_map =~= mpre.push(
                                PacketRecordView {
                                    packet: packet_index,
                                    channel: chindex,
                                    message: written[j as int],
                                },
                            ));
                            assert(self@.packet_map =~= mstart + Seq::new(
                                (j + 1) as nat,
                                |k: int|
                                    PacketRecordView {
                                        packet: packet_index,
                                        channel: chindex,
                                        message: written[k],
                                    },
                            ));
                        }
                        j = j + 1;
                    }
                    proof {
                        assert(self@.packet_map =~= mstart + slot_map_entries(
                            slots[i as int],
                            packet_index,
                        ));
                    }
                },
            }
            let ghost slotg = slot;
            self.channels.insert(i, slot);
            proof {
                lemma_slots_view_update(self.channels@, vec0, i as int, slotg);
                assert(self@.channels == pre.update(i as int, slotg@));
                assert forall|k: int| 0 <= k < n implies #[trigger] self@.channels[k] == (if k < i
                    + 1 {
                    ChannelSlotView { channel: channel_after_write(slots[k].channel), ..slots[k] }
                } else {
                    slots[k]
                }) by {
                    if k < i {
                        assert(self@.channels[k] == pre[k]);
                    } else if k == i {
                    } else {
                        assert(self@.channels[k] == pre[k]);
                    }
                }
                assert(self@.packet_map == map0 + map_entries_of(slots.take(i + 1), packet_index))
                    by {
                    assert(mstart == map0 + map_entries_of(slots.take(i as int), packet_index));
                    assert(map0 + map_entries_of(slots.take(i as int), packet_index)
                        + slot_map_entries(slots[i as int], packet_index) =~= map0 + (
                    map_entries_of(slots.take(i as int), packet_index) + slot_map_entries(
                        slots[i as int],
                        packet_index,
                    )));
                }
                assert(writer@ == old(writer)@ + write_bytes_of(slots.take(i + 1))) by {
                    assert(old(writer)@ + write_bytes_of(slots.take(i as int))
                        + channel_write_bytes(slots[i as int].channel) =~= old(writer)@ + (
                    write_bytes_of(slots.take(i as int)) + channel_write_bytes(
                        slots[i as int].channel,
                    )));
                }
            }
            i = i + 1;
        }
        proof {
            assert(slots.take(n as int) =~= slots);
            assert(self@.channels =~= slots_after_write(slots));
            assert forall|k: int| 0 <= k < self@.channels.len() implies channel_view_wf(
                (#[trigger] self@.channels[k]).channel,
            ) by {
                assert(self@.channels[k].channel == channel_after_write(slots[k].channel));
                assert(channel_view_wf(slots[k].channel));
                match slots[k].channel {
                    ChannelView::UnorderedUnreliable(v) => {},
                    ChannelView::UnorderedReliable(v) => {
                        lemma_mark_sent_wf(v.sender);
                    },
                    ChannelView::OrderedReliable(v) => {
                        lemma_mark_sent_wf(v.sender);
                    },
                }
            }
            assert forall|a: int, b: int| 0 <= a < b < self@.channels.len() implies (
            #[trigger] self@.channels[a]).index != (#[trigger] self@.channels[b]).index by {
                assert(slots[a].index != slots[b].index);
            }
        }
    }

    /// Reads one packet: every channel's block, in the same fixed order used
    /// to write.  A malformed packet fails fast and poisons only this read:
    /// the manager is left exactly as it was.
    pub fn read_messages(&mut self, reader: &mut BitReader, manifest: &Manifest) -> (r: Result<
        (),
        SerdeErr,
    >)
        requires
            old(self).wf(),
        ensures
            final(self).wf(),
            match parse_packet(old(self)@.channels, old(reader)@, manifest@) {
                Some((blocks, c)) => r is Ok && final(self)@.channels == slots_after_read(
                    old(self)@.channels,
                    blocks,
                ) && final(self)@.packet_map == old(self)@.packet_map && final(reader)@ == old(
                    reader,
                )@.skip(c),
                None => r is Err && final(self)@ == old(self)@ && suffix_of(
                    final(reader)@,
                    old(reader)@,
                ),
            },
    {
        let ghost slots = self@.channels;
        let ghost b0 = reader@;
        let n = self.channels.len();
        let mut blocks: Vec<Vec<WireEntry>> = Vec::new();
        let mut i: usize = 0;
        proof {
            lemma_suffix_refl(b0);
            assert(blocks_view(blocks@) =~= Seq::<Seq<EntryView>>::empty());
            assert(slots.skip(0) =~= slots);
            match parse_packet(slots, b0, manifest@) {
                Some((bl2, c2)) => {
                    assert(blocks_view(blocks@) + bl2 =~= bl2);
                },
                None => {},
            }
        }
        while i < n
            invariant
                old(self).wf(),
                n == slots.len(),
                slots == old(self)@.channels,
                self@ == old(self)@,
                b0 == old(reader)@,
                i <= n,
                blocks_view(blocks@).len() == i,
                suffix_of(reader@, b0),
                match parse_packet(slots.skip(i as int), reader@, manifest@) {
                    Some((bl2, c2)) => parse_packet(slots, b0, manifest@) == Some(
                        (blocks_view(blocks@) + bl2, b0.len() - reader@.len() + c2),
                    ),
                    None => parse_packet(slots, b0, manifest@) is None,
                },
            decreases n - i,
        {
            let ghost cur = reader@;
            proof {
                assert(slots[i as int] == self.channels@[i as int]@);
                assert(slots.skip(i as int)[0] == slots[i as int]);
            }
            let with_id = match &self.channels[i].channel {
                Channel::UnorderedUnreliable(_) => false,
                Channel::UnorderedReliable(_) => true,
                Channel::OrderedReliable(_) => true,
            };
            proof {
                assert(with_id == channel_with_id(slots[i as int].channel));
            }
            let block = match read_block(reader, with_id, manifest) {
                Ok(v) => v,
                Err(e) => {
                    proof {
                        lemma_suffix_trans(reader@, cur, b0);
                        assert(parse_packet(slots.skip(i as int), cur, manifest@) is None);
                        assert(parse_packet(slots, b0, manifest@) is None);
                    }
                    return Err(e);
                },
            };
            proof {
                lemma_parse_block_consumed(cur, with_id, manifest@);
                let (es, c) = parse_block(cur, with_id, manifest@)->Some_0;
                lemma_skip_is_suffix(cur, c);
                lemma_suffix_trans(reader@, cur, b0);
                assert(entries_view(block@) == es);
                assert(blocks_view(blocks@.push(block)) =~= blocks_view(blocks@).push(es));
                assert(slots.skip(i as int).skip(1) =~= slots.skip(i + 1));
                match parse_packet(slots.skip(i + 1), reader@, manifest@) {
                    Some((bl2, c2)) => {
                        assert(blocks_view(blocks@) + (seq![es] + bl2) =~= blocks_view(
                            blocks@,
                        ).push(es) + bl2);
                    },
                    None => {},
                }
            }
            blocks.push(block);
            i = i + 1;
        }
        proof {
            assert(slots.skip(n as int) =~= Seq::<ChannelSlotView>::empty());
            assert(parse_packet(Seq::<ChannelSlotView>::empty(), reader@, manifest@) == Some(
                (Seq::<Seq<EntryView>>::empty(), 0int),
            ));
            assert(blocks_view(blocks@) + Seq::<Seq<EntryView>>::empty() =~= blocks_view(blocks@));
            lemma_parse_packet_consumed(slots, b0, manifest@);
            let (bl, c) = parse_packet(slots, b0, manifest@)->Some_0;
            let k = choose|k: int| 0 <= k <= b0.len() && reader@ == b0.skip(k);
            assert(reader@.len() == b0.len() - k);
            assert(reader@ == b0.skip(c));
        }
        let ghost blocksv = blocks_view(blocks@);
        let mut blocks = blocks;
        let mut i: usize = 0;
        while i < n
            invariant
                old(self).wf(),
                n == slots.len(),
                slots == old(self)@.channels,
                blocksv.len() == n,
                i + blocks@.len() == n,
                blocks_view(blocks@) =~= blocksv.skip(i as int),
                self@.packet_map == old(self)@.packet_map,
                self@.channels.len() == n,
                forall|k: int| i <= k < n ==> (#[trigger] self@.channels[k]) == slots[k],
                forall|k: int|
                    0 <= k < i ==> (#[trigger] self@.channels[k]) == (ChannelSlotView {
                        channel: channel_read(slots[k].channel, blocksv[k]),
                        ..slots[k]
                    }),
                forall|k: int|
                    0 <= k < n ==> channel_view_wf((#[trigger] self@.channels[k]).channel),
            decreases n - i,
        {
            let ghost pre = self@.channels;
            let ghost vec0 = self.channels@;
            let ghost bpre = blocks@;
            let block = blocks.remove(0);
            proof {
                assert(blocks_view(bpre)[0] == entries_view(bpre[0]@));
                assert(entries_view(block@) == blocksv[i as int]);
                assert(blocks_view(blocks@) =~= blocks_view(bpre).skip(1));
                assert(blocksv.skip(i as int).skip(1) =~= blocksv.skip(i + 1));
            }
            let mut slot = self.channels.remove(i);
            proof {
                assert(pre[i as int] == slots[i as int]);
                assert(slot@ == slots[i as int]);
                assert(channel_view_wf(slots[i as int].channel));
            }
            match &mut slot.channel {
                Channel::UnorderedUnreliable(c) => c.apply_incoming(block),
                Channel::UnorderedReliable(c) => c.apply_incoming(block),
                Channel::OrderedReliable(c) => c.apply_incoming(block),
            }
            proof {
                assert(slot@.channel == channel_read(slots[i as int].channel, blocksv[i as int]));
            }
            let ghost slotg = slot;
            self.channels.insert(i, slot);
            proof {
                lemma_slots_view_update(self.channels@, vec0, i as int, slotg);
                assert(self@.channels == pre.update(i as int, slotg@));
                assert forall|k: int| 0 <= k < n implies #[trigger] self@.channels[k] == (if k < i
                    + 1 {
                    ChannelSlotView {
                        channel: channel_read(slots[k].channel, blocksv[k]),
                        ..slots[k]
                    }
                } else {
                    slots[k]
                }) by {
                    if k < i {
                        assert(self@.channels[k] == pre[k]);
                    } else if k == i {
                    } else {
                        assert(self@.channels[k] == pre[k]);
                    }
                }
                assert forall|k: int| 0 <= k < n implies channel_view_wf(
                    (#[trigger] self@.channels[k]).channel,
                ) by {
                    if k != i {
                        assert(self@.channels[k] == pre[k]);
                        assert(channel_view_wf(pre[k].channel));
                    }
                }
            }
            i = i + 1;
        }
        proof {
            assert(self@.channels =~= slots_after_read(slots, blocksv));
            assert forall|a: int, b: int| 0 <= a < b < self@.channels.len() implies (
            #[trigger] self@.channels[a]).index != (#[trigger] self@.channels[b]).index by {
                assert(slots[a].index != slots[b].index);
            }
        }
        Ok(())
    }

    /// Drains every channel's ready messages, tagged with the channel they
    /// arrived on, in configuration order.
    pub fn collect_incoming_messages(&mut self) -> (r: Vec<(ChannelId, Message)>)
        requires
            old(self).wf(),
        ensures
            final(self).wf(),
            r@.map_values(|p: (ChannelId, Message)| (p.0, p.1@)) == drained_of(
                old(self)@.channels,
            ),
            final(self)@.packet_map == old(self)@.packet_map,
            final(self)@.channels.len() == old(self)@.channels.len(),
            forall|k: int|
                0 <= k < old(self)@.channels.len() ==> (#[trigger] final(self)@.channels[k])
                    == (ChannelSlotView {
                    channel: channel_clear_incoming(old(self)@.channels[k].channel),
                    ..old(self)@.channels[k]
                }),
    {
        let ghost slots = self@.channels;
        let mut out: Vec<(ChannelId, Message)> = Vec::new();
        let n = self.channels.len();
        let mut i: usize = 0;
        proof {
            assert(out@.map_values(|p: (ChannelId, Message)| (p.0, p.1@)) =~= drained_of(
                slots.take(0),
            ));
        }
        while i < n
            invariant
                old(self).wf(),
                n == slots.len(),
                slots == old(self)@.channels,
                i <= n,
                self@.packet_map == old(self)@.packet_map,
                self@.channels.len() == n,
                forall|k: int| i <= k < n ==> (#[trigger] self@.channels[k]) == slots[k],
                forall|k: int|
                    0 <= k < i ==> (#[trigger] self@.channels[k]) == (ChannelSlotView {
                        channel: channel_clear_incoming(slots[k].channel),
                        ..slots[k]
                    }),
                out@.map_values(|p: (ChannelId, Message)| (p.0, p.1@)) == drained_of(
                    slots.take(i as int),
                ),
            decreases n - i,
        {
            let ghost pre = self@.channels;
            let ghost vec0 = self.channels@;
            let mut slot = self.channels.remove(i);
            proof {
                assert(pre[i as int] == slots[i as int]);
                assert(slot@ == slots[i as int]);
                assert(channel_view_wf(slots[i as int].channel));
                assert(slots.take(i as int).push(slots[i as int]) =~= slots.take(i + 1));
                lemma_drained_of_snoc(slots.take(i as int), slots[i as int]);
            }
            let msgs = match &mut slot.channel {
                Channel::UnorderedUnreliable(c) => c.collect_incoming_messages(),
                Channel::UnorderedReliable(c) => c.collect_incoming_messages(),
                Channel::OrderedReliable(c) => c.collect_incoming_messages(),
            };
            proof {
                assert(msgs@.map_values(|m: Message| m@) == channel_incoming(
                    slots[i as int].channel,
                ));
                assert(slot@.channel == channel_clear_incoming(slots[i as int].channel));
            }
            let ghost msgsv = msgs@.map_values(|m: Message| m@);
            let ghost chindex = slots[i as int].index;
            let ghost outbase = out@;
            let total = msgs.len();
            let mut msgs = msgs;
            let mut j: usize = 0;
            proof {
                assert(outbase.map_values(|p: (ChannelId, Message)| (p.0, p.1@)) + Seq::new(
                    0,
                    |k: int| (chindex, msgsv[k]),
                ) =~= outbase.map_values(|p: (ChannelId, Message)| (p.0, p.1@)));
            }
            while msgs.len() > 0
                invariant
                    j + msgs@.len() == total,
                    msgsv.len() == total,
                    slot@.index == chindex,
                    0 <= i < pre.len(),
                    pre.len() == vec0.len(),
                    self.channels@ == vec0.remove(i as int),
                    msgs@.map_values(|m: Message| m@) =~= msgsv.skip(j as int),
                    out@.map_values(|p: (ChannelId, Message)| (p.0, p.1@)) == outbase.map_values(
                        |p: (ChannelId, Message)| (p.0, p.1@),
                    ) + Seq::new(j as nat, |k: int| (chindex, msgsv[k])),
                    self@.channels == pre.remove(i as int),
                    self@.packet_map == old(self)@.packet_map,
                decreases msgs@.len(),
            {
                let ghost mpre = msgs@;
                let ghost opre = out@;
                let msg = msgs.remove(0);
                proof {
                    assert(mpre.map_values(|m: Message| m@)[0] == mpre[0]@);
                    assert(msg@ == msgsv[j as int]);
                }
                out.push((slot.index, msg));
                proof {
                    assert(msgs@ =~= mpre.skip(1));
                    assert(msgs@.map_values(|m: Message| m@) =~= mpre.map_values(
                        |m: Message| m@,
                    ).skip(1));
                    assert(msgsv.skip(j as int).skip(1) =~= msgsv.skip(j + 1));
                    assert(msgs@.map_values(|m: Message| m@) =~= msgsv.skip(j + 1));
                    assert(out@.map_values(|p: (ChannelId, Message)| (p.0, p.1@)) =~= opre
                        .map_values(|p: (ChannelId, Message)| (p.0, p.1@)).push(
                        (chindex, msgsv[j as int]),
                    ));
                    assert(outbase.map_values(|p: (ChannelId, Message)| (p.0, p.1@)) + Seq::new(
                        j as nat,
                        |k: int| (chindex, msgsv[k]),
                    ) + seq![(chindex, msgsv[j as int])] =~= outbase.map_values(
                        |p: (ChannelId, Message)| (p.0, p.1@),
                    ) + Seq::new((j + 1) as nat, |k: int| (chindex, msgsv[k])));
                    assert(out@.map_values(|p: (ChannelId, Message)| (p.0, p.1@))
                        =~= outbase.map_values(|p: (ChannelId, Message)| (p.0, p.1@)) + Seq::new(
                        (j + 1) as nat,
                        |k: int| (chindex, msgsv[k]),
                    ));
                }
                j = j + 1;
            }
            proof {
                assert(Seq::new(total as nat, |k: int| (chindex, msgsv[k])) =~= Seq::new(
                    channel_incoming(slots[i as int].channel).len(),
                    |k: int| (slots[i as int].index, channel_incoming(slots[i as int].channel)[k]),
                ));
                assert(out@.map_values(|p: (ChannelId, Message)| (p.0, p.1@)) =~= drained_of(
                    slots.take(i + 1),
                ));
            }
            let ghost slotg = slot;
            self.channels.insert(i, slot);
            proof {
                lemma_slots_view_update(self.channels@, vec0, i as int, slotg);
                assert(self@.channels == pre.update(i as int, slotg@));
                assert forall|k: int| 0 <= k < n implies #[trigger] self@.channels[k] == (if k < i
                    + 1 {
                    ChannelSlotView {
                        channel: channel_clear_incoming(slots[k].channel),
                        ..slots[k]
                    }
                } else {
                    slots[k]
                }) by {
                    if k < i {
                        assert(self@.channels[k] == pre[k]);
                    } else if k == i {
                    } else {
                        assert(self@.channels[k] == pre[k]);
                    }
                }
            }
            i = i + 1;
        }
        proof {
            assert(slots.take(n as int) =~= slots);
            assert forall|k: int| 0 <= k < self@.channels.len() implies channel_view_wf(
                (#[trigger] self@.channels[k]).channel,
            ) by {
                assert(self@.channels[k].channel == channel_clear_incoming(slots[k].channel));
                assert(channel_view_wf(slots[k].channel));
            }
            assert forall|a: int, b: int| 0 <= a < b < self@.channels.len() implies (
            #[trigger] self@.channels[a]).index != (#[trigger] self@.channels[b]).index by {
                assert(slots[a].index != slots[b].index);
            }
        }
        out
    }

    /// Splits the packet-to-message map into the rows naming a packet and
    /// the rest, leaving the rest as the new map.
    fn take_packet_rows(&mut self, packet_index: PacketIndex) -> (r: Vec<PacketRecord>)
        ensures
            map_view(r@) == map_entries_for(old(self)@.packet_map, packet_index),
            final(self)@.packet_map == map_without(old(self)@.packet_map, packet_index),
            final(self)@.channels == old(self)@.channels,
    {
        let ghost map0 = self@.packet_map;
        let mut rows: Vec<PacketRecord> = Vec::new();
        std::mem::swap(&mut rows, &mut self.packet_to_message_map);
        let mut matching: Vec<PacketRecord> = Vec::new();
        let mut keep: Vec<PacketRecord> = Vec::new();
        let total = rows.len();
        let mut i: usize = 0;
        proof {
            assert(map_view(rows@) =~= map0.skip(0));
            assert(map_view(matching@) =~= Seq::<PacketRecordView>::empty());
            assert(map_view(keep@) =~= Seq::<PacketRecordView>::empty());
            assert(Seq::<PacketRecordView>::empty() + map_entries_for(map0, packet_index)
                =~= map_entries_for(map0, packet_index));
            assert(Seq::<PacketRecordView>::empty() + map_without(map0, packet_index)
                =~= map_without(map0, packet_index));
        }
        while rows.len() > 0
            invariant
                i + rows@.len() == total,
                map0.len() == total,
                map_view(rows@) =~= map0.skip(i as int),
                map_entries_for(map0, packet_index) == map_view(matching@) + map_entries_for(
                    map0.skip(i as int),
                    packet_index,
                ),
                map_without(map0, packet_index) == map_view(keep@) + map_without(
                    map0.skip(i as int),
                    packet_index,
                ),
                self@.channels == old(self)@.channels,
            decreases rows@.len(),
        {
            let ghost rpre = rows@;
            let rec = rows.remove(0);
            proof {
                assert(map_view(rpre)[0] == rpre[0]@);
                assert(rec@ == map0[i as int]);
                assert(rows@ =~= rpre.skip(1));
                assert(map_view(rows@) =~= map_view(rpre).skip(1));
                assert(map0.skip(i as int).skip(1) =~= map0.skip(i + 1));
                assert(map_view(rows@) =~= map0.skip(i + 1));
                assert(map0.skip(i as int)[0] == map0[i as int]);
                assert(map0.skip(i as int).skip(1) =~= map0.skip(i + 1));
            }
            if rec.packet == packet_index {
                let ghost mpre = matching@;
                matching.push(rec);
                proof {
                    assert(map_view(matching@) =~= map_view(mpre).push(rec@));
                    assert(map_view(mpre) + (seq![map0[i as int]] + map_entries_for(
                        map0.skip(i + 1),
                        packet_index,
                    )) =~= map_view(mpre).push(rec@) + map_entries_for(
                        map0.skip(i + 1),
                        packet_index,
                    ));
                    assert(map_view(keep@) + (Seq::<PacketRecordView>::empty() + map_without(
                        map0.skip(i + 1),
                        packet_index,
                    )) =~= map_view(keep@) + map_without(map0.skip(i + 1), packet_index));
                }
            } else {
                let ghost kpre = keep@;
                keep.push(rec);
                proof {
                    assert(map_view(keep@) =~= map_view(kpre).push(rec@));
                    assert(map_view(kpre) + (seq![map0[i as int]] + map_without(
                        map0.skip(i + 1),
                        packet_index,
                    )) =~= map_view(kpre).push(rec@) + map_without(map0.skip(i + 1), packet_index));
                    assert(map_view(matching@) + (Seq::<PacketRecordView>::empty()
                        + map_entries_for(map0.skip(i + 1), packet_index)) =~= map_view(matching@)
                        + map_entries_for(map0.skip(i + 1), packet_index));
                }
            }
            i = i + 1;
        }
        proof {
            assert(map0.skip(total as int) =~= Seq::<PacketRecordView>::empty());
            assert(map_view(matching@) + Seq::<PacketRecordView>::empty() =~= map_view(matching@));
            assert(map_view(keep@) + Seq::<PacketRecordView>::empty() =~= map_view(keep@));
        }
        self.packet_to_message_map = keep;
        matching
    }

    /// A packet was confirmed delivered: every message identity it carried
    /// reaches its channel's acknowledgment handler — the matching record
    /// leaves the channel's table — and the packet's rows leave the map.  An
    /// unknown packet identity is a no-op.
    pub fn notify_packet_delivered(&mut self, packet_index: PacketIndex)
        requires
            old(self).wf(),
        ensures
            final(self).wf(),
            final(self)@ == delivered_transition(old(self)@, packet_index),
    {
        let ghost slots0 = self@.channels;
        let ghost entries = map_entries_for(self@.packet_map, packet_index);
        let matching = self.take_packet_rows(packet_index);
        let total = matching.len();
        let mut matching = matching;
        let mut j: usize = 0;
        proof {
            assert(entries.skip(0) =~= entries);
        }
        while matching.len() > 0
            invariant
                j + matching@.len() == total,
                entries.len() == total,
                map_view(matching@) =~= entries.skip(j as int),
                self@.packet_map == map_without(old(self)@.packet_map, packet_index),
                slot_indices_unique(self@.channels),
                forall|k: int|
                    0 <= k < self@.channels.len() ==> channel_view_wf(
                        (#[trigger] self@.channels[k]).channel,
                    ),
                ack_channels(self@.channels, entries.skip(j as int)) == ack_channels(
                    slots0,
                    entries,
                ),
            decreases matching@.len(),
        {
            let ghost mpre = matching@;
            let ghost cur = self@.channels;
            let e = matching.remove(0);
            proof {
                assert(map_view(mpre)[0] == mpre[0]@);
                assert(e@ == entries[j as int]);
                assert(matching@ =~= mpre.skip(1));
                assert(map_view(matching@) =~= map_view(mpre).skip(1));
                assert(entries.skip(j as int).skip(1) =~= entries.skip(j + 1));
                assert(map_view(matching@) =~= entries.skip(j + 1));
                assert(entries.skip(j as int)[0] == entries[j as int]);
                assert(entries.skip(j as int).skip(1) =~= entries.skip(j + 1));
            }
            let found = self.find_channel(e.channel);
            match found {
                None => {
                    proof {
                        assert(ack_one(cur, entries[j as int]) == cur);
                    }
                },
                Some(ci) => {
                    let ghost pre = self@.channels;
                    let ghost vec0 = self.channels@;
                    let mut slot = self.channels.remove(ci);
                    proof {
                        assert(pre[ci as int] == cur[ci as int]);
                        assert(slot@ == cur[ci as int]);
                        assert(channel_view_wf(cur[ci as int].channel));
                    }
                    match &mut slot.channel {
                        Channel::UnorderedUnreliable(c) => {},
                        Channel::UnorderedReliable(c) => c.notify_message_delivered(e.message),
                        Channel::OrderedReliable(c) => c.notify_message_delivered(e.message),
                    }
                    proof {
                        assert(slot@.channel == channel_ack(
                            cur[ci as int].channel,
                            entries[j as int].message,
                        ));
                    }
                    let ghost slotg = slot;
                    self.channels.insert(ci, slot);
                    proof {
                        lemma_slots_view_update(self.channels@, vec0, ci as int, slotg);
                        assert(self@.channels == cur.update(ci as int, slotg@));
                        assert(ack_one(cur, entries[j as int]) =~= self@.channels);
                        assert forall|a: int, b: int|
                            0 <= a < b < self@.channels.len() implies (
                        #[trigger] self@.channels[a]).index != (#[trigger] self@.channels[b]).index
                            by {
                            assert(cur[a].index != cur[b].index);
                        }
                        assert forall|k: int| 0 <= k < self@.channels.len() implies channel_view_wf(
                            (#[trigger] self@.channels[k]).channel,
                        ) by {
                            if k != ci {
                                assert(self@.channels[k] == cur[k]);
                                assert(channel_view_wf(cur[k].channel));
                            }
                        }
                    }
                },
            }
            j = j + 1;
        }
        proof {
            assert(entries.skip(total as int) =~= Seq::<PacketRecordView>::empty());
            assert(ack_channels(self@.channels, Seq::<PacketRecordView>::empty())
                == self@.channels);
        }
    }

    /// A packet was presumed lost: its rows simply leave the map.  Reliable
    /// channels rediscover the need to resend through their own elapsed-time
    /// check at the next tick, not through an explicit loss callback.
    pub fn notify_packet_dropped(&mut self, packet_index: PacketIndex)
        requires
            old(self).wf(),
        ensures
            final(self).wf(),
            final(self)@ == dropped_transition(old(self)@, packet_index),
    {
        let _ = self.take_packet_rows(packet_index);
    }

    /// The rows the map holds for one packet: which message identities that
    /// packet carried, on which channels.
    pub fn tracked_entries(&self, packet_index: PacketIndex) -> (r: Vec<(ChannelId, MessageId)>)
        ensures
            r@.len() == map_entries_for(self@.packet_map, packet_index).len(),
            forall|j: int|
                0 <= j < r@.len() ==> r@[j].0 == map_entries_for(
                    self@.packet_map,
                    packet_index,
                )[j].channel && r@[j].1 == map_entries_for(
                    self@.packet_map,
                    packet_index,
                )[j].message,
    {
        let ghost map0 = self@.packet_map;
        let n = self.packet_to_message_map.len();
        let mut out: Vec<(ChannelId, MessageId)> = Vec::new();
        let ghost found: Seq<PacketRecordView> = Seq::<PacketRecordView>::empty();
        let mut found = Ghost(found);
        let mut i: usize = 0;
        proof {
            assert(map0.skip(0) =~= map0);
            assert(Seq::<PacketRecordView>::empty() + map_entries_for(map0, packet_index)
                =~= map_entries_for(map0, packet_index));
        }
        while i < n
            invariant
                n == map0.len(),
                map0 == map_view(self.packet_to_message_map@),
                i <= n,
                out@.len() == found@.len(),
                forall|j: int|
                    0 <= j < out@.len() ==> (#[trigger] out@[j]).0 == found@[j].channel
                        && out@[j].1 == found@[j].message,
                forall|j: int| 0 <= j < found@.len() ==> (#[trigger] found@[j]).packet
                    == packet_index,
                map_entries_for(map0, packet_index) == found@ + map_entries_for(
                    map0.skip(i as int),
                    packet_index,
                ),
            decreases n - i,
        {
            proof {
                assert(map0[i as int] == self.packet_to_message_map@[i as int]@);
                assert(map0.skip(i as int)[0] == map0[i as int]);
                assert(map0.skip(i as int).skip(1) =~= map0.skip(i + 1));
            }
            let rec = self.packet_to_message_map[i];
            if rec.packet == packet_index {
                out.push((rec.channel, rec.message));
                let ghost f0 = found@;
                found = Ghost(f0.push(rec@));
                proof {
                    assert(f0 + (seq![map0[i as int]] + map_entries_for(
                        map0.skip(i + 1),
                        packet_index,
                    )) =~= f0.push(rec@) + map_entries_for(map0.skip(i + 1), packet_index));
                }
            } else {
                proof {
                    assert(found@ + (Seq::<PacketRecordView>::empty() + map_entries_for(
                        map0.skip(i + 1),
                        packet_index,
                    )) =~= found@ + map_entries_for(map0.skip(i + 1), packet_index));
                }
            }
            i = i + 1;
        }
        proof {
            assert(map0.skip(n as int) =~= Seq::<PacketRecordView>::empty());
            assert(found@ + Seq::<PacketRecordView>::empty() =~= found@);
        }
        out
    }
}

} // verus!
