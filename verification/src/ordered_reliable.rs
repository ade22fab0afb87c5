//! The guaranteed-and-ordered channel mode.
//!
//! The sender is the reliable sender.  The receiver tracks the next expected
//! identity and a reorder buffer: the expected message is released at once
//! and the buffer is drained of any now-contiguous run; a message ahead of
//! the expected identity waits in the buffer; one behind it, or already
//! buffered, is a duplicate and is discarded.  All comparisons go through
//! the one wraparound-aware rule.

use vstd::prelude::*;
use crate::bits::{BitReader, BitWriter, SerdeErr, suffix_of};
use crate::codec::{EntryView, WireEntry, entries_view, enc_block, parse_block, read_block};
use crate::channel_config::ReliableSettings;
use crate::message::{Manifest, Message, MessageView};
use crate::reliable_sender::{ReliableSender, ReliableSenderView, ack_transition,
    collect_transition, enqueue_transition, has_ready_record, mark_sent, ready_entries, ready_ids,
    sender_wf};
use crate::wrapping_number::{lemma_distance_injective, lemma_distance_next, lemma_distance_sum,
    lemma_greater_iff_distance, next_message_id, sequence_greater_than, spec_distance,
    spec_next_id, spec_sequence_greater_than};
use crate::MessageId;

verus! {

/// The mathematical state of an ordering receiver: the next identity owed to
/// the application, the reorder buffer, and the messages already released in
/// order but not yet drained.
pub ghost struct OrderedReceiverView {
    pub next_receive: u16,
    pub buffer: Seq<EntryView>,
    pub ready: Seq<MessageView>,
}

/// Some buffered entry carries the given identity.
pub open spec fn buffer_has(buf: Seq<EntryView>, id: u16) -> bool {
    exists|i: int| 0 <= i < buf.len() && (#[trigger] buf[i]).id == id
}

/// The position of the buffered entry with the given identity.
pub open spec fn buffer_index(buf: Seq<EntryView>, id: u16) -> int {
    choose|i: int| 0 <= i < buf.len() && (#[trigger] buf[i]).id == id
}

/// No two buffered entries share an identity.
pub open spec fn buffer_ids_unique(buf: Seq<EntryView>) -> bool {
    forall|i: int, j: int| 0 <= i < j < buf.len() ==> (#[trigger] buf[i]).id != (
    #[trigger] buf[j]).id
}

/// With unique identities the position of an identity is the one that holds
/// it.
pub proof fn lemma_buffer_index_unique(buf: Seq<EntryView>, i: int)
    requires
        buffer_ids_unique(buf),
        0 <= i < buf.len(),
    ensures
        buffer_index(buf, buf[i].id) == i,
{
    let id = buf[i].id;
    assert(buffer_has(buf, id));
    let j = buffer_index(buf, id);
    if i < j {
        assert(buf[i].id != buf[j].id);
    } else if j < i {
        assert(buf[j].id != buf[i].id);
    }
}

/// Releases the contiguous run now standing at the front: while the buffer
/// holds the next expected identity, that message is released and the
/// expectation advances.
pub open spec fn ordered_release(s: OrderedReceiverView) -> OrderedReceiverView
    decreases s.buffer.len(),
{
    if buffer_has(s.buffer, s.next_receive) {
        let i = buffer_index(s.buffer, s.next_receive);
        if 0 <= i < s.buffer.len() {
            ordered_release(
                OrderedReceiverView {
                    next_receive: spec_next_id(s.next_receive),
                    buffer: s.buffer.remove(i),
                    ready: s.ready.push(s.buffer[i].msg),
                },
            )
        } else {
            s
        }
    } else {
        s
    }
}

/// One arrival: the expected identity is released and the buffer drained of
/// the now-contiguous run; an identity ahead of the expectation and not yet
/// buffered waits in the buffer; anything else is a duplicate and is
/// discarded, so no identity is released twice.
pub open spec fn ordered_recv_one(s: OrderedReceiverView, e: EntryView) -> OrderedReceiverView {
    if e.id == s.next_receive {
        ordered_release(
            OrderedReceiverView {
                next_receive: spec_next_id(s.next_receive),
                buffer: s.buffer,
                ready: s.ready.push(e.msg),
            },
        )
    } else if spec_sequence_greater_than(e.id, s.next_receive) && !buffer_has(s.buffer, e.id) {
        OrderedReceiverView { buffer: s.buffer.push(e), ..s }
    } else {
        s
    }
}

/// A run of arrivals, processed front to back.
pub open spec fn ordered_recv_all(s: OrderedReceiverView, es: Seq<EntryView>) -> OrderedReceiverView
    decreases es.len(),
{
    if es.len() == 0 {
        s
    } else {
        ordered_recv_all(ordered_recv_one(s, es[0]), es.skip(1))
    }
}

/// The receiver's invariant: buffered identities are unique and all of them
/// lie ahead of the next expected identity.
pub open spec fn receiver_wf(s: OrderedReceiverView) -> bool {
    &&& buffer_ids_unique(s.buffer)
    &&& forall|i: int|
        0 <= i < s.buffer.len() ==> spec_sequence_greater_than(
            (#[trigger] s.buffer[i]).id,
            s.next_receive,
        )
}

// ---------------------------------------------------------------------------
// Ordered exactly-once-in-order
// ---------------------------------------------------------------------------

/// The identity `k` increments after `first`.
pub open spec fn id_after(first: u16, k: int) -> u16
    decreases k,
{
    if k <= 0 {
        first
    } else {
        spec_next_id(id_after(first, k - 1))
    }
}

/// Advancing identities composes.
pub proof fn lemma_id_after_compose(first: u16, d: int, j: int)
    requires
        0 <= d,
        0 <= j,
    ensures
        id_after(first, d + j) == id_after(id_after(first, d), j),
    decreases j,
{
    if j > 0 {
        lemma_id_after_compose(first, d, j - 1);
    }
}

/// Advancing `j` times lands at forward distance `j`, short of a full lap.
pub proof fn lemma_id_after_distance(x: u16, j: int)
    requires
        0 <= j <= 0xFFFF,
    ensures
        spec_distance(x, id_after(x, j)) == j,
    decreases j,
{
    if j > 0 {
        lemma_id_after_distance(x, j - 1);
    }
}

/// The forward distance recovers the identity it measures.
pub proof fn lemma_id_from_distance(first: u16, y: u16)
    ensures
        id_after(first, spec_distance(first, y)) == y,
{
    let d = spec_distance(first, y);
    lemma_distance_injective(first, y, y);
    lemma_id_after_distance(first, d);
    lemma_distance_injective(first, id_after(first, d), y);
}

/// The send position an arrival's identity names: its forward distance from
/// the first identity.
pub open spec fn entry_pos(first: u16, e: EntryView) -> int {
    spec_distance(first, e.id)
}

/// Every arrival carries some sent message under its assigned identity:
/// losses, reordering and duplication are all allowed.
pub open spec fn arrivals_from(first: u16, sent: Seq<MessageView>, arrivals: Seq<EntryView>) -> bool {
    forall|a: int|
        0 <= a < arrivals.len() ==> entry_pos(first, #[trigger] arrivals[a]) < sent.len()
            && arrivals[a].msg == sent[entry_pos(first, arrivals[a])]
}

/// A fresh ordering receiver expecting `first`.
pub open spec fn initial_receiver(first: u16) -> OrderedReceiverView {
    OrderedReceiverView {
        next_receive: first,
        buffer: Seq::<EntryView>::empty(),
        ready: Seq::<MessageView>::empty(),
    }
}

/// Every buffered entry is a sent message from position `lo` onward.
pub open spec fn buffer_from(
    first: u16,
    sent: Seq<MessageView>,
    lo: int,
    buf: Seq<EntryView>,
) -> bool {
    forall|i: int|
        0 <= i < buf.len() ==> lo <= entry_pos(first, #[trigger] buf[i]) < sent.len() && buf[i].msg
            == sent[entry_pos(first, buf[i])]
}

/// The reachable-state invariant tying a receiver to the send history: what
/// was released is exactly a prefix of the sent sequence, and the buffer
/// holds only sent messages from beyond that prefix, each at most once.
pub open spec fn ordered_inv(first: u16, sent: Seq<MessageView>, s: OrderedReceiverView) -> bool {
    let d = s.ready.len() as int;
    &&& d <= sent.len()
    &&& s.next_receive == id_after(first, d)
    &&& s.ready == sent.take(d)
    &&& buffer_ids_unique(s.buffer)
    &&& buffer_from(first, sent, d + 1, s.buffer)
}

/// The `k`-th sent message is already released or waits in the buffer.
pub open spec fn id_accounted(first: u16, s: OrderedReceiverView, k: int) -> bool {
    k < s.ready.len() || buffer_has(s.buffer, id_after(first, k))
}

/// Identities within one window are distinct.
proof fn lemma_id_after_injective(first: u16, k1: int, k2: int)
    requires
        0 <= k1 <= 0xFFFF,
        0 <= k2 <= 0xFFFF,
    ensures
        id_after(first, k1) == id_after(first, k2) ==> k1 == k2,
{
    lemma_id_after_distance(first, k1);
    lemma_id_after_distance(first, k2);
}

/// Where an arrival identity stands relative to the expectation: behind it,
/// at it, or ahead by its send offset.
proof fn lemma_arrival_position(first: u16, sent: Seq<MessageView>, d: int, k: int)
    requires
        sent.len() <= 0x7FFF,
        0 <= d <= sent.len(),
        0 <= k < sent.len(),
    ensures
        k > d ==> spec_distance(id_after(first, d), id_after(first, k)) == k - d
            && spec_sequence_greater_than(id_after(first, k), id_after(first, d)),
        k < d ==> !spec_sequence_greater_than(id_after(first, k), id_after(first, d)) && id_after(
            first,
            k,
        ) != id_after(first, d),
{
    let next = id_after(first, d);
    let id = id_after(first, k);
    if k > d {
        lemma_id_after_compose(first, d, k - d);
        lemma_id_after_distance(next, k - d);
        lemma_greater_iff_distance(id, next);
    } else if k < d {
        lemma_id_after_compose(first, k, d - k);
        lemma_id_after_distance(id, d - k);
        lemma_id_after_injective(first, k, d);
        lemma_distance_sum(id, next);
        lemma_greater_iff_distance(id, next);
    }
}

/// Releasing the contiguous run establishes the invariant, only lengthens
/// the released prefix, and keeps every identity accounted for.
proof fn lemma_release_inv(first: u16, sent: Seq<MessageView>, s: OrderedReceiverView)
    requires
        sent.len() <= 0x7FFF,
        s.ready.len() <= sent.len(),
        s.next_receive == id_after(first, s.ready.len() as int),
        s.ready == sent.take(s.ready.len() as int),
        buffer_ids_unique(s.buffer),
        buffer_from(first, sent, s.ready.len() as int, s.buffer),
    ensures
        ordered_inv(first, sent, ordered_release(s)),
        ordered_release(s).ready.len() >= s.ready.len(),
        forall|k: int|
            0 <= k < sent.len() && #[trigger] id_accounted(first, s, k) ==> id_accounted(
                first,
                ordered_release(s),
                k,
            ),
    decreases s.buffer.len(),
{
    let d = s.ready.len() as int;
    if buffer_has(s.buffer, s.next_receive) {
        let i = buffer_index(s.buffer, s.next_receive);
        assert(0 <= i < s.buffer.len() && s.buffer[i].id == s.next_receive);
        lemma_id_after_distance(first, d);
        assert(entry_pos(first, s.buffer[i]) == d);
        assert(s.buffer[i].msg == sent[d]);
        let s2 = OrderedReceiverView {
            next_receive: spec_next_id(s.next_receive),
            buffer: s.buffer.remove(i),
            ready: s.ready.push(s.buffer[i].msg),
        };
        assert(s2.ready =~= sent.take(d + 1));
        assert(s2.next_receive == id_after(first, d + 1));
        assert forall|a: int, b: int| 0 <= a < b < s2.buffer.len() implies (
        #[trigger] s2.buffer[a]).id != (#[trigger] s2.buffer[b]).id by {
            let a0 = if a < i { a } else { a + 1 };
            let b0 = if b < i { b } else { b + 1 };
            assert(s2.buffer[a] == s.buffer[a0]);
            assert(s2.buffer[b] == s.buffer[b0]);
            assert(s.buffer[a0].id != s.buffer[b0].id);
        }
        assert forall|j: int| 0 <= j < s2.buffer.len() implies d + 1 <= entry_pos(
            first,
            #[trigger] s2.buffer[j],
        ) < sent.len() && s2.buffer[j].msg == sent[entry_pos(first, s2.buffer[j])] by {
            let j0 = if j < i { j } else { j + 1 };
            assert(s2.buffer[j] == s.buffer[j0]);
            assert(d <= entry_pos(first, s.buffer[j0]) < sent.len());
            if entry_pos(first, s.buffer[j0]) == d {
                lemma_id_from_distance(first, s.buffer[j0].id);
                assert(s.buffer[j0].id == id_after(first, d));
                if j0 < i {
                    assert(s.buffer[j0].id != s.buffer[i].id);
                } else {
                    assert(s.buffer[i].id != s.buffer[j0].id);
                }
                assert(false);
            }
        }
        lemma_release_inv(first, sent, s2);
        assert(ordered_release(s) == ordered_release(s2));
        assert forall|k: int|
            0 <= k < sent.len() && #[trigger] id_accounted(first, s, k) implies id_accounted(
            first,
            ordered_release(s),
            k,
        ) by {
            if k < s.ready.len() {
            } else if buffer_has(s.buffer, id_after(first, k)) {
                let bi = buffer_index(s.buffer, id_after(first, k));
                assert(0 <= bi < s.buffer.len() && s.buffer[bi].id == id_after(first, k));
                if bi == i {
                    lemma_id_after_injective(first, k, d);
                    assert(k == d);
                    assert(k < s2.ready.len());
                } else {
                    let bi2 = if bi < i { bi } else { bi - 1 };
                    assert(s2.buffer[bi2] == s.buffer[bi]);
                    assert(buffer_has(s2.buffer, id_after(first, k)));
                }
                assert(id_accounted(first, s2, k));
            }
        }
    } else {
        assert(ordered_release(s) == s);
        assert forall|j: int| 0 <= j < s.buffer.len() implies d + 1 <= entry_pos(
            first,
            #[trigger] s.buffer[j],
        ) < sent.len() && s.buffer[j].msg == sent[entry_pos(first, s.buffer[j])] by {
            assert(d <= entry_pos(first, s.buffer[j]) < sent.len());
            if entry_pos(first, s.buffer[j]) == d {
                lemma_id_from_distance(first, s.buffer[j].id);
                lemma_id_after_distance(first, d);
                assert(s.buffer[j].id == s.next_receive);
                assert(buffer_has(s.buffer, s.next_receive));
                assert(false);
            }
        }
    }
}

/// One arrival preserves the invariant, never shortens the released prefix,
/// accounts for its own identity, and keeps everything accounted for.
proof fn lemma_ordered_recv_one_inv(
    first: u16,
    sent: Seq<MessageView>,
    s: OrderedReceiverView,
    e: EntryView,
)
    requires
        sent.len() <= 0x7FFF,
        ordered_inv(first, sent, s),
        0 <= entry_pos(first, e) < sent.len(),
        e.msg == sent[entry_pos(first, e)],
    ensures
        ordered_inv(first, sent, ordered_recv_one(s, e)),
        ordered_recv_one(s, e).ready.len() >= s.ready.len(),
        id_accounted(first, ordered_recv_one(s, e), entry_pos(first, e)),
        forall|k: int|
            0 <= k < sent.len() && #[trigger] id_accounted(first, s, k) ==> id_accounted(
                first,
                ordered_recv_one(s, e),
                k,
            ),
{
    let d = s.ready.len() as int;
    let k0 = entry_pos(first, e);
    lemma_arrival_position(first, sent, d, k0);
    lemma_id_from_distance(first, e.id);
    assert(e.id == id_after(first, k0));
    assert(buffer_from(first, sent, d, s.buffer)) by {
        assert forall|j: int| 0 <= j < s.buffer.len() implies d <= entry_pos(
            first,
            #[trigger] s.buffer[j],
        ) < sent.len() && s.buffer[j].msg == sent[entry_pos(first, s.buffer[j])] by {
            assert(d + 1 <= entry_pos(first, s.buffer[j]) < sent.len());
        }
    }
    if e.id == s.next_receive {
        if k0 > d {
            lemma_id_after_injective(first, k0, d);
            assert(false);
        }
        assert(k0 == d);
        let s2 = OrderedReceiverView {
            next_receive: spec_next_id(s.next_receive),
            buffer: s.buffer,
            ready: s.ready.push(e.msg),
        };
        assert(s2.ready =~= sent.take(d + 1));
        assert(s2.next_receive == id_after(first, d + 1));
        assert(ordered_recv_one(s, e) == ordered_release(s2));
        lemma_release_inv(first, sent, s2);
        assert(id_accounted(first, s2, k0));
        assert forall|k: int|
            0 <= k < sent.len() && #[trigger] id_accounted(first, s, k) implies id_accounted(
            first,
            ordered_release(s2),
            k,
        ) by {
            assert(id_accounted(first, s2, k));
        }
    } else if spec_sequence_greater_than(e.id, s.next_receive) && !buffer_has(s.buffer, e.id) {
        let r = OrderedReceiverView { buffer: s.buffer.push(e), ..s };
        if k0 < d {
            assert(false);
        }
        if k0 == d {
            assert(false);
        }
        assert(k0 > d);
        assert forall|a: int, b: int| 0 <= a < b < r.buffer.len() implies (
        #[trigger] r.buffer[a]).id != (#[trigger] r.buffer[b]).id by {
            if b < s.buffer.len() {
                assert(s.buffer[a].id != s.buffer[b].id);
            } else {
                assert(r.buffer[b] == e);
                assert(r.buffer[a] == s.buffer[a]);
                assert(!buffer_has(s.buffer, e.id));
            }
        }
        assert forall|j: int| 0 <= j < r.buffer.len() implies d + 1 <= entry_pos(
            first,
            #[trigger] r.buffer[j],
        ) < sent.len() && r.buffer[j].msg == sent[entry_pos(first, r.buffer[j])] by {
            if j < s.buffer.len() {
                assert(r.buffer[j] == s.buffer[j]);
            } else {
                assert(r.buffer[j] == e);
            }
        }
        assert(buffer_has(r.buffer, e.id)) by {
            assert(r.buffer[s.buffer.len() as int].id == e.id);
        }
        assert forall|k: int|
            0 <= k < sent.len() && #[trigger] id_accounted(first, s, k) implies id_accounted(
            first,
            r,
            k,
        ) by {
            if buffer_has(s.buffer, id_after(first, k)) {
                let bi = buffer_index(s.buffer, id_after(first, k));
                assert(r.buffer[bi] == s.buffer[bi]);
                assert(buffer_has(r.buffer, id_after(first, k)));
            }
        }
    } else {
        // Duplicate: behind the expectation or already buffered.
        if !buffer_has(s.buffer, e.id) {
            if k0 > d {
                assert(false);
            }
            if k0 == d {
                assert(false);
            }
            assert(k0 < d);
        }
    }
}

/// All arrivals, folded: the invariant holds at the end, and every arrived
/// identity is accounted for.
proof fn lemma_ordered_recv_all_inv(
    first: u16,
    sent: Seq<MessageView>,
    s: OrderedReceiverView,
    arrivals: Seq<EntryView>,
)
    requires
        sent.len() <= 0x7FFF,
        ordered_inv(first, sent, s),
        arrivals_from(first, sent, arrivals),
    ensures
        ordered_inv(first, sent, ordered_recv_all(s, arrivals)),
        forall|k: int|
            0 <= k < sent.len() && #[trigger] id_accounted(first, s, k) ==> id_accounted(
                first,
                ordered_recv_all(s, arrivals),
                k,
            ),
        forall|a: int|
            0 <= a < arrivals.len() ==> id_accounted(
                first,
                ordered_recv_all(s, arrivals),
                entry_pos(first, #[trigger] arrivals[a]),
            ),
    decreases arrivals.len(),
{
    if arrivals.len() > 0 {
        let e = arrivals[0];
        lemma_ordered_recv_one_inv(first, sent, s, e);
        let s1 = ordered_recv_one(s, e);
        let rest = arrivals.skip(1);
        assert(arrivals_from(first, sent, rest)) by {
            assert forall|a: int| 0 <= a < rest.len() implies entry_pos(
                first,
                #[trigger] rest[a],
            ) < sent.len() && rest[a].msg == sent[entry_pos(first, rest[a])] by {
                assert(rest[a] == arrivals[a + 1]);
            }
        }
        lemma_ordered_recv_all_inv(first, sent, s1, rest);
        assert forall|a: int| 0 <= a < arrivals.len() implies id_accounted(
            first,
            ordered_recv_all(s, arrivals),
            entry_pos(first, #[trigger] arrivals[a]),
        ) by {
            if a == 0 {
                assert(id_accounted(first, s1, entry_pos(first, e)));
            } else {
                assert(rest[a - 1] == arrivals[a]);
                assert(id_accounted(
                    first,
                    ordered_recv_all(s1, rest),
                    entry_pos(first, rest[a - 1]),
                ));
            }
        }
    }
}

/// Ordered exactly-once-in-order: whatever order messages arrive in, and
/// however often each is duplicated, what the receiver releases is exactly a
/// prefix of the send order — each identity at most once, never reordered.
/// (With `0x8000` or more identities in flight the wraparound comparison is
/// ambiguous, so the sent run is bounded by half the window.)
pub proof fn lemma_ordered_exactly_once_in_order(
    first: u16,
    sent: Seq<MessageView>,
    arrivals: Seq<EntryView>,
)
    requires
        sent.len() <= 0x7FFF,
        arrivals_from(first, sent, arrivals),
    ensures
        ordered_recv_all(initial_receiver(first), arrivals).ready.len() <= sent.len(),
        ordered_recv_all(initial_receiver(first), arrivals).ready == sent.take(
            ordered_recv_all(initial_receiver(first), arrivals).ready.len() as int,
        ),
{
    let s0 = initial_receiver(first);
    assert(ordered_inv(first, sent, s0)) by {
        assert(s0.ready =~= sent.take(0));
    }
    lemma_ordered_recv_all_inv(first, sent, s0, arrivals);
}

/// And once every identity has arrived at least once, everything is
/// released: the drain order is the send order exactly, and the reorder
/// buffer is empty.
pub proof fn lemma_ordered_complete(first: u16, sent: Seq<MessageView>, arrivals: Seq<EntryView>)
    requires
        sent.len() <= 0x7FFF,
        arrivals_from(first, sent, arrivals),
        forall|k: int|
            #![trigger id_after(first, k)]
            0 <= k < sent.len() ==> exists|a: int|
                0 <= a < arrivals.len() && (#[trigger] arrivals[a]).id == id_after(first, k),
    ensures
        ordered_recv_all(initial_receiver(first), arrivals).ready == sent,
        ordered_recv_all(initial_receiver(first), arrivals).buffer.len() == 0,
{
    let s0 = initial_receiver(first);
    assert(ordered_inv(first, sent, s0)) by {
        assert(s0.ready =~= sent.take(0));
    }
    lemma_ordered_recv_all_inv(first, sent, s0, arrivals);
    let r = ordered_recv_all(s0, arrivals);
    let d = r.ready.len() as int;
    if d < sent.len() {
        assert(id_after(first, d) == id_after(first, d));
        let a = choose|a: int|
            0 <= a < arrivals.len() && (#[trigger] arrivals[a]).id == id_after(first, d);
        lemma_id_after_distance(first, d);
        assert(entry_pos(first, arrivals[a]) == d);
        assert(id_accounted(first, r, d));
        assert(buffer_has(r.buffer, id_after(first, d)));
        let bi = buffer_index(r.buffer, id_after(first, d));
        assert(0 <= bi < r.buffer.len() && r.buffer[bi].id == id_after(first, d));
        assert(d + 1 <= entry_pos(first, r.buffer[bi]));
        assert(false);
    }
    assert(r.ready =~= sent);
    if r.buffer.len() > 0 {
        assert(d + 1 <= entry_pos(first, r.buffer[0]) < sent.len());
        assert(false);
    }
}

/// Receive side of the guaranteed-and-ordered mode.
pub struct OrderedReliableReceiver {
    next_receive_message_id: MessageId,
    buffered_messages: Vec<WireEntry>,
    incoming_messages: Vec<Message>,
}

impl View for OrderedReliableReceiver {
    type V = OrderedReceiverView;

    closed spec fn view(&self) -> OrderedReceiverView {
        OrderedReceiverView {
            next_receive: self.next_receive_message_id,
            buffer: entries_view(self.buffered_messages@),
            ready: self.incoming_messages@.map_values(|m: Message| m@),
        }
    }
}

impl OrderedReliableReceiver {
    /// A fresh receiver expecting identity zero.
    pub fn new() -> (r: Self)
        ensures
            receiver_wf(r@),
            r@ == (OrderedReceiverView {
                next_receive: 0,
                buffer: Seq::<EntryView>::empty(),
                ready: Seq::<MessageView>::empty(),
            }),
    {
        let r = OrderedReliableReceiver {
            next_receive_message_id: 0,
            buffered_messages: Vec::new(),
            incoming_messages: Vec::new(),
        };
        proof {
            assert(r@.buffer =~= Seq::<EntryView>::empty());
            assert(r@.ready =~= Seq::<MessageView>::empty());
        }
        r
    }

    /// The position of the buffered entry carrying `id`, if any.
    fn find_buffered(&self, id: MessageId) -> (r: Option<usize>)
        ensures
            match r {
                Some(i) => i < self@.buffer.len() && self@.buffer[i as int].id == id,
                None => !buffer_has(self@.buffer, id),
            },
    {
        let ghost buf = self@.buffer;
        let n = self.buffered_messages.len();
        let mut i: usize = 0;
        while i < n
            invariant
                n == buf.len(),
                buf == entries_view(self.buffered_messages@),
                i <= n,
                forall|k: int| 0 <= k < i ==> (#[trigger] buf[k]).id != id,
            decreases n - i,
        {
            proof {
                assert(buf[i as int] == self.buffered_messages@[i as int]@);
            }
            if self.buffered_messages[i].id == id {
                return Some(i);
            }
            i = i + 1;
        }
        proof {
            assert(!buffer_has(buf, id));
        }
        None
    }

    /// Handles one arrival by the release / buffer / discard rule.
    pub fn recv_entry(&mut self, entry: WireEntry)
        requires
            receiver_wf(old(self)@),
        ensures
            receiver_wf(final(self)@),
            final(self)@ == ordered_recv_one(old(self)@, entry@),
    {
        let ghost s0 = self@;
        if entry.id == self.next_receive_message_id {
            self.incoming_messages.push(entry.message);
            self.next_receive_message_id = next_message_id(self.next_receive_message_id);
            let ghost v0 = OrderedReceiverView {
                next_receive: spec_next_id(s0.next_receive),
                buffer: s0.buffer,
                ready: s0.ready.push(entry@.msg),
            };
            proof {
                assert(self@.ready =~= s0.ready.push(entry@.msg));
                assert(self@ == v0);
                assert forall|k: int| 0 <= k < self@.buffer.len() implies 0 <= spec_distance(
                    self@.next_receive,
                    (#[trigger] self@.buffer[k]).id,
                ) <= 0x7FFF by {
                    let e = self@.buffer[k];
                    lemma_greater_iff_distance(e.id, s0.next_receive);
                    lemma_distance_injective(s0.next_receive, e.id, e.id);
                    assert(e.id != s0.next_receive);
                    lemma_distance_next(s0.next_receive, e.id);
                }
            }
            // Drain the contiguous run now standing at the front.
            loop
                invariant
                    buffer_ids_unique(self@.buffer),
                    forall|k: int|
                        0 <= k < self@.buffer.len() ==> 0 <= spec_distance(
                            self@.next_receive,
                            (#[trigger] self@.buffer[k]).id,
                        ) <= 0x7FFF,
                    ordered_release(self@) == ordered_release(v0),
                ensures
                    receiver_wf(self@),
                    self@ == ordered_release(v0),
                decreases self@.buffer.len(),
            {
                let ghost s = self@;
                let found = self.find_buffered(self.next_receive_message_id);
                match found {
                    None => {
                        proof {
                            assert(!buffer_has(s.buffer, s.next_receive));
                            assert(ordered_release(s) == s);
                            assert forall|k: int|
                                0 <= k < s.buffer.len() implies spec_sequence_greater_than(
                                (#[trigger] s.buffer[k]).id,
                                s.next_receive,
                            ) by {
                                let e = s.buffer[k];
                                lemma_distance_injective(s.next_receive, e.id, e.id);
                                assert(e.id != s.next_receive);
                                assert(spec_distance(s.next_receive, e.id) >= 1);
                                lemma_greater_iff_distance(e.id, s.next_receive);
                            }
                        }
                        break ;
                    },
                    Some(i) => {
                        proof {
                            assert(buffer_has(s.buffer, s.next_receive));
                            lemma_buffer_index_unique(s.buffer, i as int);
                        }
                        let ghost pre = self.buffered_messages@;
                        let e = self.buffered_messages.remove(i);
                        self.incoming_messages.push(e.message);
                        self.next_receive_message_id = next_message_id(
                            self.next_receive_message_id,
                        );
                        proof {
                            assert(entries_view(pre)[i as int] == pre[i as int]@);
                            assert(self@.buffer =~= s.buffer.remove(i as int));
                            assert(self@.ready =~= s.ready.push(s.buffer[i as int].msg));
                            assert(self@ == (OrderedReceiverView {
                                next_receive: spec_next_id(s.next_receive),
                                buffer: s.buffer.remove(i as int),
                                ready: s.ready.push(s.buffer[i as int].msg),
                            }));
                            assert(ordered_release(s) == ordered_release(self@));
                            assert forall|a: int, b: int|
                                0 <= a < b < self@.buffer.len() implies (
                            #[trigger] self@.buffer[a]).id != (#[trigger] self@.buffer[b]).id by {
                                let a0 = if a < i { a } else { a + 1 };
                                let b0 = if b < i { b } else { b + 1 };
                                assert(self@.buffer[a] == s.buffer[a0]);
                                assert(self@.buffer[b] == s.buffer[b0]);
                                assert(s.buffer[a0].id != s.buffer[b0].id);
                            }
                            assert forall|k: int| 0 <= k < self@.buffer.len() implies 0
                                <= spec_distance(
                                self@.next_receive,
                                (#[trigger] self@.buffer[k]).id,
                            ) <= 0x7FFF by {
                                let k0 = if k < i { k } else { k + 1 };
                                let e2 = s.buffer[k0];
                                assert(self@.buffer[k] == e2);
                                assert(e2.id != s.buffer[i as int].id);
                                lemma_distance_injective(s.next_receive, e2.id, s.next_receive);
                                assert(e2.id != s.next_receive);
                                lemma_distance_next(s.next_receive, e2.id);
                            }
                        }
                    },
                }
            }
        } else if sequence_greater_than(entry.id, self.next_receive_message_id) {
            match self.find_buffered(entry.id) {
                Some(_) => {
                    // Already buffered: a duplicate arrival, discarded.
                },
                None => {
                    proof {
                        assert(entries_view(self.buffered_messages@.push(entry)) =~= self@
                            .buffer.push(entry@));
                    }
                    let ghost sb = self@;
                    self.buffered_messages.push(entry);
                    proof {
                        assert(self@.buffer == sb.buffer.push(entry@));
                        assert forall|a: int, b: int|
                            0 <= a < b < self@.buffer.len() implies (
                        #[trigger] self@.buffer[a]).id != (#[trigger] self@.buffer[b]).id by {
                            if b < sb.buffer.len() {
                                assert(sb.buffer[a].id != sb.buffer[b].id);
                            } else {
                                assert(self@.buffer[b] == entry@);
                                assert(!buffer_has(sb.buffer, entry@.id));
                                assert(self@.buffer[a] == sb.buffer[a]);
                            }
                        }
                    }
                },
            }
        } else {
            // Behind the expectation: already released once, discarded.
        }
    }

    /// Applies a decoded run of arrivals, front to back.
    pub fn apply_incoming(&mut self, entries: Vec<WireEntry>)
        requires
            receiver_wf(old(self)@),
        ensures
            receiver_wf(final(self)@),
            final(self)@ == ordered_recv_all(old(self)@, entries_view(entries@)),
    {
        let ghost es = entries_view(entries@);
        let total = entries.len();
        let mut entries = entries;
        let mut i: usize = 0;
        proof {
            assert(es.skip(0) =~= es);
        }
        while entries.len() > 0
            invariant
                receiver_wf(self@),
                i + entries@.len() == total,
                es.len() == total,
                entries_view(entries@) =~= es.skip(i as int),
                ordered_recv_all(self@, es.skip(i as int)) == ordered_recv_all(old(self)@, es),
            decreases entries@.len(),
        {
            let ghost pre = entries@;
            let entry = entries.remove(0);
            proof {
                assert(entries_view(pre)[0] == pre[0]@);
                assert(entry@ == es[i as int]);
                assert(entries_view(entries@) =~= entries_view(pre).skip(1));
                assert(entries_view(pre).skip(1) =~= es.skip(i + 1));
            }
            self.recv_entry(entry);
            i = i + 1;
        }
    }

    /// Decodes this channel's block and applies it; a malformed block fails
    /// without touching the receiver.
    pub fn read_messages(&mut self, reader: &mut BitReader, manifest: &Manifest) -> (r: Result<
        (),
        SerdeErr,
    >)
        requires
            receiver_wf(old(self)@),
        ensures
            receiver_wf(final(self)@),
            match parse_block(old(reader)@, true, manifest@) {
                Some((es, c)) => r is Ok && final(self)@ == ordered_recv_all(old(self)@, es)
                    && final(reader)@ == old(reader)@.skip(c),
                None => r is Err && final(self)@ == old(self)@ && suffix_of(
                    final(reader)@,
                    old(reader)@,
                ),
            },
    {
        let entries = match read_block(reader, true, manifest) {
            Ok(v) => v,
            Err(e) => {
                return Err(e);
            },
        };
        self.apply_incoming(entries);
        Ok(())
    }

    /// Drains every message released so far, in send order.
    pub fn collect_incoming_messages(&mut self) -> (r: Vec<Message>)
        ensures
            r@.map_values(|m: Message| m@) == old(self)@.ready,
            final(self)@.ready == Seq::<MessageView>::empty(),
            final(self)@.buffer == old(self)@.buffer,
            final(self)@.next_receive == old(self)@.next_receive,
    {
        let mut out: Vec<Message> = Vec::new();
        std::mem::swap(&mut out, &mut self.incoming_messages);
        proof {
            assert(self@.ready =~= Seq::<MessageView>::empty());
        }
        out
    }

    /// How many messages wait in the reorder buffer.
    pub fn buffered_message_count(&self) -> (r: usize)
        ensures
            r == self@.buffer.len(),
    {
        self.buffered_messages.len()
    }
}

/// The mathematical state of a guaranteed-and-ordered channel.
pub ghost struct OrderedReliableChannelView {
    pub sender: ReliableSenderView,
    pub receiver: OrderedReceiverView,
}

/// One guaranteed-and-ordered channel: a reliable sender and an ordering
/// receiver.
pub struct OrderedReliableChannel {
    sender: ReliableSender,
    receiver: OrderedReliableReceiver,
}

impl View for OrderedReliableChannel {
    type V = OrderedReliableChannelView;

    closed spec fn view(&self) -> OrderedReliableChannelView {
        OrderedReliableChannelView { sender: self.sender@, receiver: self.receiver@ }
    }
}

impl OrderedReliableChannel {
    /// The channel's invariant: the sender's and the receiver's own.
    pub open spec fn wf(self) -> bool {
        &&& sender_wf(self@.sender)
        &&& receiver_wf(self@.receiver)
    }

    /// A fresh channel with the given tuning.
    pub fn new(settings: &ReliableSettings) -> (r: Self)
        ensures
            r.wf(),
            r@.sender == (ReliableSenderView {
                next_id: 0,
                records: Seq::<crate::reliable_sender::RecordView>::empty(),
                interval: settings.resend_interval,
                now: 0,
            }),
            r@.receiver == (OrderedReceiverView {
                next_receive: 0,
                buffer: Seq::<EntryView>::empty(),
                ready: Seq::<MessageView>::empty(),
            }),
    {
        OrderedReliableChannel {
            sender: ReliableSender::new(settings.resend_interval),
            receiver: OrderedReliableReceiver::new(),
        }
    }

    /// Accepts a message for guaranteed, ordered transmission.
    pub fn send_message(&mut self, message: Message)
        requires
            old(self).wf(),
            message@.wf(),
        ensures
            final(self).wf(),
            final(self)@.sender == enqueue_transition(old(self)@.sender, message@),
            final(self)@.receiver == old(self)@.receiver,
    {
        self.sender.send_message(message);
    }

    /// One tick: re-arms overdue records.
    pub fn collect_outgoing_messages(&mut self)
        requires
            old(self).wf(),
        ensures
            final(self).wf(),
            final(self)@.sender == collect_transition(old(self)@.sender),
            final(self)@.receiver == old(self)@.receiver,
    {
        self.sender.collect_outgoing_messages();
    }

    /// Whether the next write would carry anything.
    pub fn has_outgoing_messages(&self) -> (r: bool)
        ensures
            r == has_ready_record(self@.sender.records),
    {
        self.sender.has_outgoing_messages()
    }

    /// Writes every ready record, identities included, and reports them.
    pub fn write_messages(&mut self, writer: &mut BitWriter) -> (r: Option<Vec<MessageId>>)
        requires
            old(self).wf(),
        ensures
            final(self).wf(),
            final(self)@.receiver == old(self)@.receiver,
            final(self)@.sender.next_id == old(self)@.sender.next_id,
            final(self)@.sender.interval == old(self)@.sender.interval,
            final(self)@.sender.now == old(self)@.sender.now,
            ready_entries(old(self)@.sender.records).len() == 0 ==> r is None && final(self)@
                == old(self)@ && final(writer)@ == old(writer)@,
            ready_entries(old(self)@.sender.records).len() > 0 ==> (r matches Some(ids) && ids@
                == ready_ids(old(self)@.sender.records)) && final(self)@.sender.records
                == mark_sent(old(self)@.sender.records, old(self)@.sender.now)
                && final(writer)@ == old(writer)@ + enc_block(
                ready_entries(old(self)@.sender.records),
                true,
            ),
    {
        self.sender.write_messages(writer)
    }

    /// Forwards a delivery confirmation: the acknowledged record leaves.
    pub fn notify_message_delivered(&mut self, message_id: MessageId)
        requires
            old(self).wf(),
        ensures
            final(self).wf(),
            final(self)@.sender.records == ack_transition(old(self)@.sender.records, message_id),
            final(self)@.sender.next_id == old(self)@.sender.next_id,
            final(self)@.sender.interval == old(self)@.sender.interval,
            final(self)@.sender.now == old(self)@.sender.now,
            final(self)@.receiver == old(self)@.receiver,
    {
        self.sender.notify_message_delivered(message_id);
    }

    /// Applies a decoded run of arrivals to the ordering receiver.
    pub fn apply_incoming(&mut self, entries: Vec<WireEntry>)
        requires
            old(self).wf(),
        ensures
            final(self).wf(),
            final(self)@.sender == old(self)@.sender,
            final(self)@.receiver == ordered_recv_all(old(self)@.receiver, entries_view(entries@)),
    {
        self.receiver.apply_incoming(entries);
    }

    /// Decodes this channel's block from an incoming packet and applies it.
    pub fn read_messages(&mut self, reader: &mut BitReader, manifest: &Manifest) -> (r: Result<
        (),
        SerdeErr,
    >)
        requires
            old(self).wf(),
        ensures
            final(self).wf(),
            final(self)@.sender == old(self)@.sender,
            match parse_block(old(reader)@, true, manifest@) {
                Some((es, c)) => r is Ok && final(self)@.receiver == ordered_recv_all(
                    old(self)@.receiver,
                    es,
                ) && final(reader)@ == old(reader)@.skip(c),
                None => r is Err && final(self)@ == old(self)@ && suffix_of(
                    final(reader)@,
                    old(reader)@,
                ),
            },
    {
        self.receiver.read_messages(reader, manifest)
    }

    /// Drains every message released so far, in send order.
    pub fn collect_incoming_messages(&mut self) -> (r: Vec<Message>)
        requires
            old(self).wf(),
        ensures
            final(self).wf(),
            r@.map_values(|m: Message| m@) == old(self)@.receiver.ready,
            final(self)@.receiver.ready == Seq::<MessageView>::empty(),
            final(self)@.receiver.buffer == old(self)@.receiver.buffer,
            final(self)@.receiver.next_receive == old(self)@.receiver.next_receive,
            final(self)@.sender == old(self)@.sender,
    {
        self.receiver.collect_incoming_messages()
    }

    /// How many messages wait in the reorder buffer.
    pub fn buffered_message_count(&self) -> (r: usize)
        ensures
            r == self@.receiver.buffer.len(),
    {
        self.receiver.buffered_message_count()
    }
}

} // verus!
