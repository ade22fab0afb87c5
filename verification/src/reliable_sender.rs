//! Send side of the reliable channel modes.
//!
//! Every accepted message gets a wrapping identity and lives in an outgoing
//! record from first transmission until acknowledged.  A record is written
//! when ready: new records are ready at once, and a record whose last
//! transmission lies at least the resend interval in the past becomes ready
//! again at the next tick, so an unacknowledged message is offered again and
//! again until its packet is confirmed delivered.

use vstd::prelude::*;
use crate::bits::BitWriter;
use crate::codec::{EntryView, enc_block, enc_count, enc_entries, lemma_enc_entries_snoc,
    write_entry, write_list_header};
use crate::message::{Message, MessageView};
use crate::wrapping_number::{next_message_id, spec_next_id};
use crate::MessageId;

verus! {

/// The mathematical value of one outgoing record.
pub ghost struct RecordView {
    pub id: u16,
    pub msg: MessageView,
    pub last_sent: u64,
    pub ready: bool,
}

/// The mathematical state of a reliable sender.
pub ghost struct ReliableSenderView {
    pub next_id: u16,
    pub records: Seq<RecordView>,
    pub interval: u64,
    pub now: u64,
}

/// No two live records share an identity.
pub open spec fn record_ids_unique(records: Seq<RecordView>) -> bool {
    forall|i: int, j: int| 0 <= i < j < records.len() ==> (#[trigger] records[i]).id != (
    #[trigger] records[j]).id
}

/// Some record carries the given identity.
pub open spec fn has_record_id(records: Seq<RecordView>, id: u16) -> bool {
    exists|i: int| 0 <= i < records.len() && (#[trigger] records[i]).id == id
}

/// The position of the record with the given identity.
pub open spec fn record_id_index(records: Seq<RecordView>, id: u16) -> int {
    choose|i: int| 0 <= i < records.len() && (#[trigger] records[i]).id == id
}

/// With unique identities the position of an identity is the one that holds
/// it.
pub proof fn lemma_record_id_index_unique(records: Seq<RecordView>, i: int)
    requires
        record_ids_unique(records),
        0 <= i < records.len(),
    ensures
        record_id_index(records, records[i].id) == i,
{
    let id = records[i].id;
    assert(has_record_id(records, id));
    let j = record_id_index(records, id);
    if i < j {
        assert(records[i].id != records[j].id);
    } else if j < i {
        assert(records[j].id != records[i].id);
    }
}

/// Some record is ready to be written into the next packet.
pub open spec fn has_ready_record(records: Seq<RecordView>) -> bool {
    exists|i: int| 0 <= i < records.len() && (#[trigger] records[i]).ready
}

/// The entries the next write carries: every ready record, in record order,
/// with its identity on the wire.
pub open spec fn ready_entries(records: Seq<RecordView>) -> Seq<EntryView>
    decreases records.len(),
{
    if records.len() == 0 {
        Seq::<EntryView>::empty()
    } else {
        let rest = ready_entries(records.drop_last());
        if records.last().ready {
            rest.push(EntryView { id: records.last().id, msg: records.last().msg })
        } else {
            rest
        }
    }
}

/// The identities the next write reports, in the order they are written.
pub open spec fn ready_ids(records: Seq<RecordView>) -> Seq<u16>
    decreases records.len(),
{
    if records.len() == 0 {
        Seq::<u16>::empty()
    } else {
        let rest = ready_ids(records.drop_last());
        if records.last().ready {
            rest.push(records.last().id)
        } else {
            rest
        }
    }
}

/// One record after a write: a written record rests, stamped with the write
/// time; the others stand as they were.
pub open spec fn record_sent(r: RecordView, now: u64) -> RecordView {
    if r.ready {
        RecordView { ready: false, last_sent: now, ..r }
    } else {
        r
    }
}

/// All records after a write.
pub open spec fn mark_sent(records: Seq<RecordView>, now: u64) -> Seq<RecordView> {
    Seq::new(records.len(), |i: int| record_sent(records[i], now))
}

/// One tick of the sender's clock, saturating at the top.
pub open spec fn spec_tick(now: u64) -> u64 {
    if now == u64::MAX {
        now
    } else {
        (now + 1) as u64
    }
}

/// One record after a tick: it becomes ready again when the resend interval
/// has elapsed since its last transmission.
pub open spec fn record_collected(r: RecordView, now: u64, interval: u64) -> RecordView {
    RecordView { ready: r.ready || now - r.last_sent >= interval, ..r }
}

/// The sender after a tick: the clock advances and overdue records are
/// re-armed; nothing else moves.
pub open spec fn collect_transition(s: ReliableSenderView) -> ReliableSenderView {
    ReliableSenderView {
        now: spec_tick(s.now),
        records: Seq::new(
            s.records.len(),
            |i: int| record_collected(s.records[i], spec_tick(s.now), s.interval),
        ),
        ..s
    }
}

/// The sender after accepting a message: the next identity is assigned and a
/// ready record appended.  In the pathological state where the next identity
/// is still unacknowledged, or the record table is full, the message is
/// dropped rather than an identity reused.
pub open spec fn enqueue_transition(s: ReliableSenderView, m: MessageView) -> ReliableSenderView {
    if s.records.len() < 0xFFFF && !has_record_id(s.records, s.next_id) {
        ReliableSenderView {
            next_id: spec_next_id(s.next_id),
            records: s.records.push(
                RecordView { id: s.next_id, msg: m, last_sent: s.now, ready: true },
            ),
            ..s
        }
    } else {
        s
    }
}

/// The records after an acknowledgment: the record with the acknowledged
/// identity leaves; acknowledging an identity no record holds changes
/// nothing.
pub open spec fn ack_transition(records: Seq<RecordView>, id: u16) -> Seq<RecordView> {
    if has_record_id(records, id) {
        records.remove(record_id_index(records, id))
    } else {
        records
    }
}

/// The sender's invariant: identities unique, the table within the count
/// header's range, every kept message within the wire format, and no record
/// stamped later than the clock.
pub open spec fn sender_wf(s: ReliableSenderView) -> bool {
    &&& record_ids_unique(s.records)
    &&& s.records.len() <= 0xFFFF
    &&& forall|i: int| 0 <= i < s.records.len() ==> (#[trigger] s.records[i]).msg.wf()
    &&& forall|i: int| 0 <= i < s.records.len() ==> (#[trigger] s.records[i]).last_sent <= s.now
}

/// Reliable at-least-once: a record that has waited at least the resend
/// interval when the next tick happens is ready after that tick, and the
/// next write offers its identity again.  Only an acknowledgment removes a
/// record, so an unacknowledged message is re-offered forever.
pub proof fn lemma_reliable_resend(s: ReliableSenderView, i: int)
    requires
        0 <= i < s.records.len(),
        spec_tick(s.now) - s.records[i].last_sent >= s.interval,
    ensures
        collect_transition(s).records[i].ready,
        ready_ids(collect_transition(s).records).contains(s.records[i].id),
{
    let after = collect_transition(s).records;
    lemma_ready_ids_contains(after, i);
}

/// The next write carries nothing exactly when no record is ready.
pub proof fn lemma_ready_entries_empty(records: Seq<RecordView>)
    ensures
        ready_entries(records).len() == 0 <==> !has_ready_record(records),
        ready_ids(records).len() == ready_entries(records).len(),
    decreases records.len(),
{
    if records.len() == 0 {
    } else {
        lemma_ready_entries_empty(records.drop_last());
        if records.last().ready {
            assert(records[records.len() - 1].ready);
            assert(has_ready_record(records));
        } else {
            assert forall|i: int| 0 <= i < records.len() && (#[trigger] records[i]).ready implies
                has_ready_record(records.drop_last()) by {
                assert(i < records.len() - 1);
                assert(records.drop_last()[i].ready);
            }
        }
    }
}

/// A ready record's identity stands among the written identities.
pub proof fn lemma_ready_ids_contains(records: Seq<RecordView>, i: int)
    requires
        0 <= i < records.len(),
        records[i].ready,
    ensures
        ready_ids(records).contains(records[i].id),
    decreases records.len(),
{
    if i + 1 == records.len() {
        assert(records.last() == records[i]);
        assert(ready_ids(records).last() == records[i].id);
    } else {
        lemma_ready_ids_contains(records.drop_last(), i);
        assert(records.drop_last()[i] == records[i]);
        let ids = ready_ids(records.drop_last());
        let k = choose|k: int| 0 <= k < ids.len() && ids[k] == records[i].id;
        if records.last().ready {
            assert(ready_ids(records)[k] == records[i].id);
        } else {
            assert(ready_ids(records)[k] == records[i].id);
        }
    }
}

/// One outgoing message record: the message, its identity, when it was last
/// written, and whether it is due to be written.
pub struct OutgoingMessageRecord {
    id: MessageId,
    message: Message,
    last_sent: u64,
    ready: bool,
}

impl View for OutgoingMessageRecord {
    type V = RecordView;

    closed spec fn view(&self) -> RecordView {
        RecordView {
            id: self.id,
            msg: self.message@,
            last_sent: self.last_sent,
            ready: self.ready,
        }
    }
}

/// The views of a table of records.
pub open spec fn records_view(v: Seq<OutgoingMessageRecord>) -> Seq<RecordView> {
    v.map_values(|r: OutgoingMessageRecord| r@)
}

/// Send side of a reliable channel.
pub struct ReliableSender {
    next_message_id: MessageId,
    outgoing_messages: Vec<OutgoingMessageRecord>,
    resend_interval: u64,
    now: u64,
}

impl View for ReliableSender {
    type V = ReliableSenderView;

    closed spec fn view(&self) -> ReliableSenderView {
        ReliableSenderView {
            next_id: self.next_message_id,
            records: records_view(self.outgoing_messages@),
            interval: self.resend_interval,
            now: self.now,
        }
    }
}

impl ReliableSender {
    /// The sender keeps identities unique, the table within the count
    /// header's range, and every kept message within the wire format.
    pub open spec fn wf(self) -> bool {
        sender_wf(self@)
    }

    /// A fresh sender: no records, identities start at zero, clock at zero.
    pub fn new(resend_interval: u64) -> (r: Self)
        ensures
            r.wf(),
            r@ == (ReliableSenderView {
                next_id: 0,
                records: Seq::<RecordView>::empty(),
                interval: resend_interval,
                now: 0,
            }),
    {
        let r = ReliableSender {
            next_message_id: 0,
            outgoing_messages: Vec::new(),
            resend_interval,
            now: 0,
        };
        proof {
            assert(r@.records =~= Seq::<RecordView>::empty());
        }
        r
    }

    /// Accepts a message: assigns the next identity and appends a ready
    /// record, which lives until that identity is acknowledged.
    pub fn send_message(&mut self, message: Message)
        requires
            old(self).wf(),
            message@.wf(),
        ensures
            final(self).wf(),
            final(self)@ == enqueue_transition(old(self)@, message@),
    {
        let ghost recs = self@.records;
        if self.outgoing_messages.len() >= 0xFFFF {
            return ;
        }
        let n = self.outgoing_messages.len();
        let mut j: usize = 0;
        while j < n
            invariant
                old(self).wf(),
                n == recs.len(),
                recs == records_view(self.outgoing_messages@),
                j <= n,
                forall|k: int| 0 <= k < j ==> (#[trigger] recs[k]).id != self.next_message_id,
                self@ == old(self)@,
            decreases n - j,
        {
            proof {
                assert(recs[j as int] == self.outgoing_messages@[j as int]@);
            }
            if self.outgoing_messages[j].id == self.next_message_id {
                proof {
                    assert(has_record_id(recs, old(self)@.next_id));
                }
                return ;
            }
            j = j + 1;
        }
        assert(!has_record_id(recs, old(self)@.next_id));
        let record = OutgoingMessageRecord {
            id: self.next_message_id,
            message,
            last_sent: self.now,
            ready: true,
        };
        self.outgoing_messages.push(record);
        self.next_message_id = next_message_id(self.next_message_id);
        proof {
            assert(self@.records =~= recs.push(
                RecordView {
                    id: old(self)@.next_id,
                    msg: message@,
                    last_sent: old(self)@.now,
                    ready: true,
                },
            ));
            assert forall|a: int, b: int| 0 <= a < b < self@.records.len() implies (
            #[trigger] self@.records[a]).id != (#[trigger] self@.records[b]).id by {
                if b < recs.len() {
                    assert(recs[a].id != recs[b].id);
                } else {
                    assert(self@.records[b].id == old(self)@.next_id);
                }
            }
            assert forall|k: int| 0 <= k < self@.records.len() implies (
            #[trigger] self@.records[k]).msg.wf() && self@.records[k].last_sent <= self@.now by {
                if k < recs.len() {
                    assert(self@.records[k] == recs[k]);
                    assert(recs[k].msg.wf() && recs[k].last_sent <= old(self)@.now);
                }
            }
        }
    }

    /// One tick: re-arms every record whose last transmission lies at least
    /// the resend interval in the past.
    pub fn collect_outgoing_messages(&mut self)
        requires
            old(self).wf(),
        ensures
            final(self).wf(),
            final(self)@ == collect_transition(old(self)@),
    {
        let ghost recs = self@.records;
        if self.now < u64::MAX {
            self.now = self.now + 1;
        }
        let now = self.now;
        let total = self.outgoing_messages.len();
        let mut rebuilt: Vec<OutgoingMessageRecord> = Vec::new();
        let mut i: usize = 0;
        while self.outgoing_messages.len() > 0
            invariant
                old(self).wf(),
                recs == old(self)@.records,
                i + self.outgoing_messages@.len() == total,
                recs.len() == total,
                now == spec_tick(old(self)@.now),
                self.now == now,
                self.next_message_id == old(self)@.next_id,
                self.resend_interval == old(self)@.interval,
                records_view(self.outgoing_messages@) =~= recs.skip(i as int),
                records_view(rebuilt@).len() == i,
                forall|k: int| 0 <= k < i ==> records_view(rebuilt@)[k] == record_collected(
                    recs[k],
                    now,
                    old(self)@.interval,
                ),
            decreases self.outgoing_messages@.len(),
        {
            let ghost pre = self.outgoing_messages@;
            let mut rec = self.outgoing_messages.remove(0);
            proof {
                assert(records_view(pre)[0] == pre[0]@);
                assert(rec@ == recs[i as int]);
                assert(records_view(self.outgoing_messages@) =~= records_view(pre).skip(1));
                assert(records_view(pre).skip(1) =~= recs.skip(i + 1));
            }
            proof {
                assert(recs[i as int].last_sent <= old(self)@.now <= now);
            }
            let due = now - rec.last_sent >= self.resend_interval;
            if due && !rec.ready {
                rec = OutgoingMessageRecord { ready: true, ..rec };
            }
            proof {
                assert(rec@ == record_collected(recs[i as int], now, old(self)@.interval));
                assert(records_view(rebuilt@.push(rec)) =~= records_view(rebuilt@).push(rec@));
            }
            rebuilt.push(rec);
            i = i + 1;
        }
        self.outgoing_messages = rebuilt;
        proof {
            assert(self@.records =~= collect_transition(old(self)@).records);
            assert forall|k: int| 0 <= k < self@.records.len() implies (
            #[trigger] self@.records[k]).msg.wf() && self@.records[k].last_sent <= self@.now by {
                assert(self@.records[k] == record_collected(recs[k], now, old(self)@.interval));
                assert(recs[k].msg.wf() && recs[k].last_sent <= old(self)@.now);
            }
            assert forall|a: int, b: int| 0 <= a < b < self@.records.len() implies (
            #[trigger] self@.records[a]).id != (#[trigger] self@.records[b]).id by {
                assert(self@.records[a] == record_collected(recs[a], now, old(self)@.interval));
                assert(self@.records[b] == record_collected(recs[b], now, old(self)@.interval));
                assert(recs[a].id != recs[b].id);
            }
        }
    }

    /// Whether the next write would carry anything.
    pub fn has_outgoing_messages(&self) -> (r: bool)
        ensures
            r == has_ready_record(self@.records),
    {
        let ghost recs = self@.records;
        let n = self.outgoing_messages.len();
        let mut i: usize = 0;
        while i < n
            invariant
                n == recs.len(),
                recs == records_view(self.outgoing_messages@),
                i <= n,
                forall|k: int| 0 <= k < i ==> !(#[trigger] recs[k]).ready,
            decreases n - i,
        {
            proof {
                assert(recs[i as int] == self.outgoing_messages@[i as int]@);
            }
            if self.outgoing_messages[i].ready {
                proof {
                    assert(has_ready_record(recs));
                }
                return true;
            }
            i = i + 1;
        }
        false
    }

    /// Removes the record with the acknowledged identity; an identity no
    /// record holds is a no-op (a late or repeated acknowledgment).
    pub fn notify_message_delivered(&mut self, message_id: MessageId)
        requires
            old(self).wf(),
        ensures
            final(self).wf(),
            final(self)@.records == ack_transition(old(self)@.records, message_id),
            final(self)@.next_id == old(self)@.next_id,
            final(self)@.interval == old(self)@.interval,
            final(self)@.now == old(self)@.now,
    {
        let ghost recs = self@.records;
        let n = self.outgoing_messages.len();
        let mut i: usize = 0;
        while i < n
            invariant
                old(self).wf(),
                n == recs.len(),
                recs == records_view(self.outgoing_messages@),
                record_ids_unique(recs),
                i <= n,
                forall|k: int| 0 <= k < i ==> (#[trigger] recs[k]).id != message_id,
                self@ == old(self)@,
            decreases n - i,
        {
            proof {
                assert(recs[i as int] == self.outgoing_messages@[i as int]@);
            }
            if self.outgoing_messages[i].id == message_id {
                proof {
                    lemma_record_id_index_unique(recs, i as int);
                    assert(has_record_id(recs, message_id));
                }
                self.outgoing_messages.remove(i);
                proof {
                    assert(self@.records =~= recs.remove(i as int));
                    assert forall|a: int, b: int|
                        0 <= a < b < self@.records.len() implies (#[trigger] self@.records[a]).id
                        != (#[trigger] self@.records[b]).id by {
                        let a0 = if a < i { a } else { a + 1 };
                        let b0 = if b < i { b } else { b + 1 };
                        assert(self@.records[a] == recs[a0]);
                        assert(self@.records[b] == recs[b0]);
                        assert(recs[a0].id != recs[b0].id);
                    }
                    assert forall|k: int| 0 <= k < self@.records.len() implies (
                    #[trigger] self@.records[k]).msg.wf() && self@.records[k].last_sent
                        <= self@.now by {
                        let k0 = if k < i { k } else { k + 1 };
                        assert(self@.records[k] == recs[k0]);
                        assert(recs[k0].msg.wf() && recs[k0].last_sent <= old(self)@.now);
                    }
                }
                return ;
            }
            i = i + 1;
        }
        proof {
            assert(!has_record_id(recs, message_id));
        }
    }

    /// Writes every ready record into the packet, stamps it with the write
    /// time, and reports the identities written; with nothing ready, nothing
    /// is written and the caller owes the zero header.
    pub fn write_messages(&mut self, writer: &mut BitWriter) -> (r: Option<Vec<MessageId>>)
        requires
            old(self).wf(),
        ensures
            final(self).wf(),
            final(self)@.next_id == old(self)@.next_id,
            final(self)@.interval == old(self)@.interval,
            final(self)@.now == old(self)@.now,
            ready_entries(old(self)@.records).len() == 0 ==> r is None && final(self)@ == old(
                self,
            )@ && final(writer)@ == old(writer)@,
            ready_entries(old(self)@.records).len() > 0 ==> (r matches Some(ids) && ids@
                == ready_ids(old(self)@.records)) && final(self)@.records == mark_sent(
                old(self)@.records,
                old(self)@.now,
            ) && final(writer)@ == old(writer)@ + enc_block(ready_entries(old(self)@.records), true),
    {
        let ghost recs = self@.records;
        let n = self.outgoing_messages.len();
        let mut ready_count: usize = 0;
        let mut i: usize = 0;
        while i < n
            invariant
                old(self).wf(),
                n == recs.len(),
                recs == records_view(self.outgoing_messages@),
                i <= n,
                ready_count == ready_entries(recs.take(i as int)).len(),
                ready_count <= i,
                self@ == old(self)@,
            decreases n - i,
        {
            proof {
                assert(recs[i as int] == self.outgoing_messages@[i as int]@);
                assert(recs.take(i + 1).drop_last() =~= recs.take(i as int));
                assert(recs.take(i + 1).last() == recs[i as int]);
            }
            if self.outgoing_messages[i].ready {
                ready_count = ready_count + 1;
            }
            i = i + 1;
        }
        proof {
            assert(recs.take(n as int) =~= recs);
        }
        if ready_count == 0 {
            return None;
        }
        let ghost ready = ready_entries(recs);
        let ghost now0 = self@.now;
        write_list_header(writer, ready_count as u16);
        let total = self.outgoing_messages.len();
        let mut rebuilt: Vec<OutgoingMessageRecord> = Vec::new();
        let mut ids: Vec<MessageId> = Vec::new();
        let mut j: usize = 0;
        while self.outgoing_messages.len() > 0
            invariant
                old(self).wf(),
                recs == old(self)@.records,
                now0 == old(self)@.now,
                j + self.outgoing_messages@.len() == total,
                recs.len() == total,
                ready.len() == ready_count,
                ready == ready_entries(recs),
                ready_count <= 0xFFFF,
                forall|k: int| 0 <= k < recs.len() ==> (#[trigger] recs[k]).msg.wf(),
                self.now == now0,
                self.next_message_id == old(self)@.next_id,
                self.resend_interval == old(self)@.interval,
                records_view(self.outgoing_messages@) =~= recs.skip(j as int),
                records_view(rebuilt@) =~= mark_sent(recs.take(j as int), now0),
                ids@ == ready_ids(recs.take(j as int)),
                writer@ == old(writer)@ + enc_count(ready_count as u16) + enc_entries(
                    ready_entries(recs.take(j as int)),
                    true,
                ),
            decreases self.outgoing_messages@.len(),
        {
            let ghost pre = self.outgoing_messages@;
            let rec = self.outgoing_messages.remove(0);
            proof {
                assert(records_view(pre)[0] == pre[0]@);
                assert(rec@ == recs[j as int]);
                assert(records_view(self.outgoing_messages@) =~= records_view(pre).skip(1));
                assert(records_view(pre).skip(1) =~= recs.skip(j + 1));
                assert(recs.take(j + 1).drop_last() =~= recs.take(j as int));
                assert(recs.take(j + 1).last() == recs[j as int]);
            }
            if rec.ready {
                write_entry(writer, true, rec.id, &rec.message);
                ids.push(rec.id);
                let sent = OutgoingMessageRecord {
                    id: rec.id,
                    message: rec.message,
                    last_sent: self.now,
                    ready: false,
                };
                proof {
                    lemma_enc_entries_snoc(
                        ready_entries(recs.take(j as int)),
                        EntryView { id: recs[j as int].id, msg: recs[j as int].msg },
                        true,
                    );
                    assert(sent@ == record_sent(recs[j as int], now0));
                    assert(records_view(rebuilt@.push(sent)) =~= records_view(rebuilt@).push(
                        sent@,
                    ));
                    assert(mark_sent(recs.take(j as int), now0).push(record_sent(
                        recs[j as int],
                        now0,
                    )) =~= mark_sent(recs.take(j + 1), now0));
                }
                rebuilt.push(sent);
            } else {
                proof {
                    assert(rec@ == record_sent(recs[j as int], now0));
                    assert(records_view(rebuilt@.push(rec)) =~= records_view(rebuilt@).push(rec@));
                    assert(mark_sent(recs.take(j as int), now0).push(record_sent(
                        recs[j as int],
                        now0,
                    )) =~= mark_sent(recs.take(j + 1), now0));
                }
                rebuilt.push(rec);
            }
            j = j + 1;
        }
        self.outgoing_messages = rebuilt;
        proof {
            assert(recs.take(recs.len() as int) =~= recs);
            assert(self@.records =~= mark_sent(recs, now0));
            assert forall|a: int, b: int| 0 <= a < b < self@.records.len() implies (
            #[trigger] self@.records[a]).id != (#[trigger] self@.records[b]).id by {
                assert(self@.records[a] == record_sent(recs[a], now0));
                assert(self@.records[b] == record_sent(recs[b], now0));
                assert(recs[a].id != recs[b].id);
            }
            assert forall|k: int| 0 <= k < self@.records.len() implies (
            #[trigger] self@.records[k]).msg.wf() && self@.records[k].last_sent <= self@.now by {
                assert(self@.records[k] == record_sent(recs[k], now0));
                assert(recs[k].msg.wf() && recs[k].last_sent <= old(self)@.now);
            }
            assert(final(writer)@ =~= old(writer)@ + enc_block(ready, true));
        }
        Some(ids)
    }
}

} // verus!
