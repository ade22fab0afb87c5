//! The per-channel wire format.
//!
//! Each channel contributes one block to a packet: a count header followed
//! by that many messages, where reliable channels prefix every message with
//! its identity.  The format is defined twice: once as spec-level encoding
//! functions, and once as a spec-level parser that is total on byte
//! sequences.  The executable writer and reader are proved against those,
//! and the round-trip lemmas show that parsing an encoding yields exactly
//! what was encoded.

use vstd::prelude::*;
use vstd::arithmetic::div_mod::lemma_fundamental_div_mod;
use crate::bits::{BitReader, BitWriter, SerdeErr, suffix_of, lemma_suffix_refl,
    lemma_suffix_trans, lemma_skip_is_suffix};
use crate::message::{Manifest, Message, MessageView};
use crate::MessageId;

verus! {

/// One message as it stands in a channel's block: the identity it carries on
/// reliable channels (zero on channels without identities) and the message.
pub ghost struct EntryView {
    pub id: u16,
    pub msg: MessageView,
}

/// One decoded message together with the identity read from the wire.
#[derive(Debug)]
pub struct WireEntry {
    pub id: MessageId,
    pub message: Message,
}

impl View for WireEntry {
    type V = EntryView;

    open spec fn view(&self) -> EntryView {
        EntryView { id: self.id, msg: self.message@ }
    }
}

/// The views of a run of decoded entries.
pub open spec fn entries_view(v: Seq<WireEntry>) -> Seq<EntryView> {
    v.map_values(|e: WireEntry| e@)
}

/// An entry fits the wire format when its payload fits the length prefix.
pub open spec fn entry_wf(e: EntryView) -> bool {
    e.msg.wf()
}

/// A block fits the wire format when its length fits the count header and
/// every entry fits.
pub open spec fn block_wf(es: Seq<EntryView>) -> bool {
    &&& es.len() <= 0xFFFF
    &&& forall|i: int| 0 <= i < es.len() ==> entry_wf(#[trigger] es[i])
}

/// The messages of a run of entries, identities stripped.
pub open spec fn msgs_of(es: Seq<EntryView>) -> Seq<MessageView> {
    es.map_values(|e: EntryView| e.msg)
}

/// Every kind tag of the block is known to a registry of `kinds` kinds.
pub open spec fn block_kinds_known(es: Seq<EntryView>, kinds: u16) -> bool {
    forall|i: int| 0 <= i < es.len() ==> (#[trigger] es[i]).msg.kind < kinds
}

// ---------------------------------------------------------------------------
// Spec-level encoding
// ---------------------------------------------------------------------------

/// A fixed-width counter on the wire: high byte first.
pub open spec fn enc_u16(n: u16) -> Seq<u8> {
    seq![(n / 256) as u8, (n % 256) as u8]
}

/// The variable-width count header: one byte for small counts, otherwise an
/// escape byte followed by the fixed-width form.
pub open spec fn enc_count(n: u16) -> Seq<u8> {
    if n < 255 {
        seq![n as u8]
    } else {
        seq![255u8] + enc_u16(n)
    }
}

/// One message on the wire: optional identity, kind tag, payload length,
/// payload bytes.
pub open spec fn enc_entry(e: EntryView, with_id: bool) -> Seq<u8> {
    (if with_id {
        enc_u16(e.id)
    } else {
        Seq::<u8>::empty()
    }) + enc_u16(e.msg.kind) + enc_u16(e.msg.payload.len() as u16) + e.msg.payload
}

/// A run of messages, back to back.
pub open spec fn enc_entries(es: Seq<EntryView>, with_id: bool) -> Seq<u8>
    decreases es.len(),
{
    if es.len() == 0 {
        Seq::<u8>::empty()
    } else {
        enc_entry(es[0], with_id) + enc_entries(es.skip(1), with_id)
    }
}

/// One channel's whole contribution to a packet: count header, then the run.
pub open spec fn enc_block(es: Seq<EntryView>, with_id: bool) -> Seq<u8> {
    enc_count(es.len() as u16) + enc_entries(es, with_id)
}

// ---------------------------------------------------------------------------
// Spec-level parsing
// ---------------------------------------------------------------------------

/// Parses a fixed-width counter; yields the value and the bytes consumed.
pub open spec fn parse_u16(b: Seq<u8>) -> Option<(u16, int)> {
    if b.len() >= 2 {
        Some((((b[0] as int) * 256 + (b[1] as int)) as u16, 2int))
    } else {
        None
    }
}

/// Parses the variable-width count header.
pub open spec fn parse_count(b: Seq<u8>) -> Option<(u16, int)> {
    if b.len() < 1 {
        None
    } else if b[0] < 255 {
        Some((b[0] as u16, 1int))
    } else {
        match parse_u16(b.skip(1)) {
            None => None,
            Some((v, c)) => Some((v, 1 + c)),
        }
    }
}

/// Parses kind tag, payload length and payload; rejects unknown kinds.
pub open spec fn parse_entry_body(b: Seq<u8>, kinds: u16) -> Option<(EntryView, int)> {
    match parse_u16(b) {
        None => None,
        Some((kind, _)) => if kind >= kinds {
            None
        } else {
            match parse_u16(b.skip(2)) {
                None => None,
                Some((len, _)) => if b.len() < 4 + len {
                    None
                } else {
                    Some(
                        (
                            EntryView {
                                id: 0,
                                msg: MessageView { kind, payload: b.subrange(4, 4 + len) },
                            },
                            4 + len,
                        ),
                    )
                },
            }
        },
    }
}

/// Parses one message, with its identity where the channel carries one.
pub open spec fn parse_entry(b: Seq<u8>, with_id: bool, kinds: u16) -> Option<(EntryView, int)> {
    if with_id {
        match parse_u16(b) {
            None => None,
            Some((id, c)) => match parse_entry_body(b.skip(c), kinds) {
                None => None,
                Some((e, c2)) => Some((EntryView { id, msg: e.msg }, c + c2)),
            },
        }
    } else {
        parse_entry_body(b, kinds)
    }
}

/// Parses a run of exactly `n` messages.
pub open spec fn parse_entries(b: Seq<u8>, n: int, with_id: bool, kinds: u16) -> Option<
    (Seq<EntryView>, int),
>
    decreases n,
{
    if n <= 0 {
        Some((Seq::<EntryView>::empty(), 0int))
    } else {
        match parse_entry(b, with_id, kinds) {
            None => None,
            Some((e, c)) => match parse_entries(b.skip(c), n - 1, with_id, kinds) {
                None => None,
                Some((es, c2)) => Some((seq![e] + es, c + c2)),
            },
        }
    }
}

/// Parses one channel's whole block: the count header, then that many
/// messages.
pub open spec fn parse_block(b: Seq<u8>, with_id: bool, kinds: u16) -> Option<
    (Seq<EntryView>, int),
> {
    match parse_count(b) {
        None => None,
        Some((n, c)) => match parse_entries(b.skip(c), n as int, with_id, kinds) {
            None => None,
            Some((es, c2)) => Some((es, c + c2)),
        },
    }
}

// ---------------------------------------------------------------------------
// What parsing consumes
// ---------------------------------------------------------------------------

/// A successful parse of one message consumes between one byte and the whole
/// input.
pub proof fn lemma_parse_entry_consumed(b: Seq<u8>, with_id: bool, kinds: u16)
    ensures
        parse_entry(b, with_id, kinds) matches Some((e, c)) ==> 1 <= c <= b.len(),
{
    if with_id {
        if b.len() >= 2 {
            lemma_parse_entry_body_consumed(b.skip(2), kinds);
        }
    } else {
        lemma_parse_entry_body_consumed(b, kinds);
    }
}

proof fn lemma_parse_entry_body_consumed(b: Seq<u8>, kinds: u16)
    ensures
        parse_entry_body(b, kinds) matches Some((e, c)) ==> 1 <= c <= b.len(),
{
}

/// A successful parse of a run consumes at most the whole input.
pub proof fn lemma_parse_entries_consumed(b: Seq<u8>, n: int, with_id: bool, kinds: u16)
    ensures
        parse_entries(b, n, with_id, kinds) matches Some((es, c)) ==> 0 <= c <= b.len() && es.len()
            == if n <= 0 {
            0
        } else {
            n
        },
    decreases n,
{
    if n > 0 {
        lemma_parse_entry_consumed(b, with_id, kinds);
        match parse_entry(b, with_id, kinds) {
            Some((e, c)) => {
                lemma_parse_entries_consumed(b.skip(c), n - 1, with_id, kinds);
            },
            None => {},
        }
    }
}

/// A successful parse of a block consumes between one byte and the whole
/// input.
pub proof fn lemma_parse_block_consumed(b: Seq<u8>, with_id: bool, kinds: u16)
    ensures
        parse_block(b, with_id, kinds) matches Some((es, c)) ==> 1 <= c <= b.len(),
{
    match parse_count(b) {
        Some((n, c)) => {
            lemma_parse_entries_consumed(b.skip(c), n as int, with_id, kinds);
        },
        None => {},
    }
}

// ---------------------------------------------------------------------------
// Round trip: parsing an encoding yields what was encoded
// ---------------------------------------------------------------------------

/// The two bytes of a fixed-width counter parse back to the counter.
pub proof fn lemma_parse_u16_enc(n: u16, rest: Seq<u8>)
    ensures
        parse_u16(enc_u16(n) + rest) == Some((n, 2int)),
        (enc_u16(n) + rest).skip(2) == rest,
{
    let b = enc_u16(n) + rest;
    lemma_fundamental_div_mod(n as int, 256);
    assert(n / 256 < 256) by (nonlinear_arith);
    assert(b[0] == (n / 256) as u8);
    assert(b[1] == (n % 256) as u8);
    assert((b[0] as int) * 256 + (b[1] as int) == n);
    assert(b.skip(2) =~= rest);
}

/// The count header parses back to the count.
pub proof fn lemma_parse_count_enc(n: u16, rest: Seq<u8>)
    ensures
        parse_count(enc_count(n) + rest) == Some((n, enc_count(n).len() as int)),
        (enc_count(n) + rest).skip(enc_count(n).len() as int) == rest,
{
    let b = enc_count(n) + rest;
    if n < 255 {
        assert(b[0] == n as u8);
        assert(b.skip(1) =~= rest);
    } else {
        assert(b[0] == 255u8);
        assert(b.skip(1) =~= enc_u16(n) + rest);
        lemma_parse_u16_enc(n, rest);
        assert(b.skip(3) =~= rest);
    }
}

/// One encoded message parses back to the entry (identities are carried only
/// where the channel writes them).
pub proof fn lemma_parse_entry_enc(e: EntryView, with_id: bool, kinds: u16, rest: Seq<u8>)
    requires
        entry_wf(e),
        e.msg.kind < kinds,
        !with_id ==> e.id == 0,
    ensures
        parse_entry(enc_entry(e, with_id) + rest, with_id, kinds) == Some(
            (e, enc_entry(e, with_id).len() as int),
        ),
        (enc_entry(e, with_id) + rest).skip(enc_entry(e, with_id).len() as int) == rest,
    decreases with_id as int,
{
    let body = enc_u16(e.msg.kind) + enc_u16(e.msg.payload.len() as u16) + e.msg.payload;
    if with_id {
        let b = enc_entry(e, true) + rest;
        assert(enc_entry(e, true) =~= enc_u16(e.id) + enc_entry(
            EntryView { id: 0, msg: e.msg },
            false,
        ));
        assert(b =~= enc_u16(e.id) + (enc_entry(EntryView { id: 0, msg: e.msg }, false) + rest));
        lemma_parse_u16_enc(e.id, enc_entry(EntryView { id: 0, msg: e.msg }, false) + rest);
        lemma_parse_entry_enc(EntryView { id: 0, msg: e.msg }, false, kinds, rest);
        assert(b.skip(enc_entry(e, true).len() as int) =~= rest);
    } else {
        let b = enc_entry(e, false) + rest;
        let len = e.msg.payload.len() as u16;
        assert(b =~= enc_u16(e.msg.kind) + (enc_u16(len) + (e.msg.payload + rest)));
        lemma_parse_u16_enc(e.msg.kind, enc_u16(len) + (e.msg.payload + rest));
        assert(b.skip(2) =~= enc_u16(len) + (e.msg.payload + rest));
        lemma_parse_u16_enc(len, e.msg.payload + rest);
        assert(b.len() >= 4 + len);
        assert(b.subrange(4, 4 + len as int) =~= e.msg.payload);
        assert(b.skip(enc_entry(e, false).len() as int) =~= rest);
    }
}

/// An encoded run of messages parses back to the run.
#[verifier::rlimit(50)]
pub proof fn lemma_parse_entries_enc(es: Seq<EntryView>, with_id: bool, kinds: u16, rest: Seq<u8>)
    requires
        block_wf(es),
        block_kinds_known(es, kinds),
        !with_id ==> forall|i: int| 0 <= i < es.len() ==> (#[trigger] es[i]).id == 0,
    ensures
        parse_entries(enc_entries(es, with_id) + rest, es.len() as int, with_id, kinds) == Some(
            (es, enc_entries(es, with_id).len() as int),
        ),
        (enc_entries(es, with_id) + rest).skip(enc_entries(es, with_id).len() as int) == rest,
    decreases es.len(),
{
    let b = enc_entries(es, with_id) + rest;
    if es.len() == 0 {
        assert(parse_entries(b, 0, with_id, kinds) == Some((Seq::<EntryView>::empty(), 0int)));
        assert(es =~= Seq::<EntryView>::empty());
        assert(b.skip(0) =~= rest);
    } else {
        let tail = es.skip(1);
        assert(b =~= enc_entry(es[0], with_id) + (enc_entries(tail, with_id) + rest));
        lemma_parse_entry_enc(es[0], with_id, kinds, enc_entries(tail, with_id) + rest);
        assert(forall|i: int| 0 <= i < tail.len() ==> tail[i] == es[i + 1]);
        lemma_parse_entries_enc(tail, with_id, kinds, rest);
        let c0 = enc_entry(es[0], with_id).len() as int;
        assert(b.skip(c0) == enc_entries(tail, with_id) + rest);
        assert(seq![es[0]] + tail =~= es);
        assert(b.skip(enc_entries(es, with_id).len() as int) =~= rest);
    }
}

// ---------------------------------------------------------------------------
// Executable writing
// ---------------------------------------------------------------------------

/// Writes a fixed-width counter, high byte first.
pub fn write_u16(writer: &mut BitWriter, v: u16)
    ensures
        final(writer)@ == old(writer)@ + enc_u16(v),
{
    proof {
        assert(v / 256 < 256) by (nonlinear_arith);
    }
    writer.write_byte((v / 256) as u8);
    writer.write_byte((v % 256) as u8);
    proof {
        assert(final(writer)@ =~= old(writer)@ + enc_u16(v));
    }
}

/// Writes the count header for a channel's block; a channel that contributes
/// nothing to a packet still gets a zero count so the wire format stays
/// self-describing.
pub fn write_list_header(writer: &mut BitWriter, count: u16)
    ensures
        final(writer)@ == old(writer)@ + enc_count(count),
{
    if count < 255 {
        writer.write_byte(count as u8);
        proof {
            assert(final(writer)@ =~= old(writer)@ + enc_count(count));
        }
    } else {
        writer.write_byte(255);
        write_u16(writer, count);
        proof {
            assert(final(writer)@ =~= old(writer)@ + enc_count(count));
        }
    }
}

/// Writes a payload byte for byte.
fn write_bytes(writer: &mut BitWriter, bytes: &Vec<u8>)
    ensures
        final(writer)@ == old(writer)@ + bytes@,
{
    let ghost start = writer@;
    let mut i: usize = 0;
    while i < bytes.len()
        invariant
            i <= bytes.len(),
            writer@ == start + bytes@.take(i as int),
        decreases bytes.len() - i,
    {
        writer.write_byte(bytes[i]);
        i = i + 1;
        proof {
            assert(writer@ =~= start + bytes@.take(i as int));
        }
    }
    proof {
        assert(bytes@.take(bytes@.len() as int) =~= bytes@);
    }
}

/// Writes one message: optional identity, kind tag, payload length, payload.
pub fn write_entry(writer: &mut BitWriter, with_id: bool, id: MessageId, message: &Message)
    requires
        message@.wf(),
    ensures
        final(writer)@ == old(writer)@ + enc_entry(EntryView { id, msg: message@ }, with_id),
{
    if with_id {
        write_u16(writer, id);
    }
    write_u16(writer, message.kind);
    write_u16(writer, message.payload.len() as u16);
    write_bytes(writer, &message.payload);
    proof {
        assert(final(writer)@ =~= old(writer)@ + enc_entry(
            EntryView { id, msg: message@ },
            with_id,
        ));
    }
}

/// Writes one channel's whole block: count header, then every entry.
pub fn write_block(writer: &mut BitWriter, with_id: bool, entries: &Vec<WireEntry>)
    requires
        block_wf(entries_view(entries@)),
    ensures
        final(writer)@ == old(writer)@ + enc_block(entries_view(entries@), with_id),
{
    let ghost es = entries_view(entries@);
    let ghost start = writer@;
    write_list_header(writer, entries.len() as u16);
    let mut i: usize = 0;
    while i < entries.len()
        invariant
            i <= entries.len(),
            es == entries_view(entries@),
            block_wf(es),
            es.len() == entries@.len(),
            writer@ == start + enc_count(es.len() as u16) + enc_entries(es.take(i as int), false
                || with_id),
        decreases entries.len() - i,
    {
        proof {
            lemma_enc_entries_snoc(es.take(i as int), es[i as int], with_id);
            assert(es.take(i as int).push(es[i as int]) =~= es.take(i + 1));
        }
        write_entry(writer, with_id, entries[i].id, &entries[i].message);
        i = i + 1;
    }
    proof {
        assert(es.take(es.len() as int) =~= es);
        assert(final(writer)@ =~= old(writer)@ + enc_block(es, with_id));
    }
}

/// Appending one entry to a run extends its encoding at the back.
pub proof fn lemma_enc_entries_snoc(es: Seq<EntryView>, e: EntryView, with_id: bool)
    ensures
        enc_entries(es.push(e), with_id) == enc_entries(es, with_id) + enc_entry(e, with_id),
    decreases es.len(),
{
    let l = es.push(e);
    if es.len() == 0 {
        assert(l.skip(1) =~= Seq::<EntryView>::empty());
        assert(l[0] == e);
        assert(enc_entries(Seq::<EntryView>::empty(), with_id) == Seq::<u8>::empty());
        assert(enc_entries(l, with_id) == enc_entry(e, with_id) + Seq::<u8>::empty());
        assert(enc_entry(e, with_id) + Seq::<u8>::empty() =~= Seq::<u8>::empty() + enc_entry(
            e,
            with_id,
        ));
    } else {
        assert(l[0] == es[0]);
        assert(l.skip(1) =~= es.skip(1).push(e));
        lemma_enc_entries_snoc(es.skip(1), e, with_id);
        assert(enc_entries(l, with_id) == enc_entry(es[0], with_id) + (enc_entries(
            es.skip(1),
            with_id,
        ) + enc_entry(e, with_id)));
        assert(enc_entry(es[0], with_id) + (enc_entries(es.skip(1), with_id) + enc_entry(
            e,
            with_id,
        )) =~= (enc_entry(es[0], with_id) + enc_entries(es.skip(1), with_id)) + enc_entry(
            e,
            with_id,
        ));
    }
}

// ---------------------------------------------------------------------------
// Executable reading
// ---------------------------------------------------------------------------

/// Reads a fixed-width counter; on failure the reader stands somewhere in
/// the bytes it was given.
pub fn read_u16(reader: &mut BitReader) -> (r: Result<u16, SerdeErr>)
    ensures
        match parse_u16(old(reader)@) {
            Some((v, c)) => r == Ok::<u16, SerdeErr>(v) && final(reader)@ == old(reader)@.skip(c),
            None => r == Err::<u16, SerdeErr>(SerdeErr) && suffix_of(final(reader)@, old(reader)@),
        },
{
    let ghost b = reader@;
    let hi = match reader.read_byte() {
        Ok(v) => v,
        Err(e) => {
            proof {
                lemma_suffix_refl(b);
            }
            return Err(e);
        },
    };
    let lo = match reader.read_byte() {
        Ok(v) => v,
        Err(e) => {
            proof {
                lemma_skip_is_suffix(b, 1);
            }
            return Err(e);
        },
    };
    proof {
        assert(b.skip(1).skip(1) =~= b.skip(2));
        assert(b.skip(1)[0] == b[1]);
    }
    Ok((hi as u16) * 256 + (lo as u16))
}

/// Reads the count header of a channel's block.
pub fn read_list_header(reader: &mut BitReader) -> (r: Result<u16, SerdeErr>)
    ensures
        match parse_count(old(reader)@) {
            Some((v, c)) => r == Ok::<u16, SerdeErr>(v) && final(reader)@ == old(reader)@.skip(c),
            None => r == Err::<u16, SerdeErr>(SerdeErr) && suffix_of(final(reader)@, old(reader)@),
        },
{
    let ghost b = reader@;
    let first = match reader.read_byte() {
        Ok(v) => v,
        Err(e) => {
            proof {
                lemma_suffix_refl(b);
            }
            return Err(e);
        },
    };
    if first < 255 {
        Ok(first as u16)
    } else {
        match read_u16(reader) {
            Ok(v) => {
                proof {
                    assert(b.skip(1).skip(2) =~= b.skip(3));
                }
                Ok(v)
            },
            Err(e) => {
                proof {
                    lemma_skip_is_suffix(b, 1);
                    lemma_suffix_trans(final(reader)@, b.skip(1), b);
                }
                Err(e)
            },
        }
    }
}

/// Reads exactly `n` payload bytes.
fn read_bytes(reader: &mut BitReader, n: u16) -> (r: Result<Vec<u8>, SerdeErr>)
    ensures
        match r {
            Ok(v) => old(reader)@.len() >= n && v@ == old(reader)@.take(n as int)
                && final(reader)@ == old(reader)@.skip(n as int),
            Err(_) => old(reader)@.len() < n && suffix_of(final(reader)@, old(reader)@),
        },
{
    let ghost b = reader@;
    if reader.remaining() < n as usize {
        proof {
            lemma_suffix_refl(b);
        }
        return Err(SerdeErr);
    }
    let mut out: Vec<u8> = Vec::new();
    let mut i: usize = 0;
    while i < n as usize
        invariant
            i <= n,
            b.len() >= n,
            out@ == b.take(i as int),
            reader@ == b.skip(i as int),
        decreases n - i,
    {
        let byte = match reader.read_byte() {
            Ok(v) => v,
            Err(_) => {
                proof {
                    assert(false);
                }
                return Err(SerdeErr);
            },
        };
        out.push(byte);
        i = i + 1;
        proof {
            assert(b.skip(i - 1)[0] == b[i - 1]);
            assert(out@ =~= b.take(i as int));
            assert(b.skip(i - 1).skip(1) =~= b.skip(i as int));
        }
    }
    Ok(out)
}

/// Reads one message for a channel, rebuilding it through the registry.
pub fn read_entry(reader: &mut BitReader, with_id: bool, manifest: &Manifest) -> (r: Result<
    WireEntry,
    SerdeErr,
>)
    ensures
        match parse_entry(old(reader)@, with_id, manifest@) {
            Some((e, c)) => r matches Ok(w) && w@ == e && final(reader)@ == old(reader)@.skip(c),
            None => r matches Err(_) && suffix_of(final(reader)@, old(reader)@),
        },
{
    let ghost b = reader@;
    let id: u16 = if with_id {
        match read_u16(reader) {
            Ok(v) => v,
            Err(e) => {
                return Err(e);
            },
        }
    } else {
        0
    };
    let ghost b_body = reader@;
    let kind = match read_u16(reader) {
        Ok(v) => v,
        Err(e) => {
            proof {
                lemma_body_err_suffix(b, b_body, reader@, with_id);
            }
            return Err(e);
        },
    };
    let len = match read_u16(reader) {
        Ok(v) => v,
        Err(e) => {
            proof {
                lemma_skip_is_suffix(b_body, 2);
                lemma_suffix_trans(reader@, b_body.skip(2), b_body);
                lemma_body_err_suffix(b, b_body, reader@, with_id);
            }
            return Err(e);
        },
    };
    let payload = match read_bytes(reader, len) {
        Ok(v) => v,
        Err(e) => {
            proof {
                assert(b_body.skip(2).skip(2) =~= b_body.skip(4));
                lemma_skip_is_suffix(b_body, 4);
                lemma_suffix_trans(reader@, b_body.skip(4), b_body);
                lemma_body_err_suffix(b, b_body, reader@, with_id);
            }
            return Err(e);
        },
    };
    let message = match manifest.create_replica(kind, payload) {
        Ok(m) => m,
        Err(e) => {
            proof {
                assert(b_body.skip(2).skip(2) =~= b_body.skip(4));
                assert(b_body.skip(4).skip(len as int) =~= b_body.skip(4 + len as int));
                lemma_skip_is_suffix(b_body, 4 + len as int);
                lemma_body_err_suffix(b, b_body, reader@, with_id);
            }
            return Err(e);
        },
    };
    proof {
        assert(b_body.skip(2).skip(2) =~= b_body.skip(4));
        assert(b_body.skip(2)[0] == b_body[2] && b_body.skip(2)[1] == b_body[3]);
        assert(b_body.skip(4).take(len as int) =~= b_body.subrange(4, 4 + len as int));
        assert(b_body.skip(4).skip(len as int) =~= b_body.skip(4 + len as int));
        if with_id {
            assert(b.skip(2).skip(4 + len as int) =~= b.skip(2 + 4 + len as int));
        }
    }
    Ok(WireEntry { id, message })
}

/// A failure inside the entry body leaves the reader within the entry's own
/// bytes, identity prefix included.
proof fn lemma_body_err_suffix(b: Seq<u8>, b_body: Seq<u8>, now: Seq<u8>, with_id: bool)
    requires
        suffix_of(now, b_body),
        with_id ==> b.len() >= 2 && b_body == b.skip(2),
        !with_id ==> b_body == b,
    ensures
        suffix_of(now, b),
{
    if with_id {
        lemma_skip_is_suffix(b, 2);
        lemma_suffix_trans(now, b_body, b);
    }
}

/// Reads one channel's whole block from a packet.  On success the decoded
/// entries are exactly what the spec parser yields; on failure nothing is
/// promised about how far the reader got, and the caller abandons the
/// packet.
#[verifier::rlimit(100)]
pub fn read_block(reader: &mut BitReader, with_id: bool, manifest: &Manifest) -> (r: Result<
    Vec<WireEntry>,
    SerdeErr,
>)
    ensures
        match parse_block(old(reader)@, with_id, manifest@) {
            Some((es, c)) => r matches Ok(v) && entries_view(v@) == es && final(reader)@ == old(
                reader,
            )@.skip(c),
            None => r matches Err(_) && suffix_of(final(reader)@, old(reader)@),
        },
{
    let ghost b = reader@;
    let count = match read_list_header(reader) {
        Ok(v) => v,
        Err(e) => {
            return Err(e);
        },
    };
    let ghost b_run = reader@;
    let ghost header_c = (parse_count(b)->Some_0).1;
    proof {
        lemma_suffix_refl(b_run);
    }
    let mut out: Vec<WireEntry> = Vec::new();
    let mut i: usize = 0;
    while i < count as usize
        invariant
            i <= count,
            b == old(reader)@,
            parse_count(b) == Some((count, header_c)),
            0 <= header_c <= b.len(),
            b_run == b.skip(header_c),
            entries_view(out@).len() == i,
            suffix_of(reader@, b_run),
            match parse_entries(reader@, count - i, with_id, manifest@) {
                Some((es, c)) => parse_entries(b_run, count as int, with_id, manifest@) == Some(
                    (entries_view(out@) + es, b_run.len() - reader@.len() + c),
                ),
                None => parse_entries(b_run, count as int, with_id, manifest@) is None,
            },
        decreases count - i,
    {
        let ghost cur = reader@;
        let entry = match read_entry(reader, with_id, manifest) {
            Ok(v) => v,
            Err(e) => {
                proof {
                    lemma_suffix_trans(reader@, cur, b_run);
                    lemma_run_err_suffix(reader@, b_run, b, header_c);
                    assert(parse_entry(cur, with_id, manifest@) is None);
                    assert(count - i > 0);
                    assert(parse_entries(cur, count - i, with_id, manifest@) is None);
                    assert(parse_entries(b_run, count as int, with_id, manifest@) is None);
                    assert(parse_block(b, with_id, manifest@) is None);
                }
                return Err(e);
            },
        };
        proof {
            lemma_parse_entry_consumed(cur, with_id, manifest@);
            let (ev, c) = parse_entry(cur, with_id, manifest@)->Some_0;
            lemma_skip_is_suffix(cur, c);
            lemma_suffix_trans(reader@, cur, b_run);
            assert(entries_view(out@.push(entry)) =~= entries_view(out@).push(entry@));
            match parse_entries(reader@, count - i - 1, with_id, manifest@) {
                Some((es2, c2)) => {
                    assert(entries_view(out@) + (seq![ev] + es2) =~= entries_view(out@).push(ev)
                        + es2);
                },
                None => {},
            }
        }
        out.push(entry);
        i = i + 1;
    }
    proof {
        assert(parse_entries(reader@, 0, with_id, manifest@) == Some(
            (Seq::<EntryView>::empty(), 0int),
        ));
        assert(entries_view(out@) + Seq::<EntryView>::empty() =~= entries_view(out@));
        lemma_parse_entries_consumed(b_run, count as int, with_id, manifest@);
        let (es, c2) = parse_entries(b_run, count as int, with_id, manifest@)->Some_0;
        assert(b_run.len() - reader@.len() == c2);
        let k = choose|k: int| 0 <= k <= b_run.len() && reader@ == b_run.skip(k);
        assert(reader@.len() == b_run.len() - k);
        assert(reader@ == b_run.skip(c2));
        assert(b.skip(header_c).skip(c2) =~= b.skip(header_c + c2));
    }
    Ok(out)
}

/// A failure inside the run leaves the reader within the block's own bytes,
/// count header included.
proof fn lemma_run_err_suffix(now: Seq<u8>, b_run: Seq<u8>, b: Seq<u8>, header_c: int)
    requires
        suffix_of(now, b_run),
        0 <= header_c <= b.len(),
        b_run == b.skip(header_c),
    ensures
        suffix_of(now, b),
{
    lemma_skip_is_suffix(b, header_c);
    lemma_suffix_trans(now, b_run, b);
}

/// An encoded block parses back to its entries, consuming exactly the block.
pub proof fn lemma_parse_block_enc(es: Seq<EntryView>, with_id: bool, kinds: u16, rest: Seq<u8>)
    requires
        block_wf(es),
        block_kinds_known(es, kinds),
        !with_id ==> forall|i: int| 0 <= i < es.len() ==> (#[trigger] es[i]).id == 0,
    ensures
        parse_block(enc_block(es, with_id) + rest, with_id, kinds) == Some(
            (es, enc_block(es, with_id).len() as int),
        ),
        (enc_block(es, with_id) + rest).skip(enc_block(es, with_id).len() as int) == rest,
{
    let b = enc_block(es, with_id) + rest;
    let n = es.len() as u16;
    assert(b =~= enc_count(n) + (enc_entries(es, with_id) + rest));
    lemma_parse_count_enc(n, enc_entries(es, with_id) + rest);
    assert(b.skip(enc_count(n).len() as int) == enc_entries(es, with_id) + rest);
    lemma_parse_entries_enc(es, with_id, kinds, rest);
    assert(b.skip(enc_block(es, with_id).len() as int) =~= rest);
}

} // verus!
