use message_channels::bits::{BitReader, BitWriter};
use message_channels::channel_config::ReliableSettings;
use message_channels::message::{Manifest, Message};
use message_channels::ordered_reliable::OrderedReliableChannel;
use message_channels::unordered_reliable::UnorderedReliableChannel;
use message_channels::unordered_unreliable::UnorderedUnreliableChannel;
use message_channels::wrapping_number::{next_message_id, sequence_greater_than};

#[test]
fn wraparound_comparison_at_the_boundary() {
    // Identity 0 follows identity 65535: it is ahead of it, not behind.
    assert!(sequence_greater_than(0, 65535));
    assert!(!sequence_greater_than(65535, 0));
    assert_eq!(next_message_id(65535), 0);
    // Plain successors, far from the boundary.
    assert!(sequence_greater_than(8, 7));
    assert!(!sequence_greater_than(7, 8));
    assert!(!sequence_greater_than(7, 7));
    // Half a window away the rule still orders one way only.
    assert!(sequence_greater_than(32768, 0));
    assert!(!sequence_greater_than(0, 32768));
}

#[test]
fn unreliable_channel_never_resends() {
    let manifest = Manifest::new(4);
    let mut sender = UnorderedUnreliableChannel::new();
    sender.send_message(Message::new(1, vec![10]));
    sender.send_message(Message::new(2, vec![20]));
    assert!(sender.has_outgoing_messages());
    let mut writer = BitWriter::new();
    let ids = sender.write_messages(&mut writer).unwrap();
    assert!(ids.is_empty());
    // The queue is forgotten the moment it is written: nothing to resend.
    assert!(!sender.has_outgoing_messages());
    let mut writer2 = BitWriter::new();
    assert!(sender.write_messages(&mut writer2).is_none());
    assert_eq!(writer2.len(), 0);
    // The receiver observes exactly what arrived, in arrival order.
    let mut receiver = UnorderedUnreliableChannel::new();
    let mut reader = BitReader::new(writer.to_bytes());
    receiver.read_messages(&mut reader, &manifest).unwrap();
    let got = receiver.collect_incoming_messages();
    assert_eq!(got.len(), 2);
    assert_eq!(got[0].kind, 1);
    assert_eq!(got[1].kind, 2);
}

#[test]
fn reliable_message_reoffered_once_per_interval() {
    let settings = ReliableSettings { resend_interval: 3 };
    let mut channel = UnorderedReliableChannel::new(&settings);
    channel.send_message(Message::new(0, vec![5]));
    // First transmission carries identity 0.
    let mut writer = BitWriter::new();
    let ids = channel.write_messages(&mut writer).unwrap();
    assert_eq!(ids, vec![0u16]);
    // Until the resend interval elapses, nothing is offered again.
    let mut appearances: u32 = 0;
    for tick in 1..=9 {
        channel.collect_outgoing_messages();
        let mut w = BitWriter::new();
        match channel.write_messages(&mut w) {
            Some(ids) => {
                assert_eq!(ids, vec![0u16]);
                assert_eq!(tick % 3, 0);
                appearances += 1;
            }
            None => {
                assert_ne!(tick % 3, 0);
                assert_eq!(w.len(), 0);
            }
        }
    }
    // Exactly once per elapsed resend interval, with the same identity.
    assert_eq!(appearances, 3);
    // An acknowledgment stops the retransmission for good.
    channel.notify_message_delivered(0);
    for _ in 0..9 {
        channel.collect_outgoing_messages();
    }
    assert!(!channel.has_outgoing_messages());
}

#[test]
fn duplicate_arrivals_are_delivered_once() {
    let manifest = Manifest::new(4);
    let settings = ReliableSettings { resend_interval: 2 };
    let mut sender = UnorderedReliableChannel::new(&settings);
    sender.send_message(Message::new(3, vec![7, 7]));
    let mut writer = BitWriter::new();
    sender.write_messages(&mut writer).unwrap();
    let bytes = writer.to_bytes();
    // The same packet arrives twice: a resend racing a late acknowledgment.
    let mut receiver = UnorderedReliableChannel::new(&settings);
    let mut reader = BitReader::new(bytes.clone());
    receiver.read_messages(&mut reader, &manifest).unwrap();
    let mut reader = BitReader::new(bytes);
    receiver.read_messages(&mut reader, &manifest).unwrap();
    let got = receiver.collect_incoming_messages();
    assert_eq!(got.len(), 1);
    assert_eq!(got[0].kind, 3);
    assert_eq!(got[0].payload, vec![7, 7]);
}

#[test]
fn ordered_channel_releases_in_send_order() {
    let manifest = Manifest::new(4);
    let settings = ReliableSettings { resend_interval: 5 };
    let mut sender = OrderedReliableChannel::new(&settings);
    // Send A(id=0), B(id=1), C(id=2), each in a packet of its own.
    let mut packets: Vec<Vec<u8>> = Vec::new();
    for kind in 0..3u16 {
        sender.send_message(Message::new(kind, vec![kind as u8]));
        let mut writer = BitWriter::new();
        let ids = sender.write_messages(&mut writer).unwrap();
        assert_eq!(ids, vec![kind]);
        packets.push(writer.to_bytes());
    }
    // Deliver the packets in the order C, A, B.
    let mut receiver = OrderedReliableChannel::new(&settings);
    for p in [2usize, 0, 1] {
        let mut reader = BitReader::new(packets[p].clone());
        receiver.read_messages(&mut reader, &manifest).unwrap();
    }
    // The drain order is the send order, each message exactly once, and the
    // reorder buffer is empty afterwards.
    let got = receiver.collect_incoming_messages();
    assert_eq!(got.len(), 3);
    assert_eq!(got[0].kind, 0);
    assert_eq!(got[1].kind, 1);
    assert_eq!(got[2].kind, 2);
    assert_eq!(receiver.buffered_message_count(), 0);
    assert!(receiver.collect_incoming_messages().is_empty());
}

#[test]
fn ordered_channel_discards_duplicates_and_stale_ids() {
    let manifest = Manifest::new(4);
    let settings = ReliableSettings { resend_interval: 5 };
    let mut sender = OrderedReliableChannel::new(&settings);
    let mut packets: Vec<Vec<u8>> = Vec::new();
    for kind in 0..2u16 {
        sender.send_message(Message::new(kind, vec![]));
        let mut writer = BitWriter::new();
        sender.write_messages(&mut writer).unwrap();
        packets.push(writer.to_bytes());
    }
    let mut receiver = OrderedReliableChannel::new(&settings);
    // Packet 1 arrives ahead of expectation, twice; then packet 0, twice.
    for p in [1usize, 1, 0, 0] {
        let mut reader = BitReader::new(packets[p].clone());
        receiver.read_messages(&mut reader, &manifest).unwrap();
    }
    let got = receiver.collect_incoming_messages();
    assert_eq!(got.len(), 2);
    assert_eq!(got[0].kind, 0);
    assert_eq!(got[1].kind, 1);
    assert_eq!(receiver.buffered_message_count(), 0);
}
