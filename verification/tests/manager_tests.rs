use message_channels::bits::{BitReader, BitWriter};
use message_channels::channel_config::{ChannelConfig, ChannelMode, ChannelSetting,
    ReliableSettings};
use message_channels::message::{Manifest, Message};
use message_channels::message_manager::MessageManager;

fn two_channel_config() -> ChannelConfig {
    ChannelConfig::new(vec![
        ChannelSetting { index: 0, mode: ChannelMode::UnorderedUnreliable },
        ChannelSetting {
            index: 1,
            mode: ChannelMode::OrderedReliable(ReliableSettings { resend_interval: 3 }),
        },
    ])
    .unwrap()
}

#[test]
fn configuration_refuses_duplicate_identities() {
    let dup = ChannelConfig::new(vec![
        ChannelSetting { index: 4, mode: ChannelMode::UnorderedUnreliable },
        ChannelSetting { index: 4, mode: ChannelMode::UnorderedUnreliable },
    ]);
    assert!(dup.is_none());
    assert!(ChannelConfig::new(vec![]).is_some());
}

#[test]
fn packet_map_tracks_only_reliable_channels() {
    let config = two_channel_config();
    let mut manager = MessageManager::new(&config);
    manager.send_message(0, Message::new(0, vec![1]));
    manager.send_message(1, Message::new(1, vec![2]));
    assert!(manager.has_outgoing_messages());
    let mut writer = BitWriter::new();
    manager.write_messages(&mut writer, 42);
    // Both channels contributed, but only the reliable channel's message is
    // tracked: the unreliable one has no identity to acknowledge.
    let entries = manager.tracked_entries(42);
    assert_eq!(entries, vec![(1u16, 0u16)]);
    assert!(manager.tracked_entries(43).is_empty());
}

#[test]
fn end_to_end_both_channels_deliver() {
    let config = two_channel_config();
    let manifest = Manifest::new(10);
    let mut sender = MessageManager::new(&config);
    sender.send_message(0, Message::new(2, vec![20]));
    sender.send_message(1, Message::new(3, vec![30]));
    let mut writer = BitWriter::new();
    sender.write_messages(&mut writer, 1);
    let receiver_config = two_channel_config();
    let mut receiver = MessageManager::new(&receiver_config);
    let mut reader = BitReader::new(writer.to_bytes());
    receiver.read_messages(&mut reader, &manifest).unwrap();
    let got = receiver.collect_incoming_messages();
    assert_eq!(got.len(), 2);
    assert_eq!(got[0].0, 0);
    assert_eq!(got[0].1.kind, 2);
    assert_eq!(got[1].0, 1);
    assert_eq!(got[1].1.kind, 3);
    // A second drain finds nothing new.
    assert!(receiver.collect_incoming_messages().is_empty());
}

#[test]
fn unconfigured_channel_send_is_a_silent_no_op() {
    let config = two_channel_config();
    let mut manager = MessageManager::new(&config);
    manager.send_message(99, Message::new(0, vec![1]));
    assert!(!manager.has_outgoing_messages());
}

#[test]
fn acknowledging_a_packet_twice_equals_once() {
    let config = two_channel_config();
    let mut manager = MessageManager::new(&config);
    manager.send_message(1, Message::new(0, vec![9]));
    let mut writer = BitWriter::new();
    manager.write_messages(&mut writer, 7);
    assert_eq!(manager.tracked_entries(7).len(), 1);
    manager.notify_packet_delivered(7);
    assert!(manager.tracked_entries(7).is_empty());
    // The record is gone: no retransmission however many ticks pass.
    for _ in 0..10 {
        manager.collect_outgoing_messages(16);
    }
    assert!(!manager.has_outgoing_messages());
    // Acknowledging the same packet again changes nothing and panics on
    // nothing.
    manager.notify_packet_delivered(7);
    assert!(manager.tracked_entries(7).is_empty());
    assert!(!manager.has_outgoing_messages());
}

#[test]
fn dropped_packet_resends_after_the_interval() {
    let config = two_channel_config();
    let mut manager = MessageManager::new(&config);
    manager.send_message(1, Message::new(0, vec![9]));
    let mut writer = BitWriter::new();
    manager.write_messages(&mut writer, 7);
    manager.notify_packet_dropped(7);
    // The map entry is gone, but the record lives on and is re-offered once
    // the resend interval elapses.
    assert!(manager.tracked_entries(7).is_empty());
    assert!(!manager.has_outgoing_messages());
    for _ in 0..3 {
        manager.collect_outgoing_messages(16);
    }
    assert!(manager.has_outgoing_messages());
    let mut writer2 = BitWriter::new();
    manager.write_messages(&mut writer2, 8);
    assert_eq!(manager.tracked_entries(8), vec![(1u16, 0u16)]);
}

#[test]
fn malformed_packet_poisons_only_that_read()
{
    let config = two_channel_config();
    let manifest = Manifest::new(10);
    let mut receiver = MessageManager::new(&config);
    // Garbage: a huge count with nothing behind it.
    let mut reader = BitReader::new(vec![255, 255, 255]);
    assert!(receiver.read_messages(&mut reader, &manifest).is_err());
    assert!(receiver.collect_incoming_messages().is_empty());
    // A well-formed packet still goes through afterwards.
    let mut sender = MessageManager::new(&two_channel_config());
    sender.send_message(1, Message::new(5, vec![50]));
    let mut writer = BitWriter::new();
    sender.write_messages(&mut writer, 2);
    let mut reader = BitReader::new(writer.to_bytes());
    receiver.read_messages(&mut reader, &manifest).unwrap();
    let got = receiver.collect_incoming_messages();
    assert_eq!(got.len(), 1);
    assert_eq!(got[0].1.kind, 5);
}

#[test]
fn empty_packet_has_a_zero_header_per_channel() {
    let config = two_channel_config();
    let manifest = Manifest::new(10);
    let mut sender = MessageManager::new(&config);
    assert!(!sender.has_outgoing_messages());
    let mut writer = BitWriter::new();
    sender.write_messages(&mut writer, 1);
    // Two channels, nothing to say: two zero count headers, one byte each.
    let bytes = writer.to_bytes();
    assert_eq!(bytes, vec![0, 0]);
    // The peer reads it as an empty packet.
    let mut receiver = MessageManager::new(&two_channel_config());
    let mut reader = BitReader::new(bytes);
    receiver.read_messages(&mut reader, &manifest).unwrap();
    assert!(receiver.collect_incoming_messages().is_empty());
}
