use message_channels::bits::{BitReader, BitWriter, SerdeErr};
use message_channels::codec::{read_block, read_entry, read_list_header, write_entry,
    write_list_header};
use message_channels::message::{Manifest, Message};

#[test]
fn glam_type_equivalency_test() {
    // Checks that a value has the same content when it goes through
    // serialisation/deserialisation.
    let manifest = Manifest::new(100);
    let values: Vec<(u16, Vec<u8>)> = vec![
        (0, vec![]),
        (1, vec![1, 2, 3]),
        (7, vec![0, 255, 128]),
        (99, vec![42; 300]),
    ];
    for (kind, payload) in values {
        let mut writer = BitWriter::new();
        write_entry(&mut writer, true, 7, &Message::new(kind, payload.clone()));
        let mut reader = BitReader::new(writer.to_bytes());
        let entry = read_entry(&mut reader, true, &manifest)
            .expect("Deserialisation failed (impl must be faulty)");
        assert_eq!(entry.id, 7);
        assert_eq!(entry.message.kind, kind);
        assert_eq!(entry.message.payload, payload);
    }
}

#[test]
fn count_header_round_trip() {
    for count in [0u16, 1, 254, 255, 256, 65535] {
        let mut writer = BitWriter::new();
        write_list_header(&mut writer, count);
        let bytes = writer.to_bytes();
        if count < 255 {
            assert_eq!(bytes.len(), 1);
        } else {
            assert_eq!(bytes.len(), 3);
        }
        let mut reader = BitReader::new(bytes);
        assert_eq!(read_list_header(&mut reader).unwrap(), count);
        assert_eq!(reader.remaining(), 0);
    }
}

#[test]
fn entry_without_identity_round_trip() {
    let manifest = Manifest::new(3);
    let mut writer = BitWriter::new();
    write_entry(&mut writer, false, 0, &Message::new(2, vec![9, 8]));
    let mut reader = BitReader::new(writer.to_bytes());
    let entry = read_entry(&mut reader, false, &manifest).unwrap();
    assert_eq!(entry.id, 0);
    assert_eq!(entry.message.kind, 2);
    assert_eq!(entry.message.payload, vec![9, 8]);
}

#[test]
fn truncated_stream_is_a_decode_error() {
    let manifest = Manifest::new(10);
    // A count of five messages with no message bytes behind it.
    let mut reader = BitReader::new(vec![5]);
    assert_eq!(read_block(&mut reader, false, &manifest).unwrap_err(), SerdeErr);
    // An identity cut off in the middle.
    let mut reader = BitReader::new(vec![1, 0]);
    assert_eq!(read_block(&mut reader, true, &manifest).unwrap_err(), SerdeErr);
    // An empty stream has no count header at all.
    let mut reader = BitReader::new(vec![]);
    assert_eq!(read_list_header(&mut reader).unwrap_err(), SerdeErr);
}

#[test]
fn unknown_kind_tag_is_a_decode_error() {
    let narrow = Manifest::new(1);
    let mut writer = BitWriter::new();
    write_list_header(&mut writer, 1);
    write_entry(&mut writer, false, 0, &Message::new(4, vec![1]));
    let mut reader = BitReader::new(writer.to_bytes());
    assert!(read_block(&mut reader, false, &narrow).is_err());
    // The same bytes decode fine when the registry knows the kind.
    let wide = Manifest::new(5);
    let mut writer = BitWriter::new();
    write_list_header(&mut writer, 1);
    write_entry(&mut writer, false, 0, &Message::new(4, vec![1]));
    let mut reader = BitReader::new(writer.to_bytes());
    let entries = read_block(&mut reader, false, &wide).unwrap();
    assert_eq!(entries.len(), 1);
    assert_eq!(entries[0].message.kind, 4);
}

#[test]
fn block_round_trip_preserves_order() {
    let manifest = Manifest::new(10);
    let mut writer = BitWriter::new();
    write_list_header(&mut writer, 3);
    write_entry(&mut writer, true, 10, &Message::new(1, vec![1]));
    write_entry(&mut writer, true, 11, &Message::new(2, vec![2, 2]));
    write_entry(&mut writer, true, 12, &Message::new(3, vec![]));
    let mut reader = BitReader::new(writer.to_bytes());
    let entries = read_block(&mut reader, true, &manifest).unwrap();
    assert_eq!(entries.len(), 3);
    assert_eq!(entries[0].id, 10);
    assert_eq!(entries[1].id, 11);
    assert_eq!(entries[2].id, 12);
    assert_eq!(entries[1].message.payload, vec![2, 2]);
    assert_eq!(reader.remaining(), 0);
}
