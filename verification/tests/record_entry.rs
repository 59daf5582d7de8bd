use tonbo::record::Value;
use tonbo::timestamp::Timestamped;
use tonbo::wal::log::{tag_in_batch, Log, LogType};
use tonbo::wal::record_entry::{DecodeError, RecordEntry};

fn hello() -> RecordEntry {
    RecordEntry::Encode((
        Timestamped::new(b"hello".to_vec(), 0),
        Some(vec![Some(Value::Bytes(b"hello".to_vec()))]),
    ))
}

fn hello_bytes() -> Vec<u8> {
    let mut bytes = vec![0, 0, 0, 0, 0, 0, 0, 5];
    bytes.extend_from_slice(b"hello");
    bytes.extend_from_slice(&[0, 0, 0, 0]);
    bytes.push(1);
    bytes.extend_from_slice(&[0, 0, 0, 0, 0, 0, 0, 1]);
    bytes.push(3);
    bytes.extend_from_slice(&[0, 0, 0, 0, 0, 0, 0, 5]);
    bytes.extend_from_slice(b"hello");
    bytes
}

#[test]
fn encode_and_decode() {
    let entry = hello();
    let bytes = entry.encode();

    let decode_entry = RecordEntry::decode(&bytes).unwrap().0;

    if let (RecordEntry::Encode((key_1, value_1)), RecordEntry::Decode((key_2, value_2))) =
        (entry, decode_entry)
    {
        assert_eq!(key_1.value, key_2.value);
        assert_eq!(key_1.ts, key_2.ts);
        assert_eq!(value_1, value_2);

        return;
    }
    unreachable!()
}

#[test]
fn the_byte_form_is_fixed() {
    assert_eq!(hello().encode(), hello_bytes());
    assert_eq!(hello().size(), 40);
    assert_eq!(hello().size(), hello_bytes().len());
}

#[test]
fn every_kind_of_cell_comes_back() {
    let row = vec![
        None,
        Some(Value::Bool(true)),
        Some(Value::Bool(false)),
        Some(Value::U32(0x0102_0304)),
        Some(Value::Bytes(Vec::new())),
        Some(Value::Bytes(vec![0, 255, 7])),
    ];
    let entry = RecordEntry::new(Timestamped::new(vec![9, 0, 9], u32::MAX), Some(row.clone()));
    let bytes = entry.encode();
    assert_eq!(bytes.len(), entry.size());
    // key: 8 + 3 + 4; row: 1 + 8; cells: 1, 2, 2, 5, 9, 12
    assert_eq!(bytes.len(), 15 + 9 + 31);
    assert_eq!(&bytes[11..15], &[255, 255, 255, 255]);
    assert_eq!(&bytes[29..34], &[2, 1, 2, 3, 4]);
    let (read, end) = RecordEntry::decode(&bytes).unwrap();
    assert_eq!(end, bytes.len());
    assert_eq!(read, RecordEntry::Decode((Timestamped::new(vec![9, 0, 9], u32::MAX), Some(row))));
}

#[test]
fn a_tombstone_takes_one_byte_after_the_key() {
    let entry = RecordEntry::new(Timestamped::new(b"k".to_vec(), 7), None);
    let bytes = entry.encode();
    assert_eq!(bytes, vec![0, 0, 0, 0, 0, 0, 0, 1, b'k', 0, 0, 0, 7, 0]);
    assert_eq!(entry.size(), 14);
    let (read, end) = RecordEntry::decode(&bytes).unwrap();
    assert_eq!(end, 14);
    assert_eq!(read, RecordEntry::Decode((Timestamped::new(b"k".to_vec(), 7), None)));
}

#[test]
fn decode_stops_where_the_record_ends() {
    let mut bytes = hello_bytes();
    let end = bytes.len();
    bytes.extend_from_slice(&[1, 2, 3]);
    let (read, at) = RecordEntry::decode(&bytes).unwrap();
    assert_eq!(at, end);
    assert_eq!(
        read,
        RecordEntry::Decode((
            Timestamped::new(b"hello".to_vec(), 0),
            Some(vec![Some(Value::Bytes(b"hello".to_vec()))]),
        ))
    );
}

#[test]
fn every_proper_prefix_is_truncated() {
    let bytes = hello_bytes();
    for n in 0..bytes.len() {
        let prefix = bytes[..n].to_vec();
        assert_eq!(RecordEntry::decode(&prefix), Err(DecodeError::Truncated), "prefix of {n}");
    }
}

#[test]
fn a_length_beyond_the_bytes_is_truncated() {
    let mut bytes = vec![255; 8];
    bytes.extend_from_slice(&[0; 16]);
    assert_eq!(RecordEntry::decode(&bytes), Err(DecodeError::Truncated));
    // A row that announces more cells than follow.
    let mut bytes = hello_bytes();
    bytes[25] = 2;
    assert_eq!(RecordEntry::decode(&bytes), Err(DecodeError::Truncated));
}

#[test]
fn a_tag_that_stands_for_nothing_is_refused() {
    let mut bytes = hello_bytes();
    bytes[17] = 2;
    assert_eq!(RecordEntry::decode(&bytes), Err(DecodeError::BadTag));
    let mut bytes = hello_bytes();
    bytes[26] = 4;
    assert_eq!(RecordEntry::decode(&bytes), Err(DecodeError::BadTag));
    // A boolean is 0 or 1.
    let entry = RecordEntry::new(Timestamped::new(Vec::new(), 1), Some(vec![Some(Value::Bool(true))]));
    let mut bytes = entry.encode();
    let last = bytes.len() - 1;
    assert_eq!(bytes[last], 1);
    bytes[last] = 2;
    assert_eq!(RecordEntry::decode(&bytes), Err(DecodeError::BadTag));
}

#[test]
fn a_log_record_frames_itself() {
    let log = Log {
        key: Timestamped::new(b"k".to_vec(), 3),
        value: Some(vec![Some(Value::U32(5))]),
        log_type: LogType::Middle,
    };
    let (tag, entry) = log.into_entry();
    assert_eq!(tag, LogType::Middle);
    assert_eq!(
        entry,
        RecordEntry::Encode((Timestamped::new(b"k".to_vec(), 3), Some(vec![Some(Value::U32(5))])))
    );
}

#[test]
fn tags_of_a_batch() {
    assert_eq!(tag_in_batch(0, 1), LogType::Full);
    assert_eq!(tag_in_batch(0, 2), LogType::First);
    assert_eq!(tag_in_batch(1, 2), LogType::Last);
    assert_eq!(tag_in_batch(0, 3), LogType::First);
    assert_eq!(tag_in_batch(1, 3), LogType::Middle);
    assert_eq!(tag_in_batch(2, 3), LogType::Last);
}
