use bitcask::path::{decimal_string, scratch_path, segment_path};
use bitcask::record::{
    decode_record, encode_record, entry_for, frame, record_size, seal, serialize_to_file, split,
};
use bitcask::{bytes_rank, Entry, Error, Rank, Slot};

const RECORD_A_B: [u8; 22] = [
    162, 239, 211, 232, 1, 0, 0, 0, 0, 0, 0, 0, 1, 0, 0, 0, 0, 0, 0, 0, 97, 98,
];

const RECORD_KEY_VALUE: [u8; 28] = [
    187, 91, 101, 96, 3, 0, 0, 0, 0, 0, 0, 0, 5, 0, 0, 0, 0, 0, 0, 0, 107, 101, 121, 118, 97, 108,
    117, 101,
];

#[test]
fn frame_writes_both_lengths_in_eight_bytes_each() {
    let image = frame(b"key", b"value").unwrap();
    assert_eq!(image, RECORD_KEY_VALUE[4..].to_vec());
}

#[test]
fn frame_of_a_long_key_uses_the_higher_length_bytes() {
    let key = vec![7u8; 0x0102];
    let image = frame(&key, b"").unwrap();
    assert_eq!(&image[..8], &[2, 1, 0, 0, 0, 0, 0, 0]);
    assert_eq!(&image[8..16], &[0; 8]);
    assert_eq!(image.len(), 16 + 0x0102);
}

#[test]
fn seal_puts_the_checksum_first_least_significant_byte_first() {
    let sealed = seal(0x0102_0304, &[9, 8, 7]).unwrap();
    assert_eq!(sealed, vec![4, 3, 2, 1, 9, 8, 7]);
}

#[test]
fn encode_record_gives_the_documented_bytes() {
    assert_eq!(encode_record(b"a", b"b").unwrap(), RECORD_A_B.to_vec());
    assert_eq!(encode_record(b"key", b"value").unwrap(), RECORD_KEY_VALUE.to_vec());
}

#[test]
fn encode_record_of_empty_key_and_value_is_the_bare_header() {
    let mut expected = vec![255u8; 4];
    expected.extend_from_slice(&[0; 16]);
    assert_eq!(encode_record(b"", b"").unwrap(), expected);
}

#[test]
fn decode_record_returns_what_was_encoded() {
    let (key, value) = decode_record(&RECORD_KEY_VALUE).unwrap();
    assert_eq!(key, b"key".to_vec());
    assert_eq!(value, b"value".to_vec());
    let bytes = encode_record(b"", b"").unwrap();
    assert_eq!(decode_record(&bytes), Ok((Vec::new(), Vec::new())));
}

#[test]
fn decode_record_rejects_a_truncated_record() {
    assert_eq!(decode_record(&RECORD_KEY_VALUE[..27]), Err(Error::Decode));
    assert_eq!(decode_record(&RECORD_KEY_VALUE[..19]), Err(Error::Decode));
    assert_eq!(decode_record(&[]), Err(Error::Decode));
}

#[test]
fn decode_record_rejects_trailing_bytes() {
    let mut bytes = RECORD_KEY_VALUE.to_vec();
    bytes.push(0);
    assert_eq!(decode_record(&bytes), Err(Error::Decode));
}

#[test]
fn decode_record_rejects_a_flipped_bit() {
    for at in [0usize, 3, 4, 12, 20, 27] {
        let mut bytes = RECORD_KEY_VALUE.to_vec();
        bytes[at] ^= 1;
        assert_eq!(decode_record(&bytes), Err(Error::Decode));
    }
}

#[test]
fn split_checks_the_stored_checksum_against_the_given_one() {
    let sum = u32::from_le_bytes([187, 91, 101, 96]);
    assert_eq!(split(&RECORD_KEY_VALUE, sum), Ok((b"key".to_vec(), b"value".to_vec())));
    assert_eq!(split(&RECORD_KEY_VALUE, sum + 1), Err(Error::Decode));
}

#[test]
fn record_size_adds_the_header() {
    assert_eq!(record_size(0, 0), Some(20));
    assert_eq!(record_size(1, 8), Some(29));
    assert_eq!(record_size(usize::MAX, usize::MAX), None);
}

#[test]
fn entry_for_places_the_value_last() {
    let entry = entry_for(3, 100, 2, 5);
    assert_eq!(
        entry,
        Entry {
            file_id: 3,
            value_len: 5,
            value_pos: 122,
            slot: Slot { file_id: 3, start: 100, end: 127 },
        }
    );
}

#[test]
fn serialize_to_file_frames_the_record_at_the_given_place() {
    let (entry, write) = serialize_to_file(2, 40, b"key", b"value").unwrap();
    assert_eq!(entry, entry_for(2, 40, 3, 5));
    assert_eq!(write.file_id, 2);
    assert_eq!(write.offset, 40);
    assert_eq!(write.bytes, RECORD_KEY_VALUE.to_vec());
}

#[test]
fn serialize_to_file_fails_beyond_the_largest_offset() {
    assert_eq!(serialize_to_file(1, u64::MAX, b"", b""), Err(Error::Io));
    assert_eq!(serialize_to_file(1, u64::MAX - 27, b"key", b"value"), Err(Error::Io));
    assert!(serialize_to_file(1, u64::MAX - 28, b"key", b"value").is_ok());
}

#[test]
fn segment_paths_follow_the_naming_scheme() {
    assert_eq!(segment_path("test", 1), "test.1.db");
    assert_eq!(segment_path("dir/store", 120), "dir/store.120.db");
    assert_eq!(scratch_path("test", 7), "test.7.temp.db");
    assert_eq!(segment_path("", 0), ".0.db");
}

#[test]
fn decimal_string_writes_plain_decimal() {
    assert_eq!(decimal_string(0), "0");
    assert_eq!(decimal_string(9), "9");
    assert_eq!(decimal_string(10), "10");
    assert_eq!(decimal_string(u64::MAX), "18446744073709551615");
}

#[test]
fn bytes_rank_is_lexicographic() {
    assert_eq!(bytes_rank(b"", b""), Rank::Same);
    assert_eq!(bytes_rank(b"", b"\0"), Rank::Before);
    assert_eq!(bytes_rank(b"a", b"a\0"), Rank::Before);
    assert_eq!(bytes_rank(b"a\0", b"a"), Rank::After);
    assert_eq!(bytes_rank(b"ab", b"b"), Rank::Before);
    assert_eq!(bytes_rank(b"b", b"ab"), Rank::After);
    assert_eq!(bytes_rank(b"abc", b"abc"), Rank::Same);
    assert_eq!(bytes_rank(&[0xff], &[0x7f, 0xff]), Rank::After);
}
