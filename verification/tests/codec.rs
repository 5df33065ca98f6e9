use cask::bytes::{write_all, write_u16, write_u32, write_u64, Reader};
use cask::data::{Entry, Hint, MAX_KEY_SIZE, MAX_VALUE_SIZE};
use cask::errors::Error;
use cask::util::{xxhash32, xxhash32_with_seed, Sequence, TwoXhash32};

#[test]
fn checksum_of_nothing() {
    assert_eq!(xxhash32(&[]), 0x02cc_5d05);
}

#[test]
fn checksum_of_known_inputs() {
    assert_eq!(xxhash32(&[42]), 0xe0fe_705f);
    assert_eq!(xxhash32(b"Hello, world!\0"), 0x9e5e_7e93);
    let bytes: Vec<u8> = (0..100).collect();
    assert_eq!(xxhash32(&bytes), 0x7f89_ba44);
    assert_eq!(xxhash32(b"Nobody inspects the spammish repetition"), 3794352943);
}

#[test]
fn xxhash32_test() {
    let string = "hello world";

    assert_eq!(xxhash32_with_seed(42, string.as_bytes()), 4225033588);
}

#[test]
fn checksum_depends_on_the_seed() {
    assert_eq!(xxhash32_with_seed(0, &[]), 0x02cc_5d05);
    assert_eq!(xxhash32_with_seed(0x42c9_1977, &[]), 0xd6bf_8459);
    assert_eq!(xxhash32_with_seed(0, b"hello world"), xxhash32(b"hello world"));
}

#[test]
fn running_checksum_is_that_of_the_whole() {
    let mut hasher = TwoXhash32::new();
    assert_eq!(hasher.get(), 0x02cc_5d05);
    hasher.update(b"Nobody inspects");
    hasher.update(b"");
    hasher.update(b" the spammish repetition");
    assert_eq!(hasher.get(), 3794352943);
    assert_eq!(hasher.get(), xxhash32(b"Nobody inspects the spammish repetition"));
}

#[test]
fn sequence_hands_out_the_next_id() {
    let mut sequence = Sequence::new(7);
    assert_eq!(sequence.current(), 7);
    assert_eq!(sequence.increment(), 8);
    assert_eq!(sequence.increment(), 9);
    assert_eq!(sequence.current(), 9);
}

#[test]
fn integers_are_little_endian() {
    let mut out = vec![0xaa];
    write_u16(&mut out, 0x0102);
    write_u32(&mut out, 0x0304_0506);
    write_u64(&mut out, 0x0708_090a_0b0c_0d0e);
    write_all(&mut out, &[1, 2]);
    assert_eq!(
        out,
        vec![0xaa, 2, 1, 6, 5, 4, 3, 0x0e, 0x0d, 0x0c, 0x0b, 0x0a, 9, 8, 7, 1, 2]
    );
}

#[test]
fn reader_hands_out_bytes_front_to_back() {
    let data = [1u8, 2, 3, 4, 5];
    let mut reader = Reader::new(&data);
    assert_eq!(reader.limit(), 5);
    assert_eq!(reader.read_exact(2), Some(&data[0..2]));
    assert_eq!(reader.limit(), 3);
    assert_eq!(reader.read_exact(0), Some(&data[0..0]));
    assert_eq!(reader.read_exact(4), None);
    assert_eq!(reader.limit(), 0);
    assert_eq!(reader.read_exact(0), Some(&data[0..0]));

    let mut reader = Reader::at(&data, 3);
    assert_eq!(reader.read_exact(2), Some(&data[3..5]));
    let reader = Reader::at(&data, 9);
    assert_eq!(reader.limit(), 0);
}

#[test]
fn record_layout() {
    let entry = Entry::new(0x0102_0304_0506_0708, b"key", b"value").unwrap();
    assert_eq!(entry.size(), 18 + 3 + 5);
    let bytes = entry.to_bytes().unwrap();
    assert_eq!(bytes.len(), 26);
    let body: Vec<u8> = vec![
        8, 7, 6, 5, 4, 3, 2, 1, // sequence
        3, 0, // key size
        5, 0, 0, 0, // value size
        b'k', b'e', b'y', b'v', b'a', b'l', b'u', b'e',
    ];
    assert_eq!(&bytes[4..], &body[..]);
    assert_eq!(&bytes[..4], &xxhash32(&body).to_le_bytes());
}

#[test]
fn tombstone_layout() {
    let entry = Entry::deleted(2, b"key");
    assert_eq!(entry.size(), 18 + 3);
    let bytes = entry.to_bytes().unwrap();
    let body: Vec<u8> = vec![
        2, 0, 0, 0, 0, 0, 0, 0, // sequence
        3, 0, // key size
        0xff, 0xff, 0xff, 0xff, // tombstone
        b'k', b'e', b'y',
    ];
    assert_eq!(&bytes[4..], &body[..]);
    assert_eq!(&bytes[..4], &xxhash32(&body).to_le_bytes());
    let mut written = Vec::new();
    entry.write_bytes(&mut written).unwrap();
    assert_eq!(written, bytes);
}

#[test]
fn empty_key_and_value_round_trip() {
    let entry = Entry::new(u64::MAX, b"", b"").unwrap();
    let bytes = entry.to_bytes().unwrap();
    assert_eq!(bytes.len(), 18);
    assert_eq!(Entry::from_bytes(&bytes).unwrap(), entry);
    assert_eq!(Entry::from_read(&mut Reader::new(&bytes)).unwrap(), entry);
}

#[test]
fn records_are_read_one_after_the_other() {
    let first = Entry::new(1, b"a", b"one").unwrap();
    let second = Entry::deleted(2, b"a");
    let third = Entry::new(3, b"b", b"").unwrap();
    let mut bytes = Vec::new();
    first.write_bytes(&mut bytes).unwrap();
    second.write_bytes(&mut bytes).unwrap();
    third.write_bytes(&mut bytes).unwrap();
    let mut reader = Reader::new(&bytes);
    assert_eq!(Entry::from_read(&mut reader).unwrap(), first);
    assert_eq!(Entry::from_read(&mut reader).unwrap(), second);
    assert_eq!(Entry::from_read(&mut reader).unwrap(), third);
    assert_eq!(reader.limit(), 0);
    assert!(matches!(Entry::from_read(&mut reader), Err(Error::Io(_))));
}

#[test]
fn short_record_is_an_io_error() {
    let bytes = Entry::new(1, b"key", b"value").unwrap().to_bytes().unwrap();
    for len in 0..bytes.len() {
        let mut reader = Reader::new(&bytes[..len]);
        assert!(matches!(Entry::from_read(&mut reader), Err(Error::Io(_))));
        assert_eq!(reader.limit(), 0);
    }
    for len in 0..18 + 3 {
        assert!(matches!(Entry::from_bytes(&bytes[..len]), Err(Error::Io(_))));
    }
}

#[test]
fn corrupt_record_is_an_invalid_checksum() {
    let mut bytes = Entry::new(1, b"key", b"value").unwrap().to_bytes().unwrap();
    let stored = u32::from_le_bytes([bytes[0], bytes[1], bytes[2], bytes[3]]);
    bytes[20] ^= 1;
    let found = xxhash32(&bytes[4..]);
    assert_ne!(stored, found);
    match Entry::from_bytes(&bytes) {
        Err(Error::InvalidChecksum { expected, found: f }) => {
            assert_eq!(expected, stored);
            assert_eq!(f, found);
        }
        other => panic!("{:?}", other),
    }
    let mut longer = bytes.clone();
    longer.extend_from_slice(&[9, 9]);
    let mut reader = Reader::new(&longer);
    match Entry::from_read(&mut reader) {
        Err(Error::InvalidChecksum { expected, found: f }) => {
            assert_eq!(expected, stored);
            assert_eq!(f, found);
        }
        other => panic!("{:?}", other),
    }
    assert_eq!(reader.limit(), 2);
}

#[test]
fn whole_buffer_is_one_record() {
    // Read as exactly one record, what follows the key is the value.
    let entry = Entry::new(7, b"k", b"v").unwrap();
    let mut bytes = entry.to_bytes().unwrap();
    bytes.push(b'w');
    let sum = xxhash32(&bytes[4..]);
    bytes[..4].copy_from_slice(&sum.to_le_bytes());
    let read = Entry::from_bytes(&bytes).unwrap();
    assert_eq!(read.key, b"k".to_vec());
    assert_eq!(read.value, b"vw".to_vec());
}

#[test]
fn sizes_are_bounded() {
    assert_eq!(MAX_KEY_SIZE, 65535);
    assert_eq!(MAX_VALUE_SIZE, 4294967294);
    let key = vec![0u8; 65536];
    assert!(matches!(Entry::new(0, &key, b""), Err(Error::InvalidKeySize(65536))));
    assert!(Entry::new(0, &key[..65535], b"").is_ok());
    // The key is looked at first.
    assert!(matches!(Entry::new(0, &key, &key), Err(Error::InvalidKeySize(65536))));
}

#[test]
fn hint_layout() {
    let entry = Entry::new(5, b"key", b"value").unwrap();
    let hint = Hint::new(&entry, 0x0102);
    assert_eq!(hint.key, b"key".to_vec());
    assert_eq!(hint.entry_pos, 0x0102);
    assert_eq!(hint.value_size, 5);
    assert_eq!(hint.sequence, 5);
    assert!(!hint.deleted);
    assert_eq!(hint.entry_size(), entry.size());
    let mut bytes = Vec::new();
    hint.write_bytes(&mut bytes).unwrap();
    assert_eq!(
        bytes,
        vec![
            5, 0, 0, 0, 0, 0, 0, 0, // sequence
            3, 0, // key size
            5, 0, 0, 0, // value size
            2, 1, 0, 0, 0, 0, 0, 0, // entry position
            b'k', b'e', b'y',
        ]
    );
    let mut reader = Reader::new(&bytes);
    assert_eq!(Hint::from_read(&mut reader).unwrap(), hint);
    assert_eq!(reader.limit(), 0);
    assert_eq!(Hint::from(entry, 0x0102), hint);
}

#[test]
fn tombstone_hint_layout() {
    let entry = Entry::deleted(6, b"k");
    let hint = Hint::new(&entry, 40);
    assert!(hint.deleted);
    assert_eq!(hint.value_size, 0);
    assert_eq!(hint.entry_size(), 19);
    let mut bytes = Vec::new();
    hint.write_bytes(&mut bytes).unwrap();
    assert_eq!(&bytes[10..14], &[0xff, 0xff, 0xff, 0xff]);
    assert_eq!(Hint::from_read(&mut Reader::new(&bytes)).unwrap(), hint);
    for len in 0..bytes.len() {
        let mut reader = Reader::new(&bytes[..len]);
        assert!(matches!(Hint::from_read(&mut reader), Err(Error::Io(_))));
        assert_eq!(reader.limit(), 0);
    }
}
