use cask::bytes::Reader;
use cask::data::Entry;

#[test]
fn test_serialization() {
    let sequence = 0;
    let key: &[u8] = &[0, 0, 0];
    let value: &[u8] = &[0, 0, 0];
    let entry = Entry::new(sequence, key, value).unwrap();
    let deleted_entry = Entry::deleted(sequence, key);

    assert_eq!(entry.to_bytes().unwrap().len(), 24);

    assert_eq!(entry, Entry::from_bytes(&entry.to_bytes().unwrap()).unwrap());
    assert_eq!(
        entry,
        Entry::from_read(&mut Reader::new(&entry.to_bytes().unwrap())).unwrap()
    );
    let mut v = Vec::new();
    entry.write_bytes(&mut v).unwrap();
    assert_eq!(entry, Entry::from_bytes(&v).unwrap());

    assert_eq!(
        deleted_entry,
        Entry::from_bytes(&deleted_entry.to_bytes().unwrap()).unwrap()
    );
    assert_eq!(
        deleted_entry,
        Entry::from_read(&mut Reader::new(&deleted_entry.to_bytes().unwrap())).unwrap()
    );
    v.clear();
    deleted_entry.write_bytes(&mut v).unwrap();
    assert_eq!(deleted_entry, Entry::from_bytes(&v).unwrap());
}

#[test]
fn test_deleted() {
    let sequence = 0;
    let key: &[u8] = &[0, 0, 0];

    assert!(Entry::deleted(sequence, key).deleted);
    assert_eq!(Entry::deleted(sequence, key).value.len(), 0);
}
