use libsql_wal::codec::{index_entry_pack, index_entry_split, u64_from_be_at, u64_to_be_bytes, write_at};
use libsql_wal::header::LogHeader;

#[test]
fn be64_roundtrip_concrete() {
    let bytes = u64_to_be_bytes(0x0102_0304_0506_0708);
    assert_eq!(bytes, vec![1, 2, 3, 4, 5, 6, 7, 8]);
    let back = u64_from_be_at(&bytes, 0);
    assert_eq!(back, 0x0102_0304_0506_0708);
}

#[test]
fn index_entry_split_concrete() {
    let (frame_no, offset) = index_entry_split((7u64 << 32) | 42);
    assert_eq!(frame_no, 7);
    assert_eq!(offset, 42);
    assert_eq!(index_entry_pack(7, 42), (7u64 << 32) | 42);
    let (f2, o2) = index_entry_split(index_entry_pack(0xffff_ffff, 0));
    assert_eq!(f2, 0xffff_ffff);
    assert_eq!(o2, 0);
}

#[test]
fn write_at_extends_with_zeros() {
    let data = vec![1u8, 2, 3];
    let out = write_at(&data, 5, &vec![9u8, 9]);
    assert_eq!(out, vec![1, 2, 3, 0, 0, 9, 9]);
    let out2 = write_at(&out, 1, &vec![7u8]);
    assert_eq!(out2, vec![1, 7, 3, 0, 0, 9, 9]);
}

#[test]
fn header_roundtrip_concrete() {
    let h = LogHeader {
        start_frame_no: 5,
        last_committed_frame_no: 9,
        db_size: 3,
        index_offset: 36,
        index_size: 100,
    };
    let bytes = h.to_bytes();
    assert_eq!(bytes.len(), 36);
    let back = LogHeader::from_bytes(&bytes).unwrap();
    assert_eq!(back, h);
}

#[test]
fn header_too_short_is_corruption() {
    let r = LogHeader::from_bytes(&vec![0u8; 10]);
    assert_eq!(r, Err(libsql_wal::error::WalError::Corruption));
}

#[test]
fn error_descriptions_exist() {
    assert!(!libsql_wal::error::WalError::BusySnapshot.describe().is_empty());
    assert!(!libsql_wal::error::WalError::Io.describe().is_empty());
}
