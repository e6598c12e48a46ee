use erasure::endian::{from_le_bytes, to_le_bytes};
use erasure::packet::{
    Blob, BLOB_DATA_SIZE, BLOB_FLAG_IS_CODING, BLOB_HEADER_SIZE, BLOB_SIZE, INDEX_OFFSET,
    SIZE_OFFSET, SLOT_OFFSET,
};
use solana_sdk::pubkey::Pubkey;

#[test]
fn sizes_of_blobs() {
    assert_eq!(BLOB_SIZE, 65408);
    assert_eq!(BLOB_HEADER_SIZE, 64);
    assert_eq!(BLOB_DATA_SIZE, 65280);
}

#[test]
fn header_fields_are_read_back() {
    let id = Pubkey::new_from_array([0xab; 32]);
    let mut b = Blob::default();
    b.set_slot(0x0102_0304_0506_0708);
    b.set_index(u64::MAX);
    b.set_id(&id.to_bytes());
    b.set_flags(0x8000_0000);
    b.set_size(100);
    b.set_coding();
    assert_eq!(b.slot(), 0x0102_0304_0506_0708);
    assert_eq!(b.index(), u64::MAX);
    assert_eq!(Pubkey::new_from_array(b.id()), id);
    assert_eq!(b.flags(), 0x8000_0000 | BLOB_FLAG_IS_CODING);
    assert!(b.is_coding());
    assert_eq!(b.data_size(), 164);
    assert_eq!(b.size(), Some(100));
    assert_eq!(b.meta.size, 164);
    assert_eq!(b.data[SLOT_OFFSET..SLOT_OFFSET + 8], [8, 7, 6, 5, 4, 3, 2, 1]);
    assert_eq!(b.data[INDEX_OFFSET..INDEX_OFFSET + 8], [0xff; 8]);
    assert_eq!(b.data[SIZE_OFFSET..SIZE_OFFSET + 8], [164, 0, 0, 0, 0, 0, 0, 0]);
    assert!(b.data().iter().all(|x| *x == 0));
    assert_eq!(b.data().len(), BLOB_SIZE - BLOB_HEADER_SIZE);
}

#[test]
fn blobs_are_loaded_from_bytes() {
    let mut b = Blob::default();
    b.set_size(3);
    b.set_index(9);
    b.data[64] = 1;
    b.data[66] = 2;
    b.data[67] = 99;
    let c = Blob::new(&b.data[..67]);
    assert_eq!(c.data[..67], b.data[..67]);
    assert_eq!(c.data[67], 0);
    assert_eq!(c.meta.size, 67);
    assert_eq!(c.size(), Some(3));
    let d = b.clone();
    assert_eq!(d.data, b.data);
    assert_eq!(d.meta, b.meta);
    let long = vec![1u8; BLOB_SIZE + 5];
    assert_eq!(Blob::new(&long).data, vec![1u8; BLOB_SIZE]);
}

#[test]
fn sizes_that_disagree_are_not_given() {
    let mut b = Blob::default();
    assert_eq!(b.size(), None);
    b.set_size(5);
    b.meta.size = 70;
    assert_eq!(b.size(), None);
}

#[test]
fn little_endian_numbers() {
    assert_eq!(from_le_bytes(&[1, 2]), 0x0201);
    assert_eq!(from_le_bytes(&[]), 0);
    assert_eq!(from_le_bytes(&[0xff; 8]), u64::MAX);
    assert_eq!(to_le_bytes(0x0102_0304, 4), vec![4, 3, 2, 1]);
    assert_eq!(to_le_bytes(0x0102_0304, 2), vec![4, 3]);
    assert_eq!(from_le_bytes(&to_le_bytes(987_654_321_000, 8)), 987_654_321_000);
}
