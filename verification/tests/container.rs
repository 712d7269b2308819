use token_metadata::record::TokenMetadata;
use token_metadata::tlv::{
    allocate_entry, find_entry, pack, pack_first_variable_len_value, resize_and_repack, unpack,
    TlvContainer, METADATA_TAG,
};
use token_metadata::Error;

fn tc_container(entries: Vec<(u16, Vec<u8>)>) -> TlvContainer {
    TlvContainer { entries }
}

fn tc_record(name: &[u8]) -> TokenMetadata {
    TokenMetadata {
        update_authority: vec![0u8; 32],
        mint: vec![7u8; 32],
        name: name.to_vec(),
        symbol: b"S".to_vec(),
        uri: b"u".to_vec(),
        additional_fields: Vec::new(),
    }
}

#[test]
fn pack_unpack_roundtrip_many_entries() {
    let c = tc_container(vec![
        (9, b"other".to_vec()),
        (METADATA_TAG, b"payload".to_vec()),
        (3, Vec::new()),
    ]);
    let b = pack(&c).unwrap();
    assert_eq!(b.len(), 8 + (6 + 5) + (6 + 7) + 6);
    let c2 = unpack(&b).unwrap();
    assert_eq!(c2.entries, c.entries);
}

#[test]
fn unpack_rejects_short_and_truncated() {
    assert_eq!(unpack(&[]).unwrap_err(), Error::MalformedContainer);
    assert_eq!(unpack(&[1, 0, 0, 0, 0, 0, 0]).unwrap_err(), Error::MalformedContainer);
    let mut b = pack(&tc_container(vec![(2, b"xy".to_vec())])).unwrap();
    // Truncate inside the entry header.
    b.truncate(11);
    assert_eq!(unpack(&b).unwrap_err(), Error::MalformedContainer);
}

#[test]
fn unpack_rejects_overrun_length() {
    let mut b = pack(&tc_container(vec![(2, b"xy".to_vec())])).unwrap();
    // Declare a payload longer than what remains.
    b[10] = 200;
    assert_eq!(unpack(&b).unwrap_err(), Error::MalformedContainer);
}

#[test]
fn find_entry_skips_unknown_tags() {
    let c = tc_container(vec![
        (9, b"other".to_vec()),
        (METADATA_TAG, b"payload".to_vec()),
        (METADATA_TAG, b"second".to_vec()),
    ]);
    assert_eq!(find_entry(&c, METADATA_TAG).unwrap(), &b"payload".to_vec());
    assert_eq!(find_entry(&c, 9).unwrap(), &b"other".to_vec());
    assert_eq!(find_entry(&c, 4).unwrap_err(), Error::NotFound);
}

#[test]
fn allocate_entry_appends_zeroed_payload() {
    let mut c = tc_container(vec![(9, b"zz".to_vec())]);
    allocate_entry(&mut c, METADATA_TAG, 3, false, 100).unwrap();
    assert_eq!(c.entries.len(), 2);
    assert_eq!(c.entries[1], (METADATA_TAG, vec![0u8; 3]));
}

#[test]
fn allocate_entry_rejects_duplicate_without_overwrite() {
    let mut c = tc_container(vec![(METADATA_TAG, b"old".to_vec())]);
    assert_eq!(
        allocate_entry(&mut c, METADATA_TAG, 3, false, 100).unwrap_err(),
        Error::DuplicateEntry
    );
    assert_eq!(c.entries[0].1, b"old".to_vec());
    allocate_entry(&mut c, METADATA_TAG, 5, true, 100).unwrap();
    assert_eq!(c.entries[0], (METADATA_TAG, vec![0u8; 5]));
}

#[test]
fn allocate_entry_rejects_small_capacity() {
    let mut c = tc_container(Vec::new());
    // A 3-byte payload needs 8 + 6 + 3 = 17 bytes.
    assert_eq!(allocate_entry(&mut c, METADATA_TAG, 3, false, 16).unwrap_err(), Error::OutOfSpace);
    assert!(c.entries.is_empty());
    allocate_entry(&mut c, METADATA_TAG, 3, false, 17).unwrap();
    assert_eq!(c.entries.len(), 1);
}

#[test]
fn allocate_entry_rejects_oversized_payload() {
    let mut c = tc_container(Vec::new());
    assert_eq!(
        allocate_entry(&mut c, METADATA_TAG, 0x1_0000_0000usize, false, 100).unwrap_err(),
        Error::EncodingError
    );
}

#[test]
fn pack_first_replaces_record_payload() {
    let mut c = tc_container(vec![(9, b"other".to_vec()), (METADATA_TAG, vec![0u8; 4])]);
    let m = tc_record(b"N");
    pack_first_variable_len_value(&mut c, &m).unwrap();
    assert_eq!(c.entries[0], (9, b"other".to_vec()));
    assert_eq!(c.entries[1].1, m.encode().unwrap());
}

#[test]
fn pack_first_reports_missing_entry() {
    let mut c = tc_container(vec![(9, b"other".to_vec())]);
    let m = tc_record(b"N");
    assert_eq!(pack_first_variable_len_value(&mut c, &m).unwrap_err(), Error::NotFound);
}

#[test]
fn resize_and_repack_preserves_other_entries() {
    let c = tc_container(vec![
        (9, b"before".to_vec()),
        (METADATA_TAG, tc_record(b"N").encode().unwrap()),
        (12, b"after".to_vec()),
    ]);
    let mut data = pack(&c).unwrap();
    let longer = tc_record(b"a much longer name than before");
    resize_and_repack(&mut data, &longer).unwrap();
    let c2 = unpack(&data).unwrap();
    assert_eq!(c2.entries.len(), 3);
    assert_eq!(c2.entries[0], (9, b"before".to_vec()));
    assert_eq!(c2.entries[1].1, longer.encode().unwrap());
    assert_eq!(c2.entries[2], (12, b"after".to_vec()));
    // The buffer is exactly the sum of header, entry headers and payloads.
    assert_eq!(
        data.len(),
        8 + (6 + 6) + (6 + longer.encode().unwrap().len()) + (6 + 5)
    );
    // Shrink again and check the unknown entries survive relocation.
    let shorter = tc_record(b"");
    resize_and_repack(&mut data, &shorter).unwrap();
    let c3 = unpack(&data).unwrap();
    assert_eq!(c3.entries[0], (9, b"before".to_vec()));
    assert_eq!(c3.entries[1].1, shorter.encode().unwrap());
    assert_eq!(c3.entries[2], (12, b"after".to_vec()));
}

#[test]
fn resize_and_repack_rejects_malformed_buffer() {
    let mut data = vec![1u8, 0, 0, 0, 0];
    let m = tc_record(b"N");
    assert_eq!(resize_and_repack(&mut data, &m).unwrap_err(), Error::MalformedContainer);
    assert_eq!(data, vec![1u8, 0, 0, 0, 0]);
}
