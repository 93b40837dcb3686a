use hairball::{align, file_uuid, Builder, Error, ExternalEntity, LocalEntity, Reader, Uuid};

#[test]
fn empty_hairball_round_trip() {
    let b = Builder::new();
    let u = b.uuid();
    let bytes = b.close();
    let r = Reader::read(&bytes).unwrap();
    assert_eq!(r.entities_len(), 0);
    assert_eq!(r.external_len(), 0);
    assert_eq!(r.uuid(), u);
    assert!(r.entity(0).is_none());
    assert!(r.external(0).is_none());
    assert!(r.column("anything").is_none());
}

#[test]
fn header_layout() {
    let mut b = Builder::new_with_uuid(Uuid::from_bytes(&[7u8; 16]));
    b.add_entity(LocalEntity::named("n".to_string()));
    let bytes = b.close();
    // magic
    assert_eq!(&bytes[0..8], b"hairball");
    // version 0.2.0, little-endian words
    assert_eq!(&bytes[8..12], &[0, 0, 0, 0]);
    assert_eq!(&bytes[12..16], &[2, 0, 0, 0]);
    assert_eq!(&bytes[16..20], &[0, 0, 0, 0]);
    // flags zero
    assert_eq!(&bytes[20..24], &[0, 0, 0, 0]);
    // first segment offset 4096
    assert_eq!(&bytes[24..28], &[0, 16, 0, 0]);
    // one segment of 4096 bytes
    assert_eq!(&bytes[28..32], &[1, 0, 0, 0]);
    // the table fits right after the 56-byte header
    assert_eq!(&bytes[32..40], &[56, 0, 0, 0, 0, 0, 0, 0]);
    // file uuid
    assert_eq!(&bytes[40..56], &[7u8; 16]);
    // the table entry
    assert_eq!(&bytes[56..60], &[0, 16, 0, 0]);
    // header gap, one segment
    assert_eq!(bytes.len(), 4096 + 4096);
}

#[test]
fn bad_magic_rejected() {
    let b = Builder::new();
    let mut bytes = b.close();
    bytes[0] = b'H';
    assert_eq!(Reader::read(&bytes).err().unwrap(), Error::InvalidHeader);
    assert_eq!(file_uuid(&bytes).err().unwrap(), Error::InvalidHeader);
}

#[test]
fn truncated_header_rejected() {
    let b = Builder::new();
    let bytes = b.close();
    assert_eq!(Reader::read(&bytes[..10]).err().unwrap(), Error::InvalidHeader);
    assert_eq!(file_uuid(&bytes[..10]).err().unwrap(), Error::InvalidHeader);
}

#[test]
fn unknown_major_version_rejected() {
    let b = Builder::new();
    let u = b.uuid();
    let mut bytes = b.close();
    bytes[8] = 9;
    assert_eq!(Reader::read(&bytes).err().unwrap(), Error::InvalidHeader);
    // the header-only probe does not check the version
    assert_eq!(file_uuid(&bytes).unwrap(), u);
}

#[test]
fn truncated_segment_rejected() {
    let mut b = Builder::new();
    b.add_entity(LocalEntity::named("x".to_string()));
    let bytes = b.close();
    assert_eq!(Reader::read(&bytes[..4100]).err().unwrap(), Error::InvalidHeader);
}

#[test]
fn corrupt_message_rejected() {
    let mut b = Builder::new();
    b.add_entity(LocalEntity::anonymous());
    let mut bytes = b.close();
    // first entity's tag byte: segment start + 8-byte length + 4-byte count
    bytes[4096 + 8 + 4] = 7;
    assert_eq!(Reader::read(&bytes).err().unwrap(), Error::CmfDecode);
}

#[test]
fn file_uuid_matches_builder() {
    let b = Builder::new();
    let u = b.uuid();
    let bytes = b.close();
    assert_eq!(file_uuid(&bytes).unwrap(), u);
}

#[test]
fn external_len_boundary() {
    let mut b = Builder::new();
    b.add_external_entity(ExternalEntity::new(Uuid::from_bytes(&[1u8; 16]), "a".to_string()));
    b.add_external_entity(ExternalEntity::new(Uuid::from_bytes(&[2u8; 16]), "b".to_string()));
    let bytes = b.close();
    let r = Reader::read(&bytes).unwrap();
    let m = r.external_len();
    assert_eq!(m, 2);
    assert!(r.external(m - 1).is_some());
    assert!(r.external(m).is_none());
}

#[test]
fn parent_of_external_is_absent() {
    let mut b = Builder::new();
    b.add_external_entity(ExternalEntity::new(Uuid::from_bytes(&[3u8; 16]), "p".to_string()));
    let bytes = b.close();
    let r = Reader::read(&bytes).unwrap();
    let e = r.entity(0).unwrap();
    assert_eq!(e.parent(), None);
}

#[test]
fn external_uuids_deduplicated() {
    let mut b = Builder::new();
    let u = Uuid::from_bytes(&[9u8; 16]);
    for i in 0..5 {
        b.add_external_entity(ExternalEntity::new(u, format!("{}", i)));
    }
    let bytes = b.close();
    let r = Reader::read(&bytes).unwrap();
    assert_eq!(r.external_len(), 1);
    assert_eq!(r.external(0).unwrap(), u);
    assert_eq!(r.entities_len(), 5);
}

#[test]
fn non_ascii_names_round_trip() {
    let mut b = Builder::new();
    b.add_entity(LocalEntity::named("h\u{e9}llo \u{2603}".to_string()));
    let idx = b.column("sch\u{f6}n");
    b.set_column_data(idx, vec![1, 2, 3]);
    let bytes = b.close();
    let r = Reader::read(&bytes).unwrap();
    assert_eq!(r.entity(0).unwrap().name().unwrap(), "h\u{e9}llo \u{2603}");
    assert_eq!(r.column("sch\u{f6}n").unwrap().as_slice(), &[1, 2, 3]);
}

#[test]
fn column_overwrite_last_wins() {
    let mut b = Builder::new();
    let i1 = b.column("c");
    b.set_column_data(i1, vec![1]);
    let i2 = b.column("c");
    assert_eq!(i1, i2);
    b.set_column_data(i2, vec![2, 3]);
    let bytes = b.close();
    let r = Reader::read(&bytes).unwrap();
    assert_eq!(r.column("c").unwrap().as_slice(), &[2, 3]);
}

#[test]
fn uuid_bytes_round_trip() {
    let raw: Vec<u8> = (0..16).collect();
    let u = Uuid::from_bytes(&raw);
    assert_eq!(u.to_bytes(), raw);
    let v = Uuid::from_bytes(&raw);
    assert!(u.same(&v));
    let w = Uuid::from_bytes(&[0xFFu8; 16]);
    assert!(!u.same(&w));
}

#[test]
fn align_rounds_to_granule() {
    assert_eq!(align(0), 0);
    assert_eq!(align(1), 4096);
    assert_eq!(align(4095), 4096);
    assert_eq!(align(4096), 4096);
    assert_eq!(align(4097), 8192);
}

#[test]
fn set_uuid_overrides() {
    let mut b = Builder::new();
    let u = Uuid::from_bytes(&[5u8; 16]);
    b.set_uuid(u);
    assert_eq!(b.uuid(), u);
    let bytes = b.close();
    let r = Reader::read(&bytes).unwrap();
    assert_eq!(r.uuid(), u);
}

#[test]
fn segment_table_forced_to_end_of_file() {
    // a payload big enough that the segment table cannot fit in the gap
    // between the header and the first segment
    let mut b = Builder::new();
    let idx = b.column("bulk");
    let payload: Vec<u8> = (0..5_000_000u32).map(|i| (i % 251) as u8).collect();
    b.set_column_data(idx, payload.clone());
    let bytes = b.close();
    // the gap holds at most (4096 - 56) / 4 = 1010 table entries; this file
    // needs more segments than that, so the table offset points past them
    let nseg = u32::from_le_bytes([bytes[28], bytes[29], bytes[30], bytes[31]]) as u64;
    assert!(nseg > 1010);
    let table_off = u64::from_le_bytes([
        bytes[32], bytes[33], bytes[34], bytes[35], bytes[36], bytes[37], bytes[38], bytes[39],
    ]);
    assert_eq!(table_off, 4096 + nseg * 4096);
    assert_eq!(bytes.len() as u64, table_off + nseg * 4);
    let r = Reader::read(&bytes).unwrap();
    assert_eq!(r.column("bulk").unwrap(), &payload);
}

#[test]
fn exactly_page_sized_stream_gets_no_extra_page() {
    // message: 12 bytes of counts, one column of name "c" (5 bytes encoded)
    // and a payload sized so the length-prefixed stream fills two granules
    let mut b = Builder::new();
    let idx = b.column("c");
    b.set_column_data(idx, vec![9u8; 8192 - 8 - 12 - 5 - 4]);
    let bytes = b.close();
    // two segments, table in the header gap: 4096 + 2 * 4096 bytes in all
    assert_eq!(u32::from_le_bytes([bytes[28], bytes[29], bytes[30], bytes[31]]), 2);
    assert_eq!(bytes.len(), 4096 + 8192);
    let r = Reader::read(&bytes).unwrap();
    assert_eq!(r.column("c").unwrap().len(), 8192 - 8 - 12 - 5 - 4);
}
