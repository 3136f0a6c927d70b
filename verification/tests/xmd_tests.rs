use xmd::archive::Xmd;
use xmd::error::XmdError;
use xmd::names::id_from_file_name;
use xmd::sniff::derive_name;

fn sample_archive() -> Xmd {
    let mut a = Xmd::new();
    a.insert(7, vec![1, 2, 3]);
    a.insert(3, vec![]);
    a.insert(12, vec![0xab; 20]);
    a
}

#[test]
fn round_trip_plain() {
    let a = sample_archive();
    let enc = a.write_parser(false).unwrap();
    let d = Xmd::from_parser(&enc).unwrap();
    assert!(d.equals(&a));
}

#[test]
fn round_trip_plain_empty_archive() {
    let a = Xmd::new();
    let enc = a.write_parser(false).unwrap();
    assert_eq!(enc.len(), 16);
    let d = Xmd::from_parser(&enc).unwrap();
    assert!(d.equals(&a));
    assert_eq!(d.num_entries(), 0);
}

#[test]
fn round_trip_gzip() {
    let a = sample_archive();
    let enc = a.write_parser(true).unwrap();
    assert_eq!(&enc[0..3], &[0x1f, 0x8b, 0x08]);
    let d = Xmd::from_bytes(&enc).unwrap();
    assert!(d.equals(&a));
}

#[test]
fn plain_encoding_decodes_through_from_bytes_too() {
    let a = sample_archive();
    let enc = a.write_parser(false).unwrap();
    let d = Xmd::from_bytes(&enc).unwrap();
    assert!(d.equals(&a));
}

#[test]
fn encode_deterministic_any_insertion_order() {
    let mut a = Xmd::new();
    a.insert(9, vec![4, 4]);
    a.insert(1, vec![5]);
    let mut b = Xmd::new();
    b.insert(1, vec![5]);
    b.insert(9, vec![4, 4]);
    assert!(a.equals(&b));
    assert_eq!(a.write_parser(false).unwrap(), b.write_parser(false).unwrap());
}

#[test]
fn insert_replaces_same_id() {
    let mut a = Xmd::new();
    a.insert(5, vec![1]);
    a.insert(5, vec![2, 3]);
    assert_eq!(a.num_entries(), 1);
    assert_eq!(a.entry_id(0), 5);
    assert_eq!(a.entry_data(0), &vec![2, 3]);
}

#[test]
fn golden_layout_single_entry() {
    let mut a = Xmd::new();
    a.insert(7, vec![b'A', b'B']);
    let enc = a.write_parser(false).unwrap();
    let mut expected = vec![0u8; 80];
    // magic tag and reserved bytes
    expected[0..12].copy_from_slice(&[0x58, 0x4d, 0x44, 0, 0x30, 0x30, 0x31, 0, 3, 0, 0, 0]);
    expected[12] = 1; // entry count
    expected[16] = 64; // offset of the only payload block
    expected[32] = 2; // its length
    expected[48] = 7; // its id
    expected[64] = b'A';
    expected[65] = b'B';
    assert_eq!(enc, expected);
}

fn read_u32(buf: &[u8], pos: usize) -> u32 {
    u32::from_le_bytes([buf[pos], buf[pos + 1], buf[pos + 2], buf[pos + 3]])
}

#[test]
fn tables_and_blocks_are_16_byte_aligned() {
    let a = sample_archive();
    let enc = a.write_parser(false).unwrap();
    let n = read_u32(&enc, 12) as usize;
    assert_eq!(n, 3);
    let pos_lens = (16 + 4 * n + 15) / 16 * 16;
    let pos_ids = (pos_lens + 4 * n + 15) / 16 * 16;
    assert_eq!(pos_lens % 16, 0);
    assert_eq!(pos_ids % 16, 0);
    for j in 0..n {
        let off = read_u32(&enc, 16 + 4 * j) as usize;
        assert_eq!(off % 16, 0);
        let len = read_u32(&enc, pos_lens + 4 * j) as usize;
        assert!(off + len <= enc.len());
    }
}

#[test]
fn sniff_texture_container() {
    let mut p = b"NTWD".to_vec();
    p.extend_from_slice(b"whatever");
    assert_eq!(derive_name(&p, 7), b"7.nut".to_vec());
}

#[test]
fn sniff_unknown_discriminator() {
    let mut p = b"ZZZZ".to_vec();
    p.extend_from_slice(&[9, 9, 9]);
    assert_eq!(derive_name(&p, 3), b"3".to_vec());
}

#[test]
fn sniff_model_embedded_name() {
    // Fields at 0x10..0x20 are all zero, so the name sits at 0x30.
    let mut p = vec![0u8; 0x30];
    p[0..4].copy_from_slice(b"NDWD");
    p.extend_from_slice(b"Foo_Bar1\0");
    assert_eq!(derive_name(&p, 9), b"Foo_Bar_9.nud".to_vec());
}

#[test]
fn sniff_model_name_out_of_range_falls_back() {
    let mut p = vec![0u8; 0x20];
    p[0..4].copy_from_slice(b"NDWD");
    p[0x10] = 0xff; // positions the name far past the payload's end
    assert_eq!(derive_name(&p, 77), b"77".to_vec());
}

#[test]
fn sniff_model_missing_terminator_falls_back() {
    let mut p = vec![0u8; 0x30];
    p[0..4].copy_from_slice(b"NDWD");
    p.extend_from_slice(b"Name"); // no nul before the payload ends
    assert_eq!(derive_name(&p, 4), b"4".to_vec());
}

#[test]
fn directory_names_map_to_ids() {
    assert_eq!(id_from_file_name(&b"a12.bin".to_vec()), Some(12));
    assert_eq!(id_from_file_name(&b"007".to_vec()), Some(7));
    assert_eq!(id_from_file_name(&b"readme.txt".to_vec()), None);
}

#[test]
fn directory_name_overflow_excluded() {
    assert_eq!(id_from_file_name(&b"99999999999.bin".to_vec()), None);
    assert_eq!(id_from_file_name(&b"4294967295".to_vec()), Some(u32::MAX));
}

#[test]
fn decode_golden_bytes() {
    let mut buf = vec![0u8; 80];
    buf[0..12].copy_from_slice(&[0x58, 0x4d, 0x44, 0, 0x30, 0x30, 0x31, 0, 3, 0, 0, 0]);
    buf[12] = 1;
    buf[16] = 64;
    buf[32] = 2;
    buf[48] = 7;
    buf[64] = b'A';
    buf[65] = b'B';
    let d = Xmd::from_parser(&buf).unwrap();
    assert_eq!(d.num_entries(), 1);
    assert_eq!(d.entry_id(0), 7);
    assert_eq!(d.entry_data(0), &vec![b'A', b'B']);
}

#[test]
fn decode_overlapping_offsets() {
    // Two entries whose blocks overlap: offsets need not be monotonic or
    // disjoint, decode performs independent seeks.
    let mut buf = vec![0u8; 80];
    buf[0..12].copy_from_slice(&[0x58, 0x4d, 0x44, 0, 0x30, 0x30, 0x31, 0, 3, 0, 0, 0]);
    buf[12] = 2;
    buf[16] = 64; // offsets[0]
    buf[20] = 64; // offsets[1]
    buf[32] = 2; // lengths[0]
    buf[36] = 1; // lengths[1]
    buf[48] = 9; // ids[0]
    buf[52] = 5; // ids[1]
    buf[64] = b'A';
    buf[65] = b'B';
    let d = Xmd::from_parser(&buf).unwrap();
    assert_eq!(d.num_entries(), 2);
    assert_eq!(d.entry_id(0), 5);
    assert_eq!(d.entry_data(0), &vec![b'A']);
    assert_eq!(d.entry_id(1), 9);
    assert_eq!(d.entry_data(1), &vec![b'A', b'B']);
}

#[test]
fn ndwd_name_failure_is_naming_failure() {
    let p = b"NDWD".to_vec(); // far too short to hold the section fields
    assert!(matches!(xmd::sniff::ndwd_name(&p), Err(XmdError::NamingFailure)));
}

#[test]
fn decode_bad_magic_is_format_mismatch() {
    let bad = b"ZZZZZZZZZZZZZZZZZZZZ".to_vec();
    assert!(matches!(Xmd::from_bytes(&bad), Err(XmdError::FormatMismatch)));
    assert!(matches!(Xmd::from_parser(&bad), Err(XmdError::FormatMismatch)));
    assert!(matches!(Xmd::from_bytes(&Vec::new()), Err(XmdError::FormatMismatch)));
}

#[test]
fn decode_truncated_header() {
    let short = vec![0x58, 0x4d, 0x44, 0];
    assert!(matches!(Xmd::from_parser(&short), Err(XmdError::TruncatedData)));
}

#[test]
fn decode_truncated_tables() {
    let mut a = Xmd::new();
    a.insert(1, vec![1, 2, 3, 4]);
    let mut enc = a.write_parser(false).unwrap();
    enc.truncate(20);
    assert!(matches!(Xmd::from_parser(&enc), Err(XmdError::TruncatedData)));
}

#[test]
fn decode_gzip_garbage_is_io_failure() {
    let junk = vec![0x1f, 0x8b, 0x08, 0, 0, 0, 0, 0];
    assert!(matches!(Xmd::from_bytes(&junk), Err(XmdError::IoFailure)));
}
