use ntfs_catalog::catalog::Catalog;
use ntfs_catalog::mft::{
    apply_fixup, decode_parent_reference, parse_file_record, read_utf16le, FileTimestamps, MftError,
    FILE_SIGNATURE, MFT_RECORD_SIZE,
};
use ntfs_catalog::path_reconstruct::{parent_chains_end, reconstruct_paths};
use ntfs_catalog::persistence::{encode_catalog, load_catalog_from_bytes, PersistError};

fn make_record_with_fixup(body: &mut [u8]) {
    body[0..4].copy_from_slice(&FILE_SIGNATURE.to_le_bytes());
    body[4..6].copy_from_slice(&48u16.to_le_bytes());
    body[6..8].copy_from_slice(&3u16.to_le_bytes());
    body[24..26].copy_from_slice(&1u16.to_le_bytes());
    body[26..28].copy_from_slice(&1u16.to_le_bytes());
    body[28..30].copy_from_slice(&48u16.to_le_bytes());
    body[32..34].copy_from_slice(&1u16.to_le_bytes());
    body[34..38].copy_from_slice(&256u32.to_le_bytes());

    let update_seq: u16 = 0xABCD;
    body[48..50].copy_from_slice(&update_seq.to_le_bytes());
    body[510] = 0xCD;
    body[511] = 0xAB;
    body[52..54].copy_from_slice(&0x1234u16.to_le_bytes());
    body[1022] = 0xCD;
    body[1023] = 0xAB;
    body[54..56].copy_from_slice(&0x5678u16.to_le_bytes());
}

#[test]
fn fixup_restores_sector_trailer_bytes() {
    let mut record = vec![0u8; MFT_RECORD_SIZE];
    make_record_with_fixup(&mut record);
    apply_fixup(&mut record).unwrap();
    assert_eq!(record[510], 0x34);
    assert_eq!(record[511], 0x12);
    assert_eq!(record[1022], 0x78);
    assert_eq!(record[1023], 0x56);
}

#[test]
fn fixup_rejects_invalid_signature() {
    let mut record = vec![0u8; MFT_RECORD_SIZE];
    make_record_with_fixup(&mut record);
    record[0..4].copy_from_slice(&0u32.to_le_bytes());
    assert!(apply_fixup(&mut record).is_err());
}

#[test]
fn fixup_rejects_short_record() {
    let mut record = vec![0u8; 20];
    assert_eq!(apply_fixup(&mut record), Err(MftError::FixupRecordTooSmall));
}

#[test]
fn fixup_restores_even_a_mismatched_sector_trailer() {
    let mut record = vec![0u8; MFT_RECORD_SIZE];
    make_record_with_fixup(&mut record);
    record[511] = 0x00;
    assert!(apply_fixup(&mut record).is_ok());
    assert_eq!(record[510], 0x34);
    assert_eq!(record[511], 0x12);
}

#[test]
fn fixup_rejects_small_update_sequence_array() {
    let mut record = vec![0u8; MFT_RECORD_SIZE];
    make_record_with_fixup(&mut record);
    record[6..8].copy_from_slice(&1u16.to_le_bytes());
    assert_eq!(apply_fixup(&mut record), Err(MftError::InvalidUsaCount(1)));
}

#[test]
fn parent_reference_splits_record_and_sequence() {
    let (rec, seq) = decode_parent_reference(0x0003_0000_0000_0064);
    assert_eq!(rec, 100);
    assert_eq!(seq, 3);
    let (rec, seq) = decode_parent_reference(0xFFFF_FFFF_FFFF_FFFF);
    assert_eq!(rec, 0x000F_FFFF_FFFF);
    assert_eq!(seq, 0xFFFF);
}

#[test]
fn utf16_name_is_read_up_to_count() {
    let data: Vec<u8> = "Ab.txt".encode_utf16().flat_map(|u| u.to_le_bytes()).collect();
    assert_eq!(read_utf16le(&data, 0, 2).as_deref(), Some("Ab"));
    assert_eq!(read_utf16le(&data, 0, 6).as_deref(), Some("Ab.txt"));
    assert_eq!(read_utf16le(&data, 0, 7), None);
}

#[test]
fn parse_rejects_non_file_record() {
    let record = vec![0u8; MFT_RECORD_SIZE];
    assert!(matches!(parse_file_record(&record, 7), Err(MftError::NotFileRecord)));
    let short = vec![0u8; 20];
    assert!(matches!(parse_file_record(&short, 7), Err(MftError::RecordTooSmall)));
}

#[test]
fn upsert_then_get_reads_back_values() {
    let mut cat = Catalog::new('E');
    let ts = FileTimestamps { created: 1, modified: 2, mft_modified: 3, accessed: 4 };
    cat.upsert_entry(77, 2, 5, 1, "a.txt", "\\a.txt", 10, ts, true, false);
    let e = cat.get(77).unwrap();
    assert_eq!(e.filename, "a.txt");
    assert_eq!(e.path, "\\a.txt");
    assert_eq!(e.sequence_number, 2);
    assert_eq!(e.timestamps.accessed, 4);
    assert!(!e.is_active);
    assert_eq!(cat.get_sequence(77), Some(2));
    assert!(cat.get(78).is_none());
    assert_eq!(cat.get_sequence(78), None);
}

#[test]
fn upsert_overwrites_existing_record_in_place() {
    let mut cat = Catalog::new('E');
    cat.upsert_entry(10, 1, 5, 1, "one", "", 1, FileTimestamps::default(), true, true);
    cat.upsert_entry(11, 1, 5, 1, "two", "", 2, FileTimestamps::default(), true, true);
    cat.upsert_entry(10, 4, 5, 1, "uno", "", 9, FileTimestamps::default(), true, false);
    assert_eq!(cat.len(), 2);
    let e = cat.get(10).unwrap();
    assert_eq!(e.filename, "uno");
    assert_eq!(e.sequence_number, 4);
    assert_eq!(e.file_size, 9);
    assert_eq!(cat.get(11).unwrap().filename, "two");
    let all = cat.entries();
    assert_eq!(all[0].record_number, 10);
    assert_eq!(all[1].record_number, 11);
    let active = cat.active_entries();
    assert_eq!(active.len(), 1);
    assert_eq!(active[0].record_number, 11);
}

#[test]
fn intern_string_returns_pool_offsets() {
    let mut cat = Catalog::new('F');
    assert!(cat.is_empty());
    assert_eq!(cat.intern_string("ab"), 0);
    assert_eq!(cat.intern_string("é"), 3);
    assert_eq!(cat.intern_string(""), 6);
    assert_eq!(cat.drive_letter(), 'F');
}

#[test]
fn path_reconstruction_to_root() {
    let mut cat = Catalog::new('C');
    cat.upsert_entry(5, 1, 5, 1, "", "\\", 0, FileTimestamps::default(), true, true);
    cat.upsert_entry(100, 1, 5, 1, "Windows", "", 0, FileTimestamps::default(), true, true);
    cat.upsert_entry(200, 1, 100, 1, "System32", "", 0, FileTimestamps::default(), true, true);
    cat.upsert_entry(300, 1, 200, 1, "kernel32.dll", "", 4096, FileTimestamps::default(), true, true);

    reconstruct_paths(&mut cat);

    let entry = cat.get(300).unwrap();
    assert_eq!(entry.path, "\\Windows\\System32\\kernel32.dll");
    assert!(entry.parent_valid);
}

#[test]
fn parent_sequence_mismatch_flags_invalid() {
    let mut cat = Catalog::new('C');
    cat.upsert_entry(5, 1, 5, 1, "", "\\", 0, FileTimestamps::default(), true, true);
    cat.upsert_entry(100, 2, 5, 1, "folder", "", 0, FileTimestamps::default(), true, true);
    cat.upsert_entry(200, 1, 100, 1, "file.txt", "", 0, FileTimestamps::default(), true, true);

    reconstruct_paths(&mut cat);

    let entry = cat.get(200).unwrap();
    assert!(!entry.parent_valid);
}

#[test]
fn reconstruction_marks_missing_parent_and_root() {
    let mut cat = Catalog::new('C');
    cat.upsert_entry(5, 1, 5, 1, "", "\\", 0, FileTimestamps::default(), true, true);
    cat.upsert_entry(400, 1, 999, 1, "lost.txt", "", 0, FileTimestamps::default(), true, true);
    cat.upsert_entry(401, 1, 0, 0, "orphan.txt", "", 0, FileTimestamps::default(), true, true);
    cat.upsert_entry(402, 1, 5, 1, "", "", 0, FileTimestamps::default(), true, true);
    reconstruct_paths(&mut cat);
    let root = cat.get(5).unwrap();
    assert_eq!(root.path, "\\");
    assert!(root.parent_valid);
    let lost = cat.get(400).unwrap();
    assert_eq!(lost.path, "\\lost.txt");
    assert!(!lost.parent_valid);
    let orphan = cat.get(401).unwrap();
    assert_eq!(orphan.path, "orphan.txt");
    assert!(!orphan.parent_valid);
    let unnamed = cat.get(402).unwrap();
    assert_eq!(unnamed.path, "");
    assert!(!unnamed.parent_valid);
}

#[test]
fn reconstruction_trims_trailing_backslashes_of_directory() {
    let mut cat = Catalog::new('C');
    cat.upsert_entry(5, 1, 5, 1, "", "\\", 0, FileTimestamps::default(), true, true);
    cat.upsert_entry(100, 1, 5, 1, "dir\\\\", "", 0, FileTimestamps::default(), true, true);
    cat.upsert_entry(200, 1, 100, 1, "f", "", 0, FileTimestamps::default(), true, true);
    reconstruct_paths(&mut cat);
    assert_eq!(cat.get(200).unwrap().path, "\\dir\\f");
}

#[test]
fn cyclic_parents_are_detected() {
    let mut cat = Catalog::new('C');
    cat.upsert_entry(100, 1, 200, 1, "a", "", 0, FileTimestamps::default(), true, true);
    cat.upsert_entry(200, 1, 100, 1, "b", "", 0, FileTimestamps::default(), true, true);
    assert!(!parent_chains_end(&cat));
    let mut ok = Catalog::new('C');
    ok.upsert_entry(100, 1, 5, 1, "a", "", 0, FileTimestamps::default(), true, true);
    assert!(parent_chains_end(&ok));
}

#[test]
fn mmap_roundtrip_preserves_entries() {
    let mut cat = Catalog::new('D');
    let ts = FileTimestamps { created: 100, modified: 200, mft_modified: 300, accessed: 400 };
    cat.upsert_entry(5, 1, 5, 1, "", "\\", 0, FileTimestamps::default(), true, true);
    cat.upsert_entry(42, 3, 5, 1, "readme.txt", "\\readme.txt", 1024, ts, true, true);
    cat.upsert_entry(
        99,
        1,
        42,
        3,
        "nested.pdf",
        "\\readme.txt\\nested.pdf",
        2048,
        FileTimestamps::default(),
        false,
        true,
    );

    let bytes = encode_catalog(&cat);
    let loaded = load_catalog_from_bytes(&bytes).unwrap();
    assert_eq!(loaded.len(), 3);
    assert_eq!(loaded.drive_letter(), 'D');

    let e42 = loaded.get(42).unwrap();
    assert_eq!(e42.filename, "readme.txt");
    assert_eq!(e42.file_size, 1024);
    assert_eq!(e42.timestamps.modified, 200);

    let e99 = loaded.get(99).unwrap();
    assert_eq!(e99.path, "\\readme.txt\\nested.pdf");
    assert!(!e99.parent_valid);
}

#[test]
fn rejects_bad_magic() {
    assert!(load_catalog_from_bytes(b"NOTCAT01").is_err());
}

#[test]
fn encoded_catalog_is_page_aligned_and_validated() {
    let mut cat = Catalog::new('Z');
    cat.upsert_entry(7, 1, 5, 1, "x", "\\x", 3, FileTimestamps::default(), true, true);
    let bytes = encode_catalog(&cat);
    assert_eq!(bytes.len() % 4096, 0);
    assert_eq!(&bytes[0..8], b"NTFSCAT1");
    assert!(matches!(load_catalog_from_bytes(&bytes[..100]), Err(PersistError::FileTooSmall)));
    let mut wrong_version = bytes.clone();
    wrong_version[8] = 9;
    assert!(matches!(
        load_catalog_from_bytes(&wrong_version),
        Err(PersistError::UnsupportedVersion(9))
    ));
}

#[test]
fn loader_reports_each_corruption() {
    let mut cat = Catalog::new('Z');
    cat.upsert_entry(7, 1, 5, 1, "x", "\\x", 3, FileTimestamps::default(), true, true);
    let bytes = encode_catalog(&cat);

    let mut bad_magic = bytes.clone();
    bad_magic[0] = b'X';
    assert!(matches!(load_catalog_from_bytes(&bad_magic), Err(PersistError::InvalidMagic)));

    let mut far_column = bytes.clone();
    far_column[264..272].copy_from_slice(&(1u64 << 40).to_le_bytes());
    assert!(matches!(load_catalog_from_bytes(&far_column), Err(PersistError::ColumnOutOfBounds(1))));

    let mut unknown_column = bytes.clone();
    unknown_column[288..292].copy_from_slice(&99u32.to_le_bytes());
    assert!(matches!(load_catalog_from_bytes(&unknown_column), Err(PersistError::ColumnLengthMismatch)));
}

#[test]
fn fixup_reports_signature_and_bounds() {
    let mut record = vec![0u8; MFT_RECORD_SIZE];
    make_record_with_fixup(&mut record);
    record[0..4].copy_from_slice(&0x1234_5678u32.to_le_bytes());
    assert_eq!(apply_fixup(&mut record), Err(MftError::InvalidSignature(0x1234_5678)));

    let mut record = vec![0u8; MFT_RECORD_SIZE];
    make_record_with_fixup(&mut record);
    record[4..6].copy_from_slice(&1020u16.to_le_bytes());
    assert_eq!(apply_fixup(&mut record), Err(MftError::FixupOutOfBounds));
}

#[test]
fn parse_reads_names_sizes_and_truncation() {
    let mut r = vec![0u8; MFT_RECORD_SIZE];
    r[0..4].copy_from_slice(&FILE_SIGNATURE.to_le_bytes());
    r[16..18].copy_from_slice(&9u16.to_le_bytes());
    r[20..22].copy_from_slice(&56u16.to_le_bytes());
    r[22..24].copy_from_slice(&1u16.to_le_bytes());
    // $FILE_NAME at 56, resident, content at +24
    let a = 56;
    r[a..a + 4].copy_from_slice(&0x30u32.to_le_bytes());
    r[a + 4..a + 8].copy_from_slice(&104u32.to_le_bytes());
    r[a + 20..a + 22].copy_from_slice(&24u16.to_le_bytes());
    let c = a + 24;
    r[c..c + 8].copy_from_slice(&((2u64 << 48) | 5).to_le_bytes());
    r[c + 64] = 3;
    r[c + 65] = 1;
    for (i, u) in "a.b".encode_utf16().enumerate() {
        r[c + 66 + 2 * i..c + 68 + 2 * i].copy_from_slice(&u.to_le_bytes());
    }
    // $DATA at 160, resident, value length 8 and size at +24
    let d = 160;
    r[d..d + 4].copy_from_slice(&0x80u32.to_le_bytes());
    r[d + 4..d + 8].copy_from_slice(&32u32.to_le_bytes());
    r[d + 16..d + 20].copy_from_slice(&8u32.to_le_bytes());
    r[d + 24..d + 32].copy_from_slice(&777u64.to_le_bytes());
    r[192..196].copy_from_slice(&0xFFFF_FFFFu32.to_le_bytes());
    let p = parse_file_record(&r, 42).unwrap();
    assert_eq!(p.record_number, 42);
    assert_eq!(p.sequence_number, 9);
    assert!(p.is_active);
    assert_eq!(p.filename.as_deref(), Some("a.b"));
    assert_eq!(p.parent_record, 5);
    assert_eq!(p.parent_sequence, 2);
    assert_eq!(p.file_size, 777);

    let mut t = vec![0u8; 68];
    t[0..4].copy_from_slice(&FILE_SIGNATURE.to_le_bytes());
    t[20..22].copy_from_slice(&48u16.to_le_bytes());
    t[48..52].copy_from_slice(&0x10u32.to_le_bytes());
    t[52..56].copy_from_slice(&16u32.to_le_bytes());
    assert!(matches!(parse_file_record(&t, 1), Err(MftError::AttributeHeaderTruncated)));
}

#[test]
fn utf16_names_decode_pairs_and_replace_lone_surrogates() {
    let units: [u16; 4] = [0xD83D, 0xDE00, 0xD800, 0x0041];
    let data: Vec<u8> = units.iter().flat_map(|u| u.to_le_bytes()).collect();
    assert_eq!(read_utf16le(&data, 0, 4).as_deref(), Some("\u{1F600}\u{FFFD}A"));
    let zero_cut: [u16; 3] = [0x0042, 0x0000, 0x0043];
    let data: Vec<u8> = zero_cut.iter().flat_map(|u| u.to_le_bytes()).collect();
    assert_eq!(read_utf16le(&data, 0, 3).as_deref(), Some("B"));
}

#[test]
fn default_catalog_is_empty() {
    let cat = Catalog::default();
    assert!(cat.is_empty());
    assert_eq!(cat.len(), 0);
    assert_eq!(cat.drive_letter(), '\0');
    assert!(cat.entries().is_empty());
}

#[test]
fn drive_letter_survives_calls() {
    let mut cat = Catalog::new('D');
    cat.upsert_entry(5, 1, 5, 1, "", "\\", 0, FileTimestamps::default(), true, true);
    cat.intern_string("scratch");
    cat.upsert_entry(100, 1, 5, 1, "dir", "", 0, FileTimestamps::default(), true, true);
    cat.upsert_entry(100, 2, 5, 1, "dir2", "", 0, FileTimestamps::default(), true, false);
    reconstruct_paths(&mut cat);
    assert_eq!(cat.drive_letter(), 'D');
}

#[test]
fn rows_follow_first_upserts() {
    let mut cat = Catalog::new('C');
    for r in [30u64, 10, 30, 20, 10, 30] {
        cat.upsert_entry(r, 1, 5, 1, "x", "", r, FileTimestamps::default(), true, true);
    }
    cat.intern_string("more");
    assert_eq!(cat.len(), 3);
    let numbers: Vec<u64> = cat.entries().iter().map(|e| e.record_number).collect();
    assert_eq!(numbers, vec![30, 10, 20]);
}

#[test]
fn active_entries_are_filtered_entries() {
    let mut cat = Catalog::new('C');
    let flags = [true, false, false, true, true, false];
    for (i, active) in flags.iter().enumerate() {
        let name = format!("f{}", i);
        cat.upsert_entry(50 + i as u64, 1, 5, 1, &name, "", 0, FileTimestamps::default(), true, *active);
    }
    cat.upsert_entry(53, 1, 5, 1, "f3", "", 0, FileTimestamps::default(), true, false);
    let filtered: Vec<(u64, String)> =
        cat.entries().into_iter().filter(|e| e.is_active).map(|e| (e.record_number, e.filename)).collect();
    let active: Vec<(u64, String)> =
        cat.active_entries().into_iter().map(|e| (e.record_number, e.filename)).collect();
    assert_eq!(active, filtered);
    assert_eq!(active, vec![(50, "f0".to_string()), (54, "f4".to_string())]);
}

#[test]
fn second_reconstruction_changes_no_entry() {
    let mut cat = Catalog::new('C');
    cat.upsert_entry(5, 1, 5, 1, "", "\\", 0, FileTimestamps::default(), true, true);
    cat.upsert_entry(100, 1, 5, 1, "Windows", "", 0, FileTimestamps::default(), true, true);
    cat.upsert_entry(200, 2, 100, 1, "System32", "", 0, FileTimestamps::default(), true, true);
    cat.upsert_entry(300, 1, 200, 1, "kernel32.dll", "", 4096, FileTimestamps::default(), true, true);
    cat.upsert_entry(400, 1, 999, 1, "lost.txt", "", 0, FileTimestamps::default(), true, false);
    reconstruct_paths(&mut cat);
    let once = cat.entries();
    reconstruct_paths(&mut cat);
    let twice = cat.entries();
    assert_eq!(cat.len(), once.len());
    for (a, b) in once.iter().zip(twice.iter()) {
        assert_eq!(a.record_number, b.record_number);
        assert_eq!(a.filename, b.filename);
        assert_eq!(a.path, b.path);
        assert_eq!(a.parent_valid, b.parent_valid);
        assert_eq!(a.is_active, b.is_active);
        assert_eq!(a.file_size, b.file_size);
        assert_eq!(a.sequence_number, b.sequence_number);
    }
    let sys = cat.get(300).unwrap();
    assert_eq!(sys.path, "\\Windows\\System32\\kernel32.dll");
    assert!(!sys.parent_valid);
}

fn loaded_with_unterminated_tail() -> Catalog {
    let mut cat = Catalog::new('Z');
    cat.upsert_entry(5, 1, 5, 1, "", "\\", 0, FileTimestamps::default(), true, true);
    cat.upsert_entry(7, 1, 5, 1, "x", "\\x", 3, FileTimestamps::default(), true, true);
    let mut bytes = encode_catalog(&cat);
    let pool: &[u8] = b"\0\\\0x\0\\x\0";
    let start = bytes.windows(pool.len()).position(|w| w == pool).unwrap();
    let end = start + pool.len();
    if bytes.len() < end + 2 {
        bytes.resize(end + 2, 0);
    }
    bytes[end] = b'z';
    bytes[end + 1] = b'z';
    let size = u64::from_le_bytes(bytes[24..32].try_into().unwrap()) + 2;
    bytes[24..32].copy_from_slice(&size.to_le_bytes());
    load_catalog_from_bytes(&bytes).unwrap()
}

#[test]
fn upsert_keeps_other_records_of_a_loaded_catalog_with_an_unterminated_tail() {
    let mut cat = loaded_with_unterminated_tail();
    let before = cat.get(7).unwrap();
    assert_eq!(before.filename, "x");
    cat.upsert_entry(9, 1, 5, 1, "y", "\\y", 1, FileTimestamps::default(), true, true);
    let after = cat.get(7).unwrap();
    assert_eq!(after.filename, before.filename);
    assert_eq!(after.path, before.path);
    assert_eq!(after.file_size, before.file_size);
    assert_eq!(cat.get(9).unwrap().filename, "y");
}

#[test]
fn second_reconstruction_of_a_loaded_catalog_changes_no_entry() {
    let mut cat = loaded_with_unterminated_tail();
    reconstruct_paths(&mut cat);
    let once = cat.entries();
    reconstruct_paths(&mut cat);
    let twice = cat.entries();
    assert_eq!(once.len(), twice.len());
    for (a, b) in once.iter().zip(twice.iter()) {
        assert_eq!(a.filename, b.filename);
        assert_eq!(a.path, b.path);
        assert_eq!(a.parent_valid, b.parent_valid);
    }
    assert_eq!(cat.get(7).unwrap().path, "\\x");
}
