use ntfs_catalog::mft::FILE_SIGNATURE;
use ntfs_catalog::usn::{usn_read_outcome, watch_decision, WatchDecision};
use ntfs_catalog::volume::{record_size, MftScan, ScanAction, ScanError};

#[test]
fn record_size_reads_signed_field() {
    assert_eq!(record_size(1024), 1024);
    assert_eq!(record_size((-10i32) as u32), 1024);
    assert_eq!(record_size(0), 0);
}

#[test]
fn scan_refuses_bad_record_size() {
    assert!(matches!(MftScan::start('C', 0), Err(ScanError::InvalidRecordSize(0))));
    assert!(matches!(MftScan::start('C', 70000), Err(ScanError::InvalidRecordSize(70000))));
}

#[test]
fn scan_reads_in_bulk_then_falls_back() {
    let mut scan = MftScan::start('C', 16).unwrap();
    assert_eq!(scan.next_action(), ScanAction::ReadBulk { start: 0, count: 4096 });
    let short = vec![0u8; 10];
    assert!(!scan.bulk_result(Some(&short)));
    assert_eq!(scan.next_action(), ScanAction::ReadEach { start: 0, count: 4096 });
    let zeros = vec![0u8; 4096 * 16];
    assert!(scan.accepts_chunk(&zeros));
    scan.records_result(&zeros);
    assert_eq!(scan.next_action(), ScanAction::ReadEach { start: 4096, count: 4096 });
    assert_eq!(scan.catalog().len(), 0);
}

#[test]
fn scan_stops_after_long_empty_run() {
    let mut scan = MftScan::start('C', 16).unwrap();
    let zeros = vec![0u8; 4096 * 16];
    let mut steps = 0;
    while scan.next_action() != ScanAction::Done {
        assert!(scan.bulk_result(Some(&zeros)));
        steps += 1;
    }
    assert_eq!(steps, 3);
    let info = scan.finish();
    assert_eq!(info.record_count, 0);
    assert_eq!(info.drive_letter, 'C');
}

#[test]
fn scan_counts_non_file_records_as_empty() {
    let mut scan = MftScan::start('D', 8).unwrap();
    let mut chunk = vec![0u8; 4096 * 8];
    chunk[0..4].copy_from_slice(&FILE_SIGNATURE.to_le_bytes());
    chunk[8..12].copy_from_slice(&0xDEADBEEFu32.to_le_bytes());
    assert!(scan.bulk_result(Some(&chunk)));
    assert_eq!(scan.catalog().len(), 0);
}

#[test]
fn watch_decides_rescans() {
    assert_eq!(watch_decision(1, 100, 2, 500, 0), WatchDecision::RescanAndRestart);
    assert_eq!(watch_decision(1, 100, 1, 50, 7), WatchDecision::RescanAndResume { resume_from: 7 });
    assert_eq!(watch_decision(1, 100, 1, 500, 7), WatchDecision::Read { from: 100 });
}

#[test]
fn journal_read_outcomes() {
    let mut out = vec![0u8; 16];
    out[0..8].copy_from_slice(&1234i64.to_le_bytes());
    assert_eq!(usn_read_outcome(9, false, 38, &out, 0), Ok((9, true)));
    assert_eq!(usn_read_outcome(9, false, 1301, &out, 0), Ok((9, true)));
    assert_eq!(usn_read_outcome(9, false, 5, &out, 0), Err(5));
    assert_eq!(usn_read_outcome(9, true, 0, &out, 4), Ok((9, false)));
    assert_eq!(usn_read_outcome(9, true, 0, &out, 8), Ok((1234, false)));
    assert_eq!(usn_read_outcome(9, true, 0, &out, 16), Ok((1234, true)));
}
