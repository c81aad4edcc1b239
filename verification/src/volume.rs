//! The decisions of a full MFT scan: which records to read next, how each
//! chunk of raw records enters the catalog, and when to stop. The reading
//! itself is done by the caller, which reports what it read.
use vstd::prelude::*;
use vstd::slice::{slice_subrange, slice_to_vec};

use crate::catalog::{
    lemma_last_slot, lemma_last_slot_push, lemma_last_slot_update, law_upsert_preserves_others, law_upsert_read_back,
    Catalog, CatalogRow, CatalogView,
};
use crate::mft::{
    fixup_result, header_of, le16, le32, parse_outcome, read_and_parse_record, read_u32, FILE_SIGNATURE,
};
use crate::path_reconstruct::{paths_terminate, reconstruct_paths, reconstructed};

verus! {

/// Records beyond this number are never read.
pub const MAX_RECORDS: u64 = 4_000_000;

/// Records read per chunk.
pub const CHUNK_RECORDS: u64 = 4096;

/// A scan stops once more than this many records in a row were empty ...
pub const EMPTY_RUN_LIMIT: u32 = 8192;

/// ... and more than this many records were read.
pub const MIN_SCANNED: u64 = 10_000;

/// Largest record size accepted, in bytes.
pub const MAX_RECORD_SIZE: usize = 65536;


/// A scanned volume.
pub struct VolumeInfo {
    pub drive_letter: char,
    pub catalog: Catalog,
    pub record_count: u64,
}

/// Why a scan cannot start.
#[derive(Debug, Clone, Copy, PartialEq, Eq, Structural)]
pub enum ScanError {
    /// The volume reports a record size of zero or above 64 KiB.
    InvalidRecordSize(usize),
}

/// What the caller should read next.
#[derive(Debug, Clone, Copy, PartialEq, Eq, Structural)]
pub enum ScanAction {
    /// Read `count` records from record `start` in one read of the MFT.
    ReadBulk { start: u64, count: u64 },
    /// Read `count` records from record `start` one at a time.
    ReadEach { start: u64, count: u64 },
    /// The scan is complete.
    Done,
}

/// The record size that a volume's `bytes_per_file_record` field denotes:
/// the value itself when it is non-negative as a 32-bit signed number,
/// otherwise two to the power of its magnitude.
pub open spec fn record_size_of(bytes_per_file_record: u32) -> int {
    if bytes_per_file_record < 0x8000_0000 {
        bytes_per_file_record as int
    } else {
        (1usize << ((0x1_0000_0000 - bytes_per_file_record) as usize)) as int
    }
}

/// A negative field is a shift that fits in `usize`.
pub open spec fn record_size_defined(bytes_per_file_record: u32) -> bool {
    bytes_per_file_record < 0x8000_0000 || (0x1_0000_0000 - bytes_per_file_record) < usize::BITS
}

/// Whether `record_size` is defined for `bytes_per_file_record`.
pub fn is_record_size_defined(bytes_per_file_record: u32) -> (b: bool)
    ensures
        b == record_size_defined(bytes_per_file_record),
{
    bytes_per_file_record < 0x8000_0000 || ((0xFFFF_FFFFu32 - bytes_per_file_record) as u64) + 1 < usize::BITS as u64
}

/// The record size in bytes for a volume's `bytes_per_file_record` field;
/// see `record_size_of`.
pub fn record_size(bytes_per_file_record: u32) -> (r: usize)
    requires
        record_size_defined(bytes_per_file_record),
    ensures
        r as int == record_size_of(bytes_per_file_record),
{
    if bytes_per_file_record < 0x8000_0000 {
        bytes_per_file_record as usize
    } else {
        let shift = (0xFFFF_FFFFu32 - bytes_per_file_record) + 1;
        1usize << (shift as usize)
    }
}

/// Every byte is zero.
pub open spec fn all_zero(rec: Seq<u8>) -> bool {
    forall|i: int| 0 <= i < rec.len() ==> rec[i] == 0
}

/// The catalog and the count of consecutive empty records after one raw
/// record numbered `rn`: an all-zero record, one without the FILE
/// signature, or one that fails fixup or parsing counts as empty; a parsed
/// record resets the count and, when it has a Win32 name, is upserted with
/// an empty path and a valid parent.
pub open spec fn ingest_record(cat: CatalogView, empty_run: nat, rec: Seq<u8>, rn: u64) -> (CatalogView, nat) {
    if all_zero(rec) || le32(rec, 0) != FILE_SIGNATURE {
        (cat, empty_run + 1)
    } else {
        match fixup_result(rec) {
            Err(_) => (cat, empty_run + 1),
            Ok(fixed) => match parse_outcome(fixed) {
                Err(_) => (cat, empty_run + 1),
                Ok(st) => if st.best_rank > 0 {
                    (
                        cat.upsert(
                            rn,
                            header_of(fixed).sequence_number,
                            st.best_parent,
                            st.best_parent_seq,
                            st.best_name,
                            Seq::empty(),
                            st.file_size,
                            st.timestamps,
                            true,
                            header_of(fixed).flags & 1 != 0,
                        ),
                        0,
                    )
                } else {
                    (cat, 0)
                },
            },
        }
    }
}

/// Number of records in `len` bytes of `rs`-byte records, a short last
/// record included.
pub open spec fn pieces(len: int, rs: int) -> nat
    decreases len,
{
    if len <= 0 || rs <= 0 {
        0
    } else if len <= rs {
        1
    } else {
        1 + pieces(len - rs, rs)
    }
}

/// The state after the records of `bytes` from offset `off` on, the first
/// of them numbered `rn`.
pub open spec fn ingest_from(cat: CatalogView, empty_run: nat, bytes: Seq<u8>, rs: int, rn: u64, off: int) -> (
    CatalogView,
    nat,
)
    decreases bytes.len() - off,
{
    if rs <= 0 || off < 0 || off >= bytes.len() {
        (cat, empty_run)
    } else {
        let end = if bytes.len() - off > rs {
            off + rs
        } else {
            bytes.len() as int
        };
        let next = ingest_record(cat, empty_run, bytes.subrange(off, end), rn);
        ingest_from(next.0, next.1, bytes, rs, (rn + 1) as u64, end)
    }
}

/// Every record of `bytes` from offset `off` on that is not all zero has at
/// least the four bytes of a signature.
pub open spec fn records_readable(bytes: Seq<u8>, rs: int, off: int) -> bool
    decreases bytes.len() - off,
{
    if rs <= 0 || off < 0 || off >= bytes.len() {
        true
    } else {
        let end = if bytes.len() - off > rs {
            off + rs
        } else {
            bytes.len() as int
        };
        (end - off >= 4 || all_zero(bytes.subrange(off, end))) && records_readable(bytes, rs, end)
    }
}

/// The decisions of a full scan, with the catalog built so far.
pub struct MftScan {
    catalog: Catalog,
    drive_letter: char,
    record_size: usize,
    next_record: u64,
    empty_run: u32,
    bulk_ok: bool,
    done: bool,
}

/// The abstract state of a scan.
pub struct ScanState {
    pub catalog: CatalogView,
    pub drive_letter: char,
    pub record_size: nat,
    pub next_record: nat,
    pub empty_run: nat,
    pub bulk_ok: bool,
    pub done: bool,
}

/// Records in the next chunk from record `next`.
pub open spec fn chunk_count(next: nat) -> nat {
    if MAX_RECORDS - next < CHUNK_RECORDS {
        (MAX_RECORDS - next) as nat
    } else {
        CHUNK_RECORDS as nat
    }
}

/// The state after a chunk of `bytes` was taken in at the current
/// position: its records are ingested, the position moves on by the chunk
/// size, and the scan is done once the empty run exceeds its limit past
/// the minimum number of records.
pub open spec fn after_chunk(s: ScanState, bytes: Seq<u8>, bulk_ok: bool) -> ScanState {
    let r = ingest_from(s.catalog, s.empty_run, bytes, s.record_size as int, s.next_record as u64, 0);
    let next = s.next_record + chunk_count(s.next_record);
    ScanState {
        catalog: r.0,
        drive_letter: s.drive_letter,
        record_size: s.record_size,
        next_record: next,
        empty_run: r.1,
        bulk_ok,
        done: r.1 > EMPTY_RUN_LIMIT && next > MIN_SCANNED,
    }
}

/// A chunk can be taken in: its records are readable, and neither the
/// empty-run counter nor the catalog outgrows its integer type.
pub open spec fn chunk_acceptable(s: ScanState, bytes: Seq<u8>) -> bool {
    &&& records_readable(bytes, s.record_size as int, 0)
    &&& s.empty_run + pieces(bytes.len() as int, s.record_size as int) <= u32::MAX
    &&& s.catalog.rows.len() + pieces(bytes.len() as int, s.record_size as int) < usize::MAX
    &&& s.next_record + pieces(bytes.len() as int, s.record_size as int) <= u64::MAX
}

/// A bulk read delivered at least the whole chunk.
pub open spec fn bulk_complete(s: ScanState, bytes: Seq<u8>) -> bool {
    bytes.len() >= chunk_count(s.next_record) * s.record_size
}

/// A bulk read result is taken in: it arrived and is complete.
pub open spec fn bulk_taken(s: ScanState, chunk: Option<&[u8]>) -> bool {
    match chunk {
        Some(c) => bulk_complete(s, c@),
        None => false,
    }
}

/// A complete bulk read result can be taken in.
pub open spec fn bulk_chunk_ok(s: ScanState, chunk: Option<&[u8]>) -> bool {
    match chunk {
        Some(c) => bulk_complete(s, c@) ==> chunk_acceptable(s, c@),
        None => true,
    }
}

/// The scan is complete.
pub open spec fn scan_done(s: ScanState) -> bool {
    s.done || s.next_record >= MAX_RECORDS
}

impl View for MftScan {
    type V = ScanState;

    closed spec fn view(&self) -> ScanState {
        ScanState {
            catalog: self.catalog@,
            drive_letter: self.drive_letter,
            record_size: self.record_size as nat,
            next_record: self.next_record as nat,
            empty_run: self.empty_run as nat,
            bulk_ok: self.bulk_ok,
            done: self.done,
        }
    }
}

impl MftScan {
    /// Internal consistency: a well-formed catalog, a usable record size and
    /// a position within the scanned range.
    pub closed spec fn wf(&self) -> bool {
        &&& self.catalog.wf()
        &&& 1 <= self.record_size <= MAX_RECORD_SIZE
        &&& self.next_record <= MAX_RECORDS
    }

    /// Starts a scan of `drive_letter` whose volume reports
    /// `bytes_per_file_record`; refused when the record size is zero or
    /// above 64 KiB.
    pub fn start(drive_letter: char, bytes_per_file_record: u32) -> (r: Result<MftScan, ScanError>)
        requires
            record_size_defined(bytes_per_file_record),
        ensures
            match r {
                Ok(s) => {
                    &&& 1 <= record_size_of(bytes_per_file_record) <= MAX_RECORD_SIZE
                    &&& s.wf()
                    &&& s@.catalog.rows.len() == 0
                    &&& s@.catalog.pool.len() == 0
                    &&& s@.catalog.drive_letter == drive_letter
                    &&& s@.drive_letter == drive_letter
                    &&& s@.record_size == record_size_of(bytes_per_file_record)
                    &&& s@.next_record == 0
                    &&& s@.empty_run == 0
                    &&& s@.bulk_ok
                    &&& !s@.done
                },
                Err(e) => e == ScanError::InvalidRecordSize(record_size_of(bytes_per_file_record) as usize)
                    && !(1 <= record_size_of(bytes_per_file_record) <= MAX_RECORD_SIZE),
            },
    {
        let rs = record_size(bytes_per_file_record);
        if rs == 0 || rs > MAX_RECORD_SIZE {
            return Err(ScanError::InvalidRecordSize(rs));
        }
        Ok(MftScan {
            catalog: Catalog::new(drive_letter),
            drive_letter,
            record_size: rs,
            next_record: 0,
            empty_run: 0,
            bulk_ok: true,
            done: false,
        })
    }

    /// The catalog built so far.
    pub fn catalog(&self) -> (c: &Catalog)
        requires
            self.wf(),
        ensures
            c.wf(),
            c@ == self@.catalog,
    {
        &self.catalog
    }

    /// What to read next: nothing when the scan is complete, otherwise the
    /// next chunk, in bulk until a bulk read has failed and one record at a
    /// time from then on.
    pub fn next_action(&self) -> (a: ScanAction)
        requires
            self.wf(),
        ensures
            a == if scan_done(self@) {
                ScanAction::Done
            } else if self@.bulk_ok {
                ScanAction::ReadBulk {
                    start: self@.next_record as u64,
                    count: chunk_count(self@.next_record) as u64,
                }
            } else {
                ScanAction::ReadEach {
                    start: self@.next_record as u64,
                    count: chunk_count(self@.next_record) as u64,
                }
            },
    {
        if self.done || self.next_record >= MAX_RECORDS {
            return ScanAction::Done;
        }
        let left = MAX_RECORDS - self.next_record;
        let count = if left < CHUNK_RECORDS {
            left
        } else {
            CHUNK_RECORDS
        };
        if self.bulk_ok {
            ScanAction::ReadBulk { start: self.next_record, count }
        } else {
            ScanAction::ReadEach { start: self.next_record, count }
        }
    }

    /// Whether the chunk `bytes` can be taken in (see `chunk_acceptable`).
    pub fn accepts_chunk(&self, bytes: &[u8]) -> (b: bool)
        requires
            self.wf(),
        ensures
            b == chunk_acceptable(self@, bytes@),
    {
        let rs = self.record_size;
        let len = bytes.len();
        let mut off: usize = 0;
        let mut n: usize = 0;
        let mut readable = true;
        while off < len
            invariant
                rs == self.record_size,
                1 <= rs,
                len == bytes@.len(),
                off <= len,
                n + pieces(len - off, rs as int) == pieces(len as int, rs as int),
                n + (len - off) <= len,
                records_readable(bytes@, rs as int, 0) == (readable && records_readable(
                    bytes@,
                    rs as int,
                    off as int,
                )),
            decreases len - off,
        {
            let end = if len - off > rs {
                off + rs
            } else {
                len
            };
            if end - off < 4 {
                let mut k = off;
                let mut zero = true;
                while k < end
                    invariant
                        off <= k <= end <= len,
                        len == bytes@.len(),
                        zero == (forall|i: int| off <= i < k ==> bytes@[i] == 0),
                    decreases end - k,
                {
                    if bytes[k] != 0 {
                        zero = false;
                    }
                    k = k + 1;
                }
                assert(zero == all_zero(bytes@.subrange(off as int, end as int))) by {
                    if zero {
                        assert forall|i: int| 0 <= i < end - off implies bytes@.subrange(off as int, end as int)[i] == 0 by {
                            assert(bytes@[off + i] == 0);
                        }
                    } else {
                        let i = choose|i: int| off <= i < end && bytes@[i] != 0;
                        assert(bytes@.subrange(off as int, end as int)[i - off] != 0);
                    }
                }
                if !zero {
                    readable = false;
                }
            }
            n = n + 1;
            off = end;
        }
        let bound = u32::MAX as usize;
        let er = self.empty_run as usize;
        let rows = self.catalog.len();
        let next = self.next_record;
        readable && n <= bound && er <= bound - n && rows < usize::MAX - n && (n as u64) <= u64::MAX - next
    }

    /// Takes in the records of `bytes`, the first numbered `rn`.
    fn ingest(&mut self, bytes: &[u8])
        requires
            old(self).wf(),
            !scan_done(old(self)@),
            records_readable(bytes@, old(self)@.record_size as int, 0),
            old(self)@.empty_run + pieces(bytes@.len() as int, old(self)@.record_size as int) <= u32::MAX,
            old(self)@.catalog.rows.len() + pieces(bytes@.len() as int, old(self)@.record_size as int)
                < usize::MAX,
            old(self)@.next_record + pieces(bytes@.len() as int, old(self)@.record_size as int) <= u64::MAX,
        ensures
            final(self).wf(),
            ({
                let r = ingest_from(
                    old(self)@.catalog,
                    old(self)@.empty_run,
                    bytes@,
                    old(self)@.record_size as int,
                    old(self)@.next_record as u64,
                    0,
                );
                &&& final(self)@.catalog == r.0
                &&& final(self)@.empty_run == r.1
            }),
            final(self)@.record_size == old(self)@.record_size,
            final(self)@.next_record == old(self)@.next_record,
            final(self)@.drive_letter == old(self)@.drive_letter,
            final(self)@.bulk_ok == old(self)@.bulk_ok,
            final(self)@.done == old(self)@.done,
    {
        let ghost goal = ingest_from(
            self@.catalog,
            self@.empty_run,
            bytes@,
            self.record_size as int,
            self.next_record,
            0,
        );
        let rs = self.record_size;
        let len = bytes.len();
        let mut off: usize = 0;
        let mut rn: u64 = self.next_record;
        while off < len
            invariant
                self.wf(),
                !scan_done(self@),
                rs == self.record_size,
                len == bytes@.len(),
                off <= len,
                rn as int + pieces(len - off, rs as int) <= u64::MAX,
                self.empty_run + pieces(len - off, rs as int) <= u32::MAX,
                self@.catalog.rows.len() + pieces(len - off, rs as int) < usize::MAX,
                records_readable(bytes@, rs as int, off as int),
                goal == ingest_from(self@.catalog, self@.empty_run, bytes@, rs as int, rn, off as int),
                self@.record_size == old(self)@.record_size,
                self@.next_record == old(self)@.next_record,
                self@.drive_letter == old(self)@.drive_letter,
                self@.bulk_ok == old(self)@.bulk_ok,
                self@.done == old(self)@.done,
            decreases len - off,
        {
            let end = if len - off > rs {
                off + rs
            } else {
                len
            };
            let rec = slice_subrange(bytes, off, end);
            let ghost cat0 = self@.catalog;
            let ghost er0 = self@.empty_run;
            let ghost step = ingest_record(cat0, er0, bytes@.subrange(off as int, end as int), rn);
            assert(ingest_from(cat0, er0, bytes@, rs as int, rn, off as int) == ingest_from(
                step.0,
                step.1,
                bytes@,
                rs as int,
                (rn + 1) as u64,
                end as int,
            ));
            let mut zero = true;
            let mut k: usize = 0;
            while k < rec.len()
                invariant
                    k <= rec@.len(),
                    zero == (forall|i: int| 0 <= i < k ==> rec@[i] == 0),
                decreases rec@.len() - k,
            {
                if rec[k] != 0 {
                    zero = false;
                }
                k = k + 1;
            }
            assert(rec@ == bytes@.subrange(off as int, end as int));
            assert(zero == all_zero(rec@));
            proof {
                reveal_strlit("");
            }
            if zero {
                self.empty_run = self.empty_run + 1;
            } else if read_u32(rec, 0) != FILE_SIGNATURE {
                self.empty_run = self.empty_run + 1;
            } else {
                let mut buf = slice_to_vec(rec);
                match read_and_parse_record(buf.as_mut_slice(), rn) {
                    Ok(parsed) => {
                        self.empty_run = 0;
                        match parsed.filename {
                            Some(name) => {
                                proof {
                                    lemma_last_slot(self@.catalog.rows, parsed.record_number);
                                }
                                self.catalog.upsert_entry(
                                    parsed.record_number,
                                    parsed.sequence_number,
                                    parsed.parent_record,
                                    parsed.parent_sequence,
                                    name.as_str(),
                                    "",
                                    parsed.file_size,
                                    parsed.timestamps,
                                    true,
                                    parsed.is_active,
                                );
                            },
                            None => {},
                        }
                    },
                    Err(_) => {
                        self.empty_run = self.empty_run + 1;
                    },
                }
            }
            assert(self@.catalog == step.0 && self@.empty_run == step.1);
            off = end;
            rn = rn + 1;
        }
    }

    /// Moves the position on by one chunk and decides whether to stop.
    fn advance(&mut self)
        requires
            old(self).wf(),
            !scan_done(old(self)@),
        ensures
            final(self).wf(),
            final(self)@.catalog == old(self)@.catalog,
            final(self)@.empty_run == old(self)@.empty_run,
            final(self)@.record_size == old(self)@.record_size,
            final(self)@.drive_letter == old(self)@.drive_letter,
            final(self)@.bulk_ok == old(self)@.bulk_ok,
            final(self)@.next_record == old(self)@.next_record + chunk_count(old(self)@.next_record),
            final(self)@.done == (old(self)@.empty_run > EMPTY_RUN_LIMIT && final(self)@.next_record
                > MIN_SCANNED),
    {
        let left = MAX_RECORDS - self.next_record;
        let count = if left < CHUNK_RECORDS {
            left
        } else {
            CHUNK_RECORDS
        };
        self.next_record = self.next_record + count;
        self.done = self.empty_run > EMPTY_RUN_LIMIT && self.next_record > MIN_SCANNED;
    }

    /// Reports the result of a bulk read of the current chunk. A chunk of
    /// at least the requested size is taken in and `true` returned;
    /// otherwise (a failed or short read) bulk reading is given up for the
    /// rest of the scan and `false` returned, and the chunk must be read
    /// record by record.
    pub fn bulk_result(&mut self, chunk: Option<&[u8]>) -> (taken: bool)
        requires
            old(self).wf(),
            !scan_done(old(self)@),
            old(self)@.bulk_ok,
            bulk_chunk_ok(old(self)@, chunk),
        ensures
            final(self).wf(),
            taken == bulk_taken(old(self)@, chunk),
            taken ==> final(self)@ == after_chunk(old(self)@, chunk->Some_0@, true),
            !taken ==> final(self)@ == (ScanState { bulk_ok: false, ..old(self)@ }),
    {
        let left = MAX_RECORDS - self.next_record;
        let count = if left < CHUNK_RECORDS {
            left
        } else {
            CHUNK_RECORDS
        };
        let rs = self.record_size;
        let c = count as usize;
        assert(c * rs <= 4096 * 65536) by (nonlinear_arith)
            requires
                c <= 4096,
                rs <= 65536,
        ;
        let wanted = c * rs;
        match chunk {
            Some(c) => {
                if c.len() >= wanted {
                    self.ingest(c);
                    self.advance();
                    return true;
                }
            },
            None => {},
        }
        self.bulk_ok = false;
        false
    }

    /// Reports the current chunk as read record by record (failed reads as
    /// zeros), and takes it in.
    pub fn records_result(&mut self, bytes: &[u8])
        requires
            old(self).wf(),
            !scan_done(old(self)@),
            chunk_acceptable(old(self)@, bytes@),
        ensures
            final(self).wf(),
            final(self)@ == after_chunk(old(self)@, bytes@, old(self)@.bulk_ok),
    {
        self.ingest(bytes);
        self.advance();
    }

    /// Ends the scan: rebuilds all paths and counts the records.
    pub fn finish(self) -> (v: VolumeInfo)
        requires
            self.wf(),
            paths_terminate(self@.catalog),
        ensures
            v.drive_letter == self@.drive_letter,
            v.catalog.wf(),
            v.catalog@ == reconstructed(self@.catalog),
            v.record_count == self@.catalog.rows.len(),
    {
        let mut catalog = self.catalog;
        reconstruct_paths(&mut catalog);
        let count = catalog.len() as u64;
        VolumeInfo { drive_letter: self.drive_letter, catalog, record_count: count }
    }
}

/// A scan always moves on: each chunk taken in advances the position by at
/// least one record and never past the last record, so a scan ends after
/// at most `MAX_RECORDS` chunks.
pub proof fn law_scan_progress(s: ScanState, bytes: Seq<u8>, bulk_ok: bool)
    requires
        !scan_done(s),
    ensures
        s.next_record < after_chunk(s, bytes, bulk_ok).next_record <= MAX_RECORDS,
{
}

/// The record of a chunk of `rs`-byte records that begins at byte `off`
/// (the last record may be short).
pub open spec fn record_at(bytes: Seq<u8>, rs: int, off: int) -> Seq<u8> {
    bytes.subrange(off, if bytes.len() - off > rs { off + rs } else { bytes.len() as int })
}

/// The raw record `rec` is a non-empty FILE record whose fixup and parse
/// succeed and which carries a Win32 (or Win32 and DOS) name.
pub open spec fn parses_with_name(rec: Seq<u8>) -> bool {
    &&& !all_zero(rec)
    &&& le32(rec, 0) == FILE_SIGNATURE
    &&& fixup_result(rec) is Ok
    &&& parse_outcome(fixup_result(rec)->Ok_0) is Ok
    &&& parse_outcome(fixup_result(rec)->Ok_0)->Ok_0.best_rank > 0
}

/// `row` is the catalog row of the raw record `rec`, numbered `rn`: its
/// record number, the sequence number of the fixed-up header (offset 16),
/// as in-use flag bit 0 of that header's flags (offset 22), the parsed
/// parent reference, size and timestamps, and a parent taken as valid
/// until paths are rebuilt.
pub open spec fn row_of_record(row: CatalogRow, rec: Seq<u8>, rn: u64) -> bool {
    let fixed = fixup_result(rec)->Ok_0;
    let st = parse_outcome(fixed)->Ok_0;
    &&& row.record_number == rn
    &&& row.sequence_number == le16(fixed, 16)
    &&& row.is_active == (le16(fixed, 22) % 2 == 1)
    &&& row.parent_record == st.best_parent
    &&& row.parent_sequence == st.best_parent_seq
    &&& row.file_size == st.file_size
    &&& row.timestamps == st.timestamps
    &&& row.parent_valid
}

/// A raw record that is not a named FILE record, or any record for
/// another record number, leaves the lookup and row of record `q` as
/// they were.
proof fn lemma_ingest_record_keeps(cat: CatalogView, empty_run: nat, rec: Seq<u8>, rn: u64, q: u64)
    requires
        q != rn,
    ensures
        ingest_record(cat, empty_run, rec, rn).0.slot_of(q) == cat.slot_of(q),
        cat.slot_of(q) >= 0 ==> ingest_record(cat, empty_run, rec, rn).0.rows[cat.slot_of(q)]
            == cat.rows[cat.slot_of(q)],
{
    if !(all_zero(rec) || le32(rec, 0) != FILE_SIGNATURE) {
        match fixup_result(rec) {
            Err(_) => {},
            Ok(fixed) => match parse_outcome(fixed) {
                Err(_) => {},
                Ok(st) => if st.best_rank > 0 {
                    law_upsert_preserves_others(
                        cat,
                        rn,
                        header_of(fixed).sequence_number,
                        st.best_parent,
                        st.best_parent_seq,
                        st.best_name,
                        Seq::empty(),
                        st.file_size,
                        st.timestamps,
                        true,
                        header_of(fixed).flags & 1 != 0,
                        q,
                    );
                },
            },
        }
    }
}

/// Taking in a named FILE record numbered `rn` resets the empty run and
/// leaves the catalog holding, as the row of `rn`, exactly that record's
/// row (see `row_of_record`), with its name readable when the name holds
/// no NUL and the pool keeps 32-bit ids; every other record's lookup and
/// row stay as they were.
pub proof fn law_ingest_named_record(cat: CatalogView, empty_run: nat, rec: Seq<u8>, rn: u64)
    requires
        parses_with_name(rec),
    ensures
        ({
            let out = ingest_record(cat, empty_run, rec, rn);
            let st = parse_outcome(fixup_result(rec)->Ok_0)->Ok_0;
            let i = out.0.slot_of(rn);
            &&& out.1 == 0
            &&& 0 <= i < out.0.rows.len()
            &&& row_of_record(out.0.rows[i], rec, rn)
            &&& !st.best_name.contains('\0') && cat.pool.len() + vstd::utf8::encode_utf8(st.best_name).len() + 2
                <= u32::MAX ==> out.0.filename_at(i) == st.best_name
            &&& forall|q: u64|
                q != rn ==> #[trigger] out.0.slot_of(q) == cat.slot_of(q) && (cat.slot_of(q) >= 0
                    ==> out.0.rows[cat.slot_of(q)] == cat.rows[cat.slot_of(q)])
        }),
{
    let fixed = fixup_result(rec)->Ok_0;
    let st = parse_outcome(fixed)->Ok_0;
    let flags = le16(fixed, 22);
    assert((flags & 1 != 0) == (flags % 2 == 1)) by (bit_vector);
    let out = ingest_record(cat, empty_run, rec, rn);
    lemma_last_slot(cat.rows, rn);
    let n = cat.rows.len() as int;
    let row = out.0.rows[if cat.slot_of(rn) >= 0 { cat.slot_of(rn) } else { n }];
    if cat.slot_of(rn) >= 0 {
        lemma_last_slot_update(cat.rows, cat.slot_of(rn), row, rn);
    } else {
        lemma_last_slot_push(cat.rows, row, rn);
    }
    if !st.best_name.contains('\0') && cat.pool.len() + vstd::utf8::encode_utf8(st.best_name).len() + 2 <= u32::MAX {
        assert(vstd::utf8::encode_utf8(Seq::<char>::empty()) =~= Seq::<u8>::empty()) by {
            reveal_with_fuel(vstd::utf8::encode_utf8, 2);
        }
        law_upsert_read_back(
            cat,
            rn,
            header_of(fixed).sequence_number,
            st.best_parent,
            st.best_parent_seq,
            st.best_name,
            Seq::empty(),
            st.file_size,
            st.timestamps,
            true,
            header_of(fixed).flags & 1 != 0,
        );
    }
    assert forall|q: u64| q != rn implies #[trigger] out.0.slot_of(q) == cat.slot_of(q) && (cat.slot_of(q) >= 0
        ==> out.0.rows[cat.slot_of(q)] == cat.rows[cat.slot_of(q)]) by {
        lemma_ingest_record_keeps(cat, empty_run, rec, rn, q);
    }
}

/// The records of a chunk from byte `off` on, numbered from `rn`, leave
/// the lookup and row of an earlier record number as they were.
proof fn lemma_ingest_from_keeps(
    cat: CatalogView,
    empty_run: nat,
    bytes: Seq<u8>,
    rs: int,
    rn: u64,
    off: int,
    q: u64,
)
    requires
        rs >= 1,
        0 <= off,
        q < rn,
        rn + pieces(bytes.len() - off, rs) <= u64::MAX,
    ensures
        ingest_from(cat, empty_run, bytes, rs, rn, off).0.slot_of(q) == cat.slot_of(q),
        cat.slot_of(q) >= 0 ==> ingest_from(cat, empty_run, bytes, rs, rn, off).0.rows[cat.slot_of(q)]
            == cat.rows[cat.slot_of(q)],
    decreases bytes.len() - off,
{
    if off < bytes.len() {
        let end = if bytes.len() - off > rs {
            off + rs
        } else {
            bytes.len() as int
        };
        let next = ingest_record(cat, empty_run, bytes.subrange(off, end), rn);
        lemma_ingest_record_keeps(cat, empty_run, bytes.subrange(off, end), rn, q);
        lemma_ingest_from_keeps(next.0, next.1, bytes, rs, (rn + 1) as u64, end, q);
    }
}

/// In a chunk read from byte `off` on, with records numbered from `rn`,
/// the named FILE record that begins `k` records further on becomes the
/// catalog row of record `rn + k`, whatever the records around it hold.
proof fn lemma_ingest_from_record(
    cat: CatalogView,
    empty_run: nat,
    bytes: Seq<u8>,
    rs: int,
    rn: u64,
    off: int,
    k: int,
)
    requires
        rs >= 1,
        0 <= off,
        0 <= k,
        off + k * rs < bytes.len(),
        rn + pieces(bytes.len() - off, rs) <= u64::MAX,
        parses_with_name(record_at(bytes, rs, off + k * rs)),
    ensures
        ({
            let out = ingest_from(cat, empty_run, bytes, rs, rn, off).0;
            let i = out.slot_of((rn + k) as u64);
            &&& 0 <= i < out.rows.len()
            &&& row_of_record(out.rows[i], record_at(bytes, rs, off + k * rs), (rn + k) as u64)
        }),
    decreases k,
{
    let end = if bytes.len() - off > rs {
        off + rs
    } else {
        bytes.len() as int
    };
    let next = ingest_record(cat, empty_run, bytes.subrange(off, end), rn);
    assert(ingest_from(cat, empty_run, bytes, rs, rn, off) == ingest_from(
        next.0,
        next.1,
        bytes,
        rs,
        (rn + 1) as u64,
        end,
    ));
    assert(pieces(bytes.len() - off, rs) == 1 + pieces(bytes.len() - end, rs));
    if k == 0 {
        assert(k * rs == 0) by (nonlinear_arith)
            requires
                k == 0,
        ;
        assert(record_at(bytes, rs, off + k * rs) == bytes.subrange(off, end));
        law_ingest_named_record(cat, empty_run, bytes.subrange(off, end), rn);
        lemma_ingest_from_keeps(next.0, next.1, bytes, rs, (rn + 1) as u64, end, rn);
        assert((rn + k) as u64 == rn);
        lemma_last_slot(ingest_from(cat, empty_run, bytes, rs, rn, off).0.rows, rn);
    } else {
        assert(off + k * rs == end + (k - 1) * rs && end == off + rs) by (nonlinear_arith)
            requires
                k >= 1,
                rs >= 1,
                off + k * rs < bytes.len(),
                end == if bytes.len() - off > rs { off + rs } else { bytes.len() as int },
        ;
        lemma_ingest_from_record(next.0, next.1, bytes, rs, (rn + 1) as u64, end, k - 1);
        assert(end + (k - 1) * rs == off + k * rs);
    }
}

/// After a chunk is taken in, every named FILE record of the chunk (the
/// `k`-th record, numbered from the scan position) is the catalog row of
/// its record number, with the in-use flag of its header: a record not in
/// use (a deleted file) is stored inactive, so `active_entries` leaves it
/// out.
pub proof fn law_scan_rows_follow_records(s: ScanState, bytes: Seq<u8>, bulk_ok: bool, k: int)
    requires
        s.record_size >= 1,
        0 <= k,
        k * s.record_size < bytes.len(),
        s.next_record + pieces(bytes.len() as int, s.record_size as int) <= u64::MAX,
        parses_with_name(record_at(bytes, s.record_size as int, k * s.record_size)),
    ensures
        ({
            let c = after_chunk(s, bytes, bulk_ok).catalog;
            let i = c.slot_of((s.next_record + k) as u64);
            &&& 0 <= i < c.rows.len()
            &&& row_of_record(
                c.rows[i],
                record_at(bytes, s.record_size as int, k * s.record_size),
                (s.next_record + k) as u64,
            )
            &&& c.rows[i].is_active == (le16(
                fixup_result(record_at(bytes, s.record_size as int, k * s.record_size))->Ok_0,
                22,
            ) % 2 == 1)
        }),
{
    lemma_ingest_from_record(
        s.catalog,
        s.empty_run,
        bytes,
        s.record_size as int,
        s.next_record as u64,
        0,
        k,
    );
}

} // verus!
