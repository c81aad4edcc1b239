//! Parsing of NTFS Master File Table FILE records.
use vstd::bytes::*;
use vstd::prelude::*;
use vstd::slice::slice_subrange;

use crate::text::{string_from_utf16_lossy, utf16_decoded};

verus! {

pub const MFT_RECORD_SIZE: usize = 1024;
/// "FILE" in little-endian.
pub const FILE_SIGNATURE: u32 = 0x454C_4946;
pub const ATTR_STANDARD_INFORMATION: u32 = 0x10;
pub const ATTR_FILE_NAME: u32 = 0x30;
pub const ATTR_DATA: u32 = 0x80;
pub const ATTR_END: u32 = 0xFFFF_FFFF;
/// Root directory MFT record number.
pub const ROOT_RECORD: u64 = 5;
/// Size of the fixed FILE record header.
pub const HEADER_BYTES: usize = 46;

/// Little-endian `u16` at byte offset `o`.
pub open spec fn le16(b: Seq<u8>, o: int) -> u16 {
    spec_u16_from_le_bytes(b.subrange(o, o + 2))
}

/// Little-endian `u32` at byte offset `o`.
pub open spec fn le32(b: Seq<u8>, o: int) -> u32 {
    spec_u32_from_le_bytes(b.subrange(o, o + 4))
}

/// Little-endian `u64` at byte offset `o`.
pub open spec fn le64(b: Seq<u8>, o: int) -> u64 {
    spec_u64_from_le_bytes(b.subrange(o, o + 8))
}

pub fn read_u16(b: &[u8], o: usize) -> (v: u16)
    requires
        o + 2 <= b@.len(),
    ensures
        v == le16(b@, o as int),
{
    let _n = b.len();
    u16_from_le_bytes(slice_subrange(b, o, o + 2))
}

pub fn read_u32(b: &[u8], o: usize) -> (v: u32)
    requires
        o + 4 <= b@.len(),
    ensures
        v == le32(b@, o as int),
{
    let _n = b.len();
    u32_from_le_bytes(slice_subrange(b, o, o + 4))
}

pub fn read_u64(b: &[u8], o: usize) -> (v: u64)
    requires
        o + 8 <= b@.len(),
    ensures
        v == le64(b@, o as int),
{
    let _n = b.len();
    u64_from_le_bytes(slice_subrange(b, o, o + 8))
}

/// The fixed header at the start of an MFT FILE record (packed,
/// little-endian).
#[derive(Debug, Clone, Copy)]
pub struct MftRecordHeader {
    pub magic: u32,
    pub usa_offset: u16,
    pub usa_count: u16,
    pub lsn: u64,
    pub sequence_number: u16,
    pub link_count: u16,
    pub attrs_offset: u16,
    pub flags: u16,
    pub used_size: u32,
    pub allocated_size: u32,
    pub base_record: u64,
    pub next_attr_id: u16,
    pub record_number: u16,
    pub update_seq_num: u16,
}

/// The header that the first `HEADER_BYTES` bytes of `b` encode.
pub open spec fn header_of(b: Seq<u8>) -> MftRecordHeader {
    MftRecordHeader {
        magic: le32(b, 0),
        usa_offset: le16(b, 4),
        usa_count: le16(b, 6),
        lsn: le64(b, 8),
        sequence_number: le16(b, 16),
        link_count: le16(b, 18),
        attrs_offset: le16(b, 20),
        flags: le16(b, 22),
        used_size: le32(b, 24),
        allocated_size: le32(b, 28),
        base_record: le64(b, 32),
        next_attr_id: le16(b, 40),
        record_number: le16(b, 42),
        update_seq_num: le16(b, 44),
    }
}

impl MftRecordHeader {
    /// Decodes the header from the first `HEADER_BYTES` bytes of `b`.
    pub fn decode(b: &[u8]) -> (h: MftRecordHeader)
        requires
            b@.len() >= HEADER_BYTES,
        ensures
            h == header_of(b@),
    {
        MftRecordHeader {
            magic: read_u32(b, 0),
            usa_offset: read_u16(b, 4),
            usa_count: read_u16(b, 6),
            lsn: read_u64(b, 8),
            sequence_number: read_u16(b, 16),
            link_count: read_u16(b, 18),
            attrs_offset: read_u16(b, 20),
            flags: read_u16(b, 22),
            used_size: read_u32(b, 24),
            allocated_size: read_u32(b, 28),
            base_record: read_u64(b, 32),
            next_attr_id: read_u16(b, 40),
            record_number: read_u16(b, 42),
            update_seq_num: read_u16(b, 44),
        }
    }
}

/// Why an MFT record was rejected.
#[derive(Debug, Clone, Copy, PartialEq, Eq, Structural)]
pub enum MftError {
    /// The record is shorter than `MFT_RECORD_SIZE`, so it cannot be fixed up.
    FixupRecordTooSmall,
    /// The record does not start with the FILE signature (found value given).
    InvalidSignature(u32),
    /// The update sequence array has fewer than two entries.
    InvalidUsaCount(u16),
    /// The update sequence array reaches past the end of the record.
    FixupOutOfBounds,
    /// The record is too short to hold a FILE header.
    RecordTooSmall,
    /// The record does not start with the FILE signature.
    NotFileRecord,
    /// A resident standard-information attribute's header is cut short by
    /// the end of the record.
    AttributeHeaderTruncated,
}

/// Position of the saved trailer bytes for sector `i` (1-based): the
/// update sequence array holds the update sequence number, then a reserved
/// slot, then one slot per sector.
pub open spec fn saved_slot(usa_offset: int, i: int) -> int {
    usa_offset + (i + 1) * 2
}

/// Every sector in `1..n` has its saved slot and its trailer inside the
/// record, so the restoration has not stopped before sector `n`.
pub open spec fn fixup_reached(rec: Seq<u8>, usa_offset: int, n: int) -> bool
    decreases n,
{
    if n <= 1 {
        true
    } else {
        fixup_reached(rec, usa_offset, n - 1) && saved_slot(usa_offset, n - 1) + 2 <= rec.len()
            && (n - 1) * 512 <= rec.len()
    }
}

/// The record after restoring the trailers of sectors `1..n` in order;
/// the first sector whose saved slot lies past the record stops the
/// restoration.
pub open spec fn fixup_through(rec: Seq<u8>, usa_offset: int, n: int) -> Seq<u8>
    decreases n,
{
    if n <= 1 {
        rec
    } else {
        let prev = fixup_through(rec, usa_offset, n - 1);
        let i = n - 1;
        let fo = saved_slot(usa_offset, i);
        let se = i * 512 - 2;
        if fixup_reached(rec, usa_offset, n) {
            prev.update(se, prev[fo]).update(se + 1, prev[fo + 1])
        } else {
            prev
        }
    }
}

/// Number of sectors whose trailers the fixup visits.
pub open spec fn fixup_sector_limit(rec: Seq<u8>, usa_count: int) -> int {
    let sectors: int = rec.len() as int / 512;
    if usa_count < sectors + 1 {
        usa_count
    } else {
        sectors + 1
    }
}

/// What `apply_fixup` does to a record: the error it reports, or the
/// record with the sector trailers restored.
pub open spec fn fixup_result(rec: Seq<u8>) -> Result<Seq<u8>, MftError> {
    let h = header_of(rec);
    if rec.len() < MFT_RECORD_SIZE {
        Err(MftError::FixupRecordTooSmall)
    } else if h.magic != FILE_SIGNATURE {
        Err(MftError::InvalidSignature(h.magic))
    } else if h.usa_count < 2 {
        Err(MftError::InvalidUsaCount(h.usa_count))
    } else if h.usa_offset + h.usa_count * 2 > rec.len() {
        Err(MftError::FixupOutOfBounds)
    } else {
        Ok(fixup_through(rec, h.usa_offset as int, fixup_sector_limit(rec, h.usa_count as int)))
    }
}

/// Apply the NTFS fixup array to restore the last two bytes of each
/// 512-byte sector of an MFT record. On error the record is unchanged.
pub fn apply_fixup(record: &mut [u8]) -> (r: Result<(), MftError>)
    ensures
        match fixup_result(old(record)@) {
            Ok(fixed) => r is Ok && final(record)@ == fixed,
            Err(e) => r == Err::<(), MftError>(e) && final(record)@ == old(record)@,
        },
{
    let len = record.len();
    if len < MFT_RECORD_SIZE {
        return Err(MftError::FixupRecordTooSmall);
    }
    let header = MftRecordHeader::decode(record);
    let magic = header.magic;
    if magic != FILE_SIGNATURE {
        return Err(MftError::InvalidSignature(magic));
    }
    let usa_offset = header.usa_offset as usize;
    let usa_count = header.usa_count as usize;
    if usa_count < 2 {
        return Err(MftError::InvalidUsaCount(header.usa_count));
    }
    if usa_offset + usa_count * 2 > len {
        return Err(MftError::FixupOutOfBounds);
    }
    let ghost rec0 = record@;
    let sectors = len / 512;
    let limit = if usa_count < sectors + 1 { usa_count } else { sectors + 1 };
    let mut i: usize = 1;
    while i < limit
        invariant
            1 <= i <= limit,
            limit == fixup_sector_limit(rec0, usa_count as int),
            limit <= sectors + 1,
            sectors == len / 512,
            len == rec0.len(),
            record@.len() == len,
            usa_offset + usa_count * 2 <= len,
            usa_offset == header_of(rec0).usa_offset,
            fixup_reached(rec0, usa_offset as int, i as int),
            record@ == fixup_through(rec0, usa_offset as int, i as int),
        ensures
            record@ == fixup_through(rec0, usa_offset as int, limit as int),
        decreases limit - i,
    {
        let fixup_offset = usa_offset + (i + 1) * 2;
        if fixup_offset + 2 > len {
            proof {
                lemma_fixup_stops(rec0, usa_offset as int, i as int + 1, limit as int);
            }
            break;
        }
        assert(i * 512 <= len) by (nonlinear_arith)
            requires
                i <= sectors,
                sectors == len / 512,
        ;
        let sector_end = i * 512 - 2;
        let lo = record[fixup_offset];
        let hi = record[fixup_offset + 1];
        record[sector_end] = lo;
        record[sector_end + 1] = hi;
        i = i + 1;
    }
    Ok(())
}

/// Once a sector's saved slot lies past the record, no later sector is
/// restored.
proof fn lemma_fixup_stops(rec: Seq<u8>, usa_offset: int, stop: int, n: int)
    requires
        2 <= stop <= n,
        !fixup_reached(rec, usa_offset, stop),
    ensures
        fixup_through(rec, usa_offset, n) == fixup_through(rec, usa_offset, stop - 1),
    decreases n - stop,
{
    if n > stop {
        lemma_fixup_stops(rec, usa_offset, stop, n - 1);
        lemma_unreached_stays(rec, usa_offset, stop, n);
    }
}

proof fn lemma_unreached_stays(rec: Seq<u8>, usa_offset: int, stop: int, n: int)
    requires
        2 <= stop <= n,
        !fixup_reached(rec, usa_offset, stop),
    ensures
        !fixup_reached(rec, usa_offset, n),
    decreases n - stop,
{
    if n > stop {
        lemma_unreached_stays(rec, usa_offset, stop, n - 1);
    }
}

/// The four NTFS timestamps (FILETIME values) of a file.
#[derive(Debug, Clone, Copy, PartialEq, Eq, Structural)]
pub struct FileTimestamps {
    pub created: u64,
    pub modified: u64,
    pub mft_modified: u64,
    pub accessed: u64,
}

impl FileTimestamps {
    /// All four timestamps zero.
    pub open spec fn zero() -> FileTimestamps {
        FileTimestamps { created: 0, modified: 0, mft_modified: 0, accessed: 0 }
    }
}

impl Default for FileTimestamps {
    fn default() -> (r: FileTimestamps)
        ensures
            r == FileTimestamps::zero(),
    {
        FileTimestamps { created: 0, modified: 0, mft_modified: 0, accessed: 0 }
    }
}

} // verus!

verus! {

/// Splits an MFT file reference into its record number (low 36 bits, as
/// the catalog masks it) and its sequence number (top 16 bits).
pub fn decode_parent_reference(parent_ref: u64) -> (r: (u64, u16))
    ensures
        r.0 == parent_ref & 0x000F_FFFF_FFFF,
        r.1 == ((parent_ref >> 48) & 0xFFFF) as u16,
        r.0 == reference_record(parent_ref),
        r.1 == reference_sequence(parent_ref),
{
    proof {
        lemma_reference_split(parent_ref);
    }
    let record = parent_ref & 0x000F_FFFF_FFFF;
    let sequence = ((parent_ref >> 48) & 0xFFFF) as u16;
    (record, sequence)
}

/// Index of the first zero code unit among units `i..count` at `off`, or `count`.
pub open spec fn first_zero_unit(data: Seq<u8>, off: int, i: int, count: int) -> int
    decreases count - i,
{
    if i >= count {
        count
    } else if le16(data, off + 2 * i) == 0 {
        i
    } else {
        first_zero_unit(data, off, i + 1, count)
    }
}

/// The UTF-16 code units of a name of `count` units at `off`, cut at the
/// first zero unit.
pub open spec fn name_units(data: Seq<u8>, off: int, count: int) -> Seq<u16> {
    Seq::new(
        (if first_zero_unit(data, off, 0, count) < 0 { 0 } else { first_zero_unit(data, off, 0, count) }) as nat,
        |j: int| le16(data, off + 2 * j),
    )
}

proof fn lemma_first_zero_unit(data: Seq<u8>, off: int, i: int, count: int)
    requires
        0 <= i <= count,
    ensures
        i <= first_zero_unit(data, off, i, count) <= count,
    decreases count - i,
{
    if i < count && le16(data, off + 2 * i) != 0 {
        lemma_first_zero_unit(data, off, i + 1, count);
    }
}

/// Reads a UTF-16LE name of `char_count` units at `offset`, stopping at the
/// first zero unit; `None` when the units reach past the end of `data`.
pub fn read_utf16le(data: &[u8], offset: usize, char_count: usize) -> (r: Option<String>)
    ensures
        match r {
            None => offset + 2 * char_count > data@.len(),
            Some(s) => offset + 2 * char_count <= data@.len() && s@ == utf16_decoded(
                name_units(data@, offset as int, char_count as int),
            ),
        },
{
    let len = data.len();
    if offset > len || char_count > (len - offset) / 2 {
        return None;
    }
    let mut units: Vec<u16> = Vec::new();
    let mut i: usize = 0;
    while i < char_count
        invariant
            0 <= i <= char_count,
            offset + 2 * char_count <= len,
            len == data@.len(),
            first_zero_unit(data@, offset as int, 0, char_count as int) == first_zero_unit(
                data@,
                offset as int,
                i as int,
                char_count as int,
            ),
            units@ == Seq::new(i as nat, |j: int| le16(data@, offset + 2 * j)),
        ensures
            units@ == name_units(data@, offset as int, char_count as int),
        decreases char_count - i,
    {
        let pos = offset + i * 2;
        let unit = read_u16(data, pos);
        if unit == 0 {
            assert(first_zero_unit(data@, offset as int, i as int, char_count as int) == i);
            assert(first_zero_unit(data@, offset as int, 0, char_count as int) == i);
            assert(name_units(data@, offset as int, char_count as int).len() == i);
            assert forall|j: int| 0 <= j < i implies units@[j] == name_units(data@, offset as int, char_count as int)[j] by {}
            assert(units@ =~= name_units(data@, offset as int, char_count as int));
            break;
        }
        units.push(unit);
        i = i + 1;
        assert(units@ =~= Seq::new(i as nat, |j: int| le16(data@, offset + 2 * j)));
        if i == char_count {
            assert(first_zero_unit(data@, offset as int, i as int, char_count as int) == char_count);
            assert(name_units(data@, offset as int, char_count as int).len() == i);
            assert(units@ =~= name_units(data@, offset as int, char_count as int));
        }
    }
    if char_count == 0 {
        assert(units@ =~= name_units(data@, offset as int, char_count as int));
    }
    Some(string_from_utf16_lossy(units.as_slice()))
}

/// The information gathered while walking a record's attributes.
pub struct AttrScan {
    pub file_size: u64,
    pub timestamps: FileTimestamps,
    /// 2 for a Win32 name, 1 for a Win32+DOS name, 0 when none was found.
    pub best_rank: u8,
    pub best_name: Seq<char>,
    pub best_parent: u64,
    pub best_parent_seq: u16,
}

/// What one resident attribute at offset `o` contributes to the scan.
pub open spec fn attr_step(r: Seq<u8>, o: int, st: AttrScan) -> AttrScan {
    let t = le32(r, o);
    let non_resident = r[o + 8];
    if t == ATTR_STANDARD_INFORMATION && non_resident == 0 {
        let cs = o + le16(r, o + 20);
        if cs + 32 <= r.len() {
            AttrScan {
                timestamps: FileTimestamps {
                    created: le64(r, cs),
                    modified: le64(r, cs + 8),
                    mft_modified: le64(r, cs + 16),
                    accessed: le64(r, cs + 24),
                },
                ..st
            }
        } else {
            st
        }
    } else if t == ATTR_DATA && non_resident == 0 && st.file_size == 0 {
        if o + 24 <= r.len() && le32(r, o + 16) >= 8 && o + 32 <= r.len() {
            AttrScan { file_size: le64(r, o + 24), ..st }
        } else {
            st
        }
    } else if t == ATTR_FILE_NAME && non_resident == 0 && o + 66 <= r.len() {
        let cs = o + le16(r, o + 20);
        let pref = le64(r, cs);
        let name_length = r[cs + 64] as int;
        let namespace = r[cs + 65];
        let rank: u8 = if namespace == 1 { 2 } else { 1 };
        if cs + 66 <= r.len() && (namespace == 1 || namespace == 3) && cs + 66 + 2 * name_length
            <= r.len() && rank > st.best_rank {
            AttrScan {
                best_rank: rank,
                best_name: utf16_decoded(name_units(r, cs + 66, name_length)),
                best_parent: pref & 0x000F_FFFF_FFFF,
                best_parent_seq: ((pref >> 48) & 0xFFFF) as u16,
                ..st
            }
        } else {
            st
        }
    } else {
        st
    }
}

/// Walks the attributes from offset `o` to the end marker or to the first
/// malformed attribute. `None` when a resident standard-information
/// attribute's header is cut short by the end of the record.
pub open spec fn scan_attrs(r: Seq<u8>, o: int, st: AttrScan) -> Option<AttrScan>
    decreases r.len() - o,
{
    if o < 0 || o + 4 > r.len() {
        Some(st)
    } else if le32(r, o) == ATTR_END || le32(r, o) == 0 || o + 16 > r.len() {
        Some(st)
    } else {
        let alen = le32(r, o + 4) as int;
        if alen < 16 || o + alen > r.len() {
            Some(st)
        } else if le32(r, o) == ATTR_STANDARD_INFORMATION && r[o + 8] == 0 && o + 22 > r.len() {
            None
        } else {
            scan_attrs(r, o + alen, attr_step(r, o, st))
        }
    }
}

/// The scan state before any attribute has been seen.
pub open spec fn scan_start() -> AttrScan {
    AttrScan {
        file_size: 0,
        timestamps: FileTimestamps::zero(),
        best_rank: 0,
        best_name: Seq::empty(),
        best_parent: 0,
        best_parent_seq: 0,
    }
}

/// What parsing a (fixed-up) FILE record yields: the error, or the final
/// attribute scan.
pub open spec fn parse_outcome(r: Seq<u8>) -> Result<AttrScan, MftError> {
    if r.len() < 48 {
        Err(MftError::RecordTooSmall)
    } else if header_of(r).magic != FILE_SIGNATURE {
        Err(MftError::NotFileRecord)
    } else {
        match scan_attrs(r, header_of(r).attrs_offset as int, scan_start()) {
            Some(st) => Ok(st),
            None => Err(MftError::AttributeHeaderTruncated),
        }
    }
}

/// A parsed MFT FILE record.
#[derive(Debug, Clone)]
pub struct ParsedFileRecord {
    pub record_number: u64,
    pub sequence_number: u16,
    pub is_active: bool,
    pub file_size: u64,
    pub timestamps: FileTimestamps,
    /// From $FILE_NAME namespace 1 (Win32) or 3 (Win32+DOS).
    pub filename: Option<String>,
    pub parent_record: u64,
    pub parent_sequence: u16,
    pub namespace: u8,
}

impl ParsedFileRecord {
    /// This is what the scan `st` of record bytes `r`, numbered `rn`, yields.
    pub open spec fn from_scan(self, r: Seq<u8>, rn: u64, st: AttrScan) -> bool {
        &&& self.record_number == rn
        &&& self.sequence_number == header_of(r).sequence_number
        &&& self.is_active == (header_of(r).flags & 1 != 0)
        &&& self.file_size == st.file_size
        &&& self.timestamps == st.timestamps
        &&& if st.best_rank > 0 {
            &&& self.filename is Some
            &&& self.filename->0@ == st.best_name
            &&& self.parent_record == st.best_parent
            &&& self.parent_sequence == st.best_parent_seq
            &&& self.namespace == 1
        } else {
            &&& self.filename is None
            &&& self.parent_record == 0
            &&& self.parent_sequence == 0
            &&& self.namespace == 0
        }
    }
}

/// Parse a fixup-restored MFT FILE record.
pub fn parse_file_record(record: &[u8], record_number: u64) -> (res: Result<ParsedFileRecord, MftError>)
    ensures
        match parse_outcome(record@) {
            Ok(st) => res is Ok && res->Ok_0.from_scan(record@, record_number, st),
            Err(e) => res is Err && res->Err_0 == e,
        },
{
    let len = record.len();
    if len < 48 {
        return Err(MftError::RecordTooSmall);
    }
    let header = MftRecordHeader::decode(record);
    if header.magic != FILE_SIGNATURE {
        return Err(MftError::NotFileRecord);
    }
    let is_active = header.flags & 0x0001 != 0;
    let attrs_offset = header.attrs_offset as usize;
    let mut file_size: u64 = 0;
    let mut timestamps = FileTimestamps { created: 0, modified: 0, mft_modified: 0, accessed: 0 };
    let mut best_rank: u8 = 0;
    let mut best_name = String::new();
    let mut best_parent: u64 = 0;
    let mut best_parent_seq: u16 = 0;
    let ghost r = record@;
    let ghost goal = scan_attrs(r, attrs_offset as int, scan_start());

    let mut offset = attrs_offset;
    let mut truncated = false;
    loop
        invariant_except_break
            !truncated,
            goal == scan_attrs(
                r,
                offset as int,
                AttrScan {
                    file_size,
                    timestamps,
                    best_rank,
                    best_name: best_name@,
                    best_parent,
                    best_parent_seq,
                },
            ),
        invariant
            len == r.len(),
            r == record@,
            goal == scan_attrs(r, attrs_offset as int, scan_start()),
        ensures
            !truncated ==> goal == Some(
                AttrScan {
                    file_size,
                    timestamps,
                    best_rank,
                    best_name: best_name@,
                    best_parent,
                    best_parent_seq,
                },
            ),
            truncated ==> goal is None,
        decreases len - offset,
    {
        if offset >= len || len - offset < 4 {
            break;
        }
        let attr_type = read_u32(record, offset);
        if attr_type == ATTR_END || attr_type == 0 || len - offset < 16 {
            break;
        }
        let attr_len = read_u32(record, offset + 4) as usize;
        if attr_len < 16 || attr_len > len - offset {
            break;
        }
        let non_resident = record[offset + 8];
        let ghost st0 = AttrScan {
            file_size,
            timestamps,
            best_rank,
            best_name: best_name@,
            best_parent,
            best_parent_seq,
        };
        if attr_type == ATTR_STANDARD_INFORMATION && non_resident == 0 {
            if len - offset < 22 {
                truncated = true;
                break;
            }
            let content_offset = read_u16(record, offset + 20) as usize;
            if content_offset <= len - offset && (len - offset) - content_offset >= 32 {
                let content_start = offset + content_offset;
                timestamps = FileTimestamps {
                    created: read_u64(record, content_start),
                    modified: read_u64(record, content_start + 8),
                    mft_modified: read_u64(record, content_start + 16),
                    accessed: read_u64(record, content_start + 24),
                };
            }
        } else if attr_type == ATTR_DATA && non_resident == 0 && file_size == 0 {
            if len - offset >= 24 {
                let val_len = read_u32(record, offset + 16);
                if val_len >= 8 && len - offset >= 32 {
                    file_size = read_u64(record, offset + 24);
                }
            }
        } else if attr_type == ATTR_FILE_NAME && non_resident == 0 && len - offset >= 66 {
            let content_offset = read_u16(record, offset + 20) as usize;
            if content_offset <= len - offset && (len - offset) - content_offset >= 66 {
                let content_start = offset + content_offset;
                let parent_ref = read_u64(record, content_start);
                let (parent_record, parent_sequence) = decode_parent_reference(parent_ref);
                let name_length = record[content_start + 64] as usize;
                let namespace = record[content_start + 65];
                if namespace == 1 || namespace == 3 {
                    let name_start = content_start + 66;
                    match read_utf16le(record, name_start, name_length) {
                        Some(name) => {
                            let rank: u8 = if namespace == 1 { 2 } else { 1 };
                            if rank > best_rank {
                                best_rank = rank;
                                best_name = name;
                                best_parent = parent_record;
                                best_parent_seq = parent_sequence;
                            }
                        },
                        None => {},
                    }
                }
            }
        }
        assert(attr_step(r, offset as int, st0) == AttrScan {
            file_size,
            timestamps,
            best_rank,
            best_name: best_name@,
            best_parent,
            best_parent_seq,
        });
        offset = offset + attr_len;
    }
    if truncated {
        return Err(MftError::AttributeHeaderTruncated);
    }
    let (filename, parent_record, parent_sequence, namespace) = if best_rank > 0 {
        (Some(best_name), best_parent, best_parent_seq, 1u8)
    } else {
        (None, 0u64, 0u16, 0u8)
    };
    Ok(ParsedFileRecord {
        record_number,
        sequence_number: header.sequence_number,
        is_active,
        file_size,
        timestamps,
        filename,
        parent_record,
        parent_sequence,
        namespace,
    })
}

/// Applies the fixup to raw record bytes, then parses them.
pub fn read_and_parse_record(raw: &mut [u8], record_number: u64) -> (res: Result<ParsedFileRecord, MftError>)
    ensures
        match fixup_result(old(raw)@) {
            Err(e) => res is Err && res->Err_0 == e && final(raw)@ == old(raw)@,
            Ok(fixed) => final(raw)@ == fixed && match parse_outcome(fixed) {
                Ok(st) => res is Ok && res->Ok_0.from_scan(fixed, record_number, st),
                Err(e) => res is Err && res->Err_0 == e,
            },
        },
{
    match apply_fixup(raw) {
        Err(e) => Err(e),
        Ok(()) => parse_file_record(raw, record_number),
    }
}

/// The attribute at `o` is resident, of type `t`, with a header of at
/// least 22 bytes (up to its content offset) and a length of at least 16
/// bytes, and lies inside the record.
pub open spec fn resident_attr_at(r: Seq<u8>, o: int, t: u32) -> bool {
    &&& 0 <= o
    &&& o + 22 <= r.len()
    &&& le32(r, o) == t
    &&& r[o + 8] == 0
    &&& le32(r, o + 4) >= 16
    &&& o + le32(r, o + 4) <= r.len()
}

/// Where the attribute at `o` ends and the next one begins.
pub open spec fn next_attr(r: Seq<u8>, o: int) -> int {
    o + le32(r, o + 4)
}

/// Where the content of the resident attribute at `o` begins.
pub open spec fn content_at(r: Seq<u8>, o: int) -> int {
    o + le16(r, o + 20)
}

/// The name held by a `$FILE_NAME` content at `c`: `r[c + 64]` UTF-16LE
/// units from `c + 66`, cut at the first zero unit, decoded.
pub open spec fn file_name_text(r: Seq<u8>, c: int) -> Seq<char> {
    utf16_decoded(name_units(r, c + 66, r[c + 64] as int))
}

/// A `$FILE_NAME` content at `c` lies inside the record, name included.
pub open spec fn file_name_fits(r: Seq<u8>, c: int) -> bool {
    c + 66 + 2 * (r[c + 64] as int) <= r.len()
}

/// The record number of an MFT file reference: its low 36 bits.
pub open spec fn reference_record(x: u64) -> u64 {
    (x % 0x10_0000_0000) as u64
}

/// The sequence number of an MFT file reference: its top 16 bits.
pub open spec fn reference_sequence(x: u64) -> u16 {
    (x / 0x1_0000_0000_0000) as u16
}

proof fn lemma_reference_split(x: u64)
    ensures
        x & 0x000F_FFFF_FFFF == reference_record(x),
        ((x >> 48) & 0xFFFF) as u16 == reference_sequence(x),
{
    assert(x & 0x000F_FFFF_FFFF == x % 0x10_0000_0000) by (bit_vector);
    assert(((x >> 48) & 0xFFFF) == x / 0x1_0000_0000_0000) by (bit_vector);
}

/// Walking over a resident `$STANDARD_INFORMATION` attribute whose 32
/// bytes of content lie inside the record sets the timestamps to the
/// little-endian `u64` values at content offsets 0 (created), 8
/// (modified), 16 (MFT entry modified) and 24 (accessed), and changes
/// nothing else; the walk goes on with the next attribute.
pub proof fn law_walk_standard_information(r: Seq<u8>, o: int, st: AttrScan)
    requires
        resident_attr_at(r, o, ATTR_STANDARD_INFORMATION),
        content_at(r, o) + 32 <= r.len(),
    ensures
        scan_attrs(r, o, st) == scan_attrs(
            r,
            next_attr(r, o),
            AttrScan {
                file_size: st.file_size,
                timestamps: FileTimestamps {
                    created: le64(r, content_at(r, o)),
                    modified: le64(r, content_at(r, o) + 8),
                    mft_modified: le64(r, content_at(r, o) + 16),
                    accessed: le64(r, content_at(r, o) + 24),
                },
                best_rank: st.best_rank,
                best_name: st.best_name,
                best_parent: st.best_parent,
                best_parent_seq: st.best_parent_seq,
            },
        ),
{
}

/// Walking over a resident `$FILE_NAME` attribute in namespace 1 (Win32)
/// or 3 (Win32 and DOS) whose name lies inside the record takes its name
/// and the parent reference at the start of its content (record number:
/// low 36 bits; sequence number: top 16 bits), when no name was taken
/// before or, for a Win32 name, only a Win32-and-DOS one was; nothing else
/// changes, and the walk goes on with the next attribute.
pub proof fn law_walk_win32_file_name(r: Seq<u8>, o: int, st: AttrScan)
    requires
        resident_attr_at(r, o, ATTR_FILE_NAME),
        o + 66 <= r.len(),
        file_name_fits(r, content_at(r, o)),
        r[content_at(r, o) + 65] == 1 || r[content_at(r, o) + 65] == 3,
        st.best_rank == 0 || (st.best_rank == 1 && r[content_at(r, o) + 65] == 1),
    ensures
        scan_attrs(r, o, st) == scan_attrs(
            r,
            next_attr(r, o),
            AttrScan {
                file_size: st.file_size,
                timestamps: st.timestamps,
                best_rank: if r[content_at(r, o) + 65] == 1 {
                    2u8
                } else {
                    1u8
                },
                best_name: file_name_text(r, content_at(r, o)),
                best_parent: reference_record(le64(r, content_at(r, o))),
                best_parent_seq: reference_sequence(le64(r, content_at(r, o))),
            },
        ),
{
    lemma_reference_split(le64(r, content_at(r, o)));
}

/// Walking over a resident `$FILE_NAME` attribute whose name is not taken
/// changes nothing: a name in another namespace than 1 or 3 (such as 2,
/// DOS only), a Win32-and-DOS name after any name, or a Win32 name after a
/// Win32 name; the walk goes on with the next attribute.
pub proof fn law_walk_file_name_not_taken(r: Seq<u8>, o: int, st: AttrScan)
    requires
        resident_attr_at(r, o, ATTR_FILE_NAME),
        o + 66 <= r.len(),
        file_name_fits(r, content_at(r, o)),
        ({
            let ns = r[content_at(r, o) + 65];
            ||| (ns != 1 && ns != 3)
            ||| (ns == 3 && st.best_rank >= 1)
            ||| (ns == 1 && st.best_rank >= 2)
        }),
    ensures
        scan_attrs(r, o, st) == scan_attrs(r, next_attr(r, o), st),
{
}

/// Walking over the first resident `$DATA` attribute whose value length
/// (offset 16) is at least 8 and whose first 32 bytes lie inside the record
/// sets the file size to the little-endian `u64` at offset 24; once a size
/// was set, later `$DATA` attributes change nothing.
pub proof fn law_walk_data(r: Seq<u8>, o: int, st: AttrScan)
    requires
        resident_attr_at(r, o, ATTR_DATA),
        o + 32 <= r.len(),
        le32(r, o + 16) >= 8,
    ensures
        st.file_size == 0 ==> scan_attrs(r, o, st) == scan_attrs(
            r,
            next_attr(r, o),
            AttrScan {
                file_size: le64(r, o + 24),
                timestamps: st.timestamps,
                best_rank: st.best_rank,
                best_name: st.best_name,
                best_parent: st.best_parent,
                best_parent_seq: st.best_parent_seq,
            },
        ),
        st.file_size != 0 ==> scan_attrs(r, o, st) == scan_attrs(r, next_attr(r, o), st),
{
}

/// A FILE record whose attributes are a resident `$STANDARD_INFORMATION`
/// (32 bytes of content inside the record), then a resident `$FILE_NAME`
/// (its name inside the record), then the end marker, parses; the parsed
/// record carries
/// - the record's sequence number (header offset 16) and, as its in-use
///   flag, bit 0 of the header flags (offset 22);
/// - the four timestamps at content offsets 0, 8, 16 and 24 of the
///   standard information, in the order created, modified, MFT entry
///   modified, accessed;
/// - no file size (there is no `$DATA` attribute);
/// - for a name in namespace 1 (Win32) or 3 (Win32 and DOS): that name and
///   the parent reference from the start of the `$FILE_NAME` content;
///   for any other namespace (such as 2, DOS only): no name and a zero
///   parent reference.
pub proof fn law_parse_standard_record(r: Seq<u8>, rn: u64, p: ParsedFileRecord)
    requires
        r.len() >= 48,
        le32(r, 0) == FILE_SIGNATURE,
        resident_attr_at(r, le16(r, 20) as int, ATTR_STANDARD_INFORMATION),
        content_at(r, le16(r, 20) as int) + 32 <= r.len(),
        resident_attr_at(r, next_attr(r, le16(r, 20) as int), ATTR_FILE_NAME),
        next_attr(r, le16(r, 20) as int) + 66 <= r.len(),
        file_name_fits(r, content_at(r, next_attr(r, le16(r, 20) as int))),
        next_attr(r, next_attr(r, le16(r, 20) as int)) + 4 <= r.len(),
        le32(r, next_attr(r, next_attr(r, le16(r, 20) as int))) == ATTR_END,
    ensures
        parse_outcome(r) is Ok,
        p.from_scan(r, rn, parse_outcome(r)->Ok_0) ==> {
            let a = le16(r, 20) as int;
            let ca = content_at(r, a);
            let cb = content_at(r, next_attr(r, a));
            let ns = r[cb + 65];
            &&& p.record_number == rn
            &&& p.sequence_number == le16(r, 16)
            &&& p.is_active == (le16(r, 22) % 2 == 1)
            &&& p.timestamps.created == le64(r, ca)
            &&& p.timestamps.modified == le64(r, ca + 8)
            &&& p.timestamps.mft_modified == le64(r, ca + 16)
            &&& p.timestamps.accessed == le64(r, ca + 24)
            &&& p.file_size == 0
            &&& if ns == 1 || ns == 3 {
                &&& p.filename is Some
                &&& p.filename->0@ == file_name_text(r, cb)
                &&& p.parent_record == reference_record(le64(r, cb))
                &&& p.parent_sequence == reference_sequence(le64(r, cb))
            } else {
                &&& p.filename is None
                &&& p.parent_record == 0
                &&& p.parent_sequence == 0
            }
        },
{
    let a = le16(r, 20) as int;
    let b = next_attr(r, a);
    let c = next_attr(r, b);
    let st1 = attr_step(r, a, scan_start());
    law_walk_standard_information(r, a, scan_start());
    let cb = content_at(r, b);
    let ns = r[cb + 65];
    if ns == 1 || ns == 3 {
        law_walk_win32_file_name(r, b, st1);
    }
    assert(scan_attrs(r, c, attr_step(r, b, st1)) == Some(attr_step(r, b, st1)));
    let flags = le16(r, 22);
    assert((flags & 1 != 0) == (flags % 2 == 1)) by (bit_vector);
}

} // verus!
