//! Columnar in-memory catalog of MFT records, indexed by record number.
use std::collections::HashMap;
use vstd::prelude::*;
use vstd::utf8::*;

use crate::calls::empty_catalog;
use crate::mft::FileTimestamps;
use crate::text::{string_from_utf8_lossy, utf8_lossy};

verus! {

broadcast use vstd::std_specs::hash::group_hash_axioms;

/// Columnar in-memory catalog indexed by MFT record number.
///
/// Each dense index holds one row across all columns; `record_index` maps a
/// record number to the last dense index that holds it. Strings live in a
/// byte pool; an id is the byte offset of a NUL-terminated UTF-8 string.
#[derive(Debug, Clone)]
pub struct Catalog {
    record_index: HashMap<u64, usize>,
    record_numbers: Vec<u64>,
    sequence_numbers: Vec<u16>,
    parent_records: Vec<u64>,
    parent_sequences: Vec<u16>,
    file_sizes: Vec<u64>,
    created_times: Vec<u64>,
    modified_times: Vec<u64>,
    mft_modified_times: Vec<u64>,
    accessed_times: Vec<u64>,
    filename_ids: Vec<u32>,
    path_ids: Vec<u32>,
    parent_valid: Vec<bool>,
    is_active: Vec<bool>,
    string_pool: Vec<u8>,
    drive_letter: char,
}

/// One row of the catalog, with strings held as pool ids.
pub struct CatalogRow {
    pub record_number: u64,
    pub sequence_number: u16,
    pub parent_record: u64,
    pub parent_sequence: u16,
    pub file_size: u64,
    pub timestamps: FileTimestamps,
    pub filename_id: u32,
    pub path_id: u32,
    pub parent_valid: bool,
    pub is_active: bool,
}

/// The abstract content of a catalog: its rows in dense order, the string
/// pool and the drive letter.
pub struct CatalogView {
    pub rows: Seq<CatalogRow>,
    pub pool: Seq<u8>,
    pub drive_letter: char,
}

/// A materialised catalog row with its strings decoded.
#[derive(Debug, Clone)]
pub struct FileEntry {
    pub record_number: u64,
    pub sequence_number: u16,
    pub parent_record: u64,
    pub parent_sequence: u16,
    pub filename: String,
    pub path: String,
    pub file_size: u64,
    pub timestamps: FileTimestamps,
    pub parent_valid: bool,
    pub is_active: bool,
}

/// Index of the first NUL byte at or after `start`, or the pool length.
pub open spec fn terminator(pool: Seq<u8>, start: int) -> int
    decreases pool.len() - start,
{
    if start < 0 || start >= pool.len() {
        pool.len() as int
    } else if pool[start] == 0 {
        start
    } else {
        terminator(pool, start + 1)
    }
}

/// The string that pool id `id` denotes: the lossy UTF-8 decoding of the
/// bytes from `id` up to the next NUL, or empty when `id` is out of range.
pub open spec fn pool_string(pool: Seq<u8>, id: u32) -> Seq<char> {
    if id >= pool.len() {
        Seq::empty()
    } else {
        lossy_decode(pool.subrange(id as int, terminator(pool, id as int)))
    }
}

/// Lossy UTF-8 decoding: valid input decodes exactly; invalid input yields
/// whatever `String::from_utf8_lossy` makes of it.
pub open spec fn lossy_decode(bytes: Seq<u8>) -> Seq<char> {
    if valid_utf8(bytes) {
        decode_utf8(bytes)
    } else {
        utf8_lossy(bytes)
    }
}

/// The pool after appending `s` as a NUL-terminated UTF-8 string.
pub open spec fn pool_append(pool: Seq<u8>, s: Seq<char>) -> Seq<u8> {
    pool + encode_utf8(s) + seq![0u8]
}

/// Dense index of the last row holding record `r`, or -1.
pub open spec fn last_slot(rows: Seq<CatalogRow>, r: u64) -> int
    decreases rows.len(),
{
    if rows.len() == 0 {
        -1
    } else if rows.last().record_number == r {
        rows.len() - 1
    } else {
        last_slot(rows.drop_last(), r)
    }
}

/// Dense positions of the active rows among the first `n` rows, in order.
pub open spec fn active_slots(rows: Seq<CatalogRow>, n: int) -> Seq<int>
    decreases n,
{
    if n <= 0 {
        Seq::empty()
    } else if rows[n - 1].is_active {
        active_slots(rows, n - 1).push(n - 1)
    } else {
        active_slots(rows, n - 1)
    }
}



/// No byte of a character's UTF-8 encoding is zero unless the character is NUL.
proof fn lemma_scalar_bytes_nonzero(c: char)
    requires
        c != '\0',
    ensures
        forall|i: int|
            0 <= i < encode_scalar(c as u32).len() ==> #[trigger] encode_scalar(c as u32)[i] != 0,
{
    let v = c as u32;
    assert(is_scalar(v)) by {
        char_is_scalar(c);
    }
    assert(v != 0);
    if has_width_1_encoding(v) {
        assert((v & 0x7F) as u8 != 0) by (bit_vector)
            requires
                1 <= v <= 0x7F,
        ;
    } else {
        let b1 = ((v >> 6) & 0x1F) as u8;
        let b2 = ((v >> 12) & 0x0F) as u8;
        let b3 = ((v >> 18) & 0x7) as u8;
        let c1 = (v & 0x3F) as u8;
        let c2 = ((v >> 6) & 0x3F) as u8;
        let c3 = ((v >> 12) & 0x3F) as u8;
        assert((0xC0u8 | b1) != 0 && (0xE0u8 | b2) != 0 && (0xF0u8 | b3) != 0) by (bit_vector);
        assert((0x80u8 | c1) != 0 && (0x80u8 | c2) != 0 && (0x80u8 | c3) != 0) by (bit_vector);
    }
}

/// The UTF-8 encoding of a NUL-free string has no zero byte.
pub proof fn lemma_encode_no_nul(s: Seq<char>)
    requires
        !s.contains('\0'),
    ensures
        forall|i: int| 0 <= i < encode_utf8(s).len() ==> #[trigger] encode_utf8(s)[i] != 0,
    decreases s.len(),
{
    if s.len() > 0 {
        assert(s[0] != '\0') by {
            assert(s.contains(s[0]));
        }
        lemma_scalar_bytes_nonzero(s[0]);
        let rest = s.drop_first();
        assert(!rest.contains('\0')) by {
            if rest.contains('\0') {
                let k = choose|k: int| 0 <= k < rest.len() && rest[k] == '\0';
                assert(s[k + 1] == '\0');
            }
        }
        lemma_encode_no_nul(rest);
        let head = encode_scalar(s[0] as u32);
        assert(encode_utf8(s) == head + encode_utf8(rest));
        assert forall|i: int| 0 <= i < encode_utf8(s).len() implies #[trigger] encode_utf8(s)[i] != 0 by {
            if i >= head.len() {
                assert(encode_utf8(s)[i] == encode_utf8(rest)[i - head.len()]);
            }
        }
    }
}

/// `terminator` finds the first NUL at or after `a`.
proof fn lemma_terminator_at(pool: Seq<u8>, a: int, b: int)
    requires
        0 <= a <= b < pool.len(),
        pool[b] == 0,
        forall|k: int| a <= k < b ==> pool[k] != 0,
    ensures
        terminator(pool, a) == b,
    decreases b - a,
{
    if a < b {
        lemma_terminator_at(pool, a + 1, b);
    }
}

/// Reading a freshly appended NUL-free string back from the pool gives it
/// unchanged.
pub proof fn lemma_pool_append_read(pool: Seq<u8>, s: Seq<char>)
    requires
        !s.contains('\0'),
        pool.len() <= u32::MAX,
    ensures
        pool_string(pool_append(pool, s), pool.len() as u32) == s,
{
    let e = encode_utf8(s);
    let p = pool_append(pool, s);
    let a = pool.len() as int;
    lemma_encode_no_nul(s);
    assert forall|k: int| a <= k < a + e.len() implies p[k] != 0 by {
        assert(p[k] == e[k - a]);
    }
    assert(p[a + e.len()] == 0);
    lemma_terminator_at(p, a, a + e.len());
    assert(p.subrange(a, a + e.len()) =~= e);
    encode_utf8_valid_utf8(s);
    encode_utf8_decode_utf8(s);
}

/// The string at `id` ends with a NUL inside the pool.
pub open spec fn ends_in_pool(pool: Seq<u8>, id: u32) -> bool {
    &&& (id as int) < pool.len()
    &&& terminator(pool, id as int) < pool.len()
}

/// What reading back a string appended to a pool gives, whatever the pool
/// held before: the lossy decoding of its UTF-8 bytes up to their first
/// NUL.
pub open spec fn appended_text(s: Seq<char>) -> Seq<char> {
    let e = encode_utf8(s) + seq![0u8];
    lossy_decode(e.subrange(0, terminator(e, 0)))
}

/// `terminator` never moves backwards nor past the end.
proof fn lemma_terminator_ge(pool: Seq<u8>, a: int)
    requires
        0 <= a,
    ensures
        a <= terminator(pool, a) <= pool.len() || a > pool.len(),
    decreases pool.len() - a,
{
    if a < pool.len() && pool[a] != 0 {
        lemma_terminator_ge(pool, a + 1);
    }
}

/// Appending leaves every string that already ends inside the pool
/// readable as before, still ending inside the pool.
pub proof fn lemma_pool_append_keeps_ended(pool: Seq<u8>, s: Seq<char>, id: u32)
    requires
        ends_in_pool(pool, id),
    ensures
        pool_string(pool_append(pool, s), id) == pool_string(pool, id),
        ends_in_pool(pool_append(pool, s), id),
{
    let p = pool_append(pool, s);
    let t = terminator(pool, id as int);
    lemma_terminator_ge(pool, id as int);
    lemma_terminator_first(pool, id as int);
    assert forall|k: int| id <= k < t implies p[k] != 0 by {
        assert(p[k] == pool[k]);
    }
    assert(p[t] == pool[t]);
    lemma_terminator_at(p, id as int, t);
    assert(p.subrange(id as int, t) =~= pool.subrange(id as int, t));
}

/// Appending to a NUL-terminated pool leaves every string already in it
/// readable as before.
pub proof fn lemma_pool_append_keeps(pool: Seq<u8>, s: Seq<char>, id: u32)
    requires
        pool.len() == 0 || pool.last() == 0,
        id < pool.len(),
    ensures
        pool_string(pool_append(pool, s), id) == pool_string(pool, id),
{
    lemma_terminator_bounds(pool, id as int);
    lemma_pool_append_keeps_ended(pool, s, id);
}

/// `terminator` in a concatenation, from inside its second part.
proof fn lemma_terminator_shift(pool: Seq<u8>, t: Seq<u8>, k: int)
    requires
        0 <= k <= t.len(),
    ensures
        terminator(pool + t, pool.len() + k) == pool.len() + terminator(t, k),
    decreases t.len() - k,
{
    if k < t.len() {
        assert((pool + t)[pool.len() + k] == t[k]);
        if t[k] != 0 {
            lemma_terminator_shift(pool, t, k + 1);
        }
    }
}

/// A string appended to any pool reads back as `appended_text`, and ends
/// inside the grown pool.
pub proof fn lemma_pool_append_reads(pool: Seq<u8>, s: Seq<char>)
    requires
        pool.len() <= u32::MAX,
    ensures
        pool_string(pool_append(pool, s), pool.len() as u32) == appended_text(s),
        ends_in_pool(pool_append(pool, s), pool.len() as u32),
{
    let e = encode_utf8(s) + seq![0u8];
    let p = pool_append(pool, s);
    assert(p =~= pool + e);
    lemma_terminator_shift(pool, e, 0);
    lemma_terminator_bounds(e, 0);
    let t = terminator(e, 0);
    assert(p.subrange(pool.len() as int, pool.len() + t) =~= e.subrange(0, t));
}

/// A NUL-free string reads back unchanged.
pub proof fn lemma_appended_text_exact(s: Seq<char>)
    requires
        !s.contains('\0'),
    ensures
        appended_text(s) == s,
{
    lemma_pool_append_read(Seq::empty(), s);
    lemma_pool_append_reads(Seq::empty(), s);
}

/// `terminator` lands inside the pool at a NUL, or at its end.
proof fn lemma_terminator_bounds(pool: Seq<u8>, a: int)
    requires
        0 <= a < pool.len(),
        pool.len() == 0 || pool.last() == 0,
    ensures
        a <= terminator(pool, a) < pool.len(),
    decreases pool.len() - a,
{
    if pool[a] != 0 {
        lemma_terminator_bounds(pool, a + 1);
    }
}

/// Bytes before `terminator` are non-zero and the byte at it is zero.
proof fn lemma_terminator_first(pool: Seq<u8>, a: int)
    requires
        0 <= a < pool.len(),
        terminator(pool, a) < pool.len(),
    ensures
        pool[terminator(pool, a)] == 0,
        forall|k: int| a <= k < terminator(pool, a) ==> pool[k] != 0,
    decreases pool.len() - a,
{
    if pool[a] != 0 {
        if a + 1 < pool.len() {
            lemma_terminator_first(pool, a + 1);
        } else {
            assert(terminator(pool, a + 1) == pool.len());
        }
    }
}

/// The active slots among the first `n` rows are the positions `0..n`
/// filtered by the active flag.
proof fn lemma_active_slots_filter(rows: Seq<CatalogRow>, n: int)
    requires
        0 <= n <= rows.len(),
    ensures
        active_slots(rows, n) == Seq::new(n as nat, |i: int| i).filter(|i: int| rows[i].is_active),
    decreases n,
{
    reveal(Seq::filter);
    let all = Seq::new(n as nat, |i: int| i);
    if n > 0 {
        lemma_active_slots_filter(rows, n - 1);
        assert(all.drop_last() =~= Seq::new((n - 1) as nat, |i: int| i));
        assert(all.last() == n - 1);
    } else {
        assert(all =~= Seq::<int>::empty());
    }
}

/// `active_entries` lists exactly what `entries` lists with the active
/// flag set, in the same order: its rows are the dense positions of all
/// rows, filtered by that flag.
pub proof fn law_active_entries_filter_entries(v: CatalogView)
    ensures
        active_slots(v.rows, v.rows.len() as int) == Seq::new(v.rows.len(), |i: int| i).filter(
            |i: int| v.rows[i].is_active,
        ),
{
    lemma_active_slots_filter(v.rows, v.rows.len() as int);
}

/// Where `last_slot` points: the last row holding `r`, or -1 when none does.
pub proof fn lemma_last_slot(rows: Seq<CatalogRow>, r: u64)
    ensures
        -1 <= last_slot(rows, r) < rows.len(),
        last_slot(rows, r) >= 0 ==> rows[last_slot(rows, r)].record_number == r,
        forall|j: int|
            last_slot(rows, r) < j < rows.len() ==> #[trigger] rows[j].record_number != r,
    decreases rows.len(),
{
    if rows.len() > 0 && rows.last().record_number != r {
        lemma_last_slot(rows.drop_last(), r);
        assert forall|j: int| last_slot(rows, r) < j < rows.len() implies #[trigger] rows[j].record_number != r by {
            if j < rows.len() - 1 {
                assert(rows.drop_last()[j] == rows[j]);
            }
        }
    }
}

/// Overwriting a row with one for the same record moves no lookup.
pub proof fn lemma_last_slot_update(rows: Seq<CatalogRow>, s: int, x: CatalogRow, r: u64)
    requires
        0 <= s < rows.len(),
        x.record_number == rows[s].record_number,
    ensures
        last_slot(rows.update(s, x), r) == last_slot(rows, r),
    decreases rows.len(),
{
    let u = rows.update(s, x);
    if s < rows.len() - 1 {
        assert(u.drop_last() =~= rows.drop_last().update(s, x));
        lemma_last_slot_update(rows.drop_last(), s, x, r);
    } else {
        assert(u.drop_last() =~= rows.drop_last());
    }
}

/// Appending a row makes it the lookup result for its record and moves no
/// other lookup.
pub proof fn lemma_last_slot_push(rows: Seq<CatalogRow>, x: CatalogRow, r: u64)
    ensures
        last_slot(rows.push(x), r) == if x.record_number == r {
            rows.len() as int
        } else {
            last_slot(rows, r)
        },
{
    assert(rows.push(x).drop_last() =~= rows);
}


/// Upserting a record and looking it up again yields exactly the values
/// written, strings included, provided the strings hold no NUL and the pool
/// stays addressable by 32-bit ids.
pub proof fn law_upsert_read_back(
    before: CatalogView,
    r: u64,
    sequence_number: u16,
    parent_record: u64,
    parent_sequence: u16,
    filename: Seq<char>,
    path: Seq<char>,
    file_size: u64,
    timestamps: FileTimestamps,
    parent_valid: bool,
    is_active: bool,
)
    requires
        !filename.contains('\0'),
        !path.contains('\0'),
        before.pool.len() + encode_utf8(filename).len() + encode_utf8(path).len() + 2 <= u32::MAX,
    ensures
        ({
            let after = before.upsert(
                r,
                sequence_number,
                parent_record,
                parent_sequence,
                filename,
                path,
                file_size,
                timestamps,
                parent_valid,
                is_active,
            );
            let i = after.slot_of(r);
            &&& 0 <= i < after.rows.len()
            &&& after.rows[i].record_number == r
            &&& after.rows[i].sequence_number == sequence_number
            &&& after.rows[i].parent_record == parent_record
            &&& after.rows[i].parent_sequence == parent_sequence
            &&& after.rows[i].file_size == file_size
            &&& after.rows[i].timestamps == timestamps
            &&& after.rows[i].parent_valid == parent_valid
            &&& after.rows[i].is_active == is_active
            &&& after.filename_at(i) == filename
            &&& after.path_at(i) == path
        }),
{
    let pool1 = pool_append(before.pool, filename);
    let after = before.upsert(
        r,
        sequence_number,
        parent_record,
        parent_sequence,
        filename,
        path,
        file_size,
        timestamps,
        parent_valid,
        is_active,
    );
    lemma_last_slot(before.rows, r);
    let row = after.rows[if before.slot_of(r) >= 0 { before.slot_of(r) } else { before.rows.len() as int }];
    if before.slot_of(r) >= 0 {
        lemma_last_slot_update(before.rows, before.slot_of(r), row, r);
    } else {
        lemma_last_slot_push(before.rows, row, r);
    }
    lemma_pool_append_read(before.pool, filename);
    lemma_pool_append_read(pool1, path);
    lemma_pool_append_keeps(pool1, path, before.pool.len() as u32);
}

/// Upserting one record leaves every other record's lookup and row
/// unchanged, and each of that row's strings that ends with a NUL inside
/// the pool reads as before; an upsert into a catalog whose strings are
/// settled keeps them settled.
pub proof fn law_upsert_preserves_others(
    before: CatalogView,
    r: u64,
    sequence_number: u16,
    parent_record: u64,
    parent_sequence: u16,
    filename: Seq<char>,
    path: Seq<char>,
    file_size: u64,
    timestamps: FileTimestamps,
    parent_valid: bool,
    is_active: bool,
    q: u64,
)
    requires
        q != r,
    ensures
        ({
            let after = before.upsert(
                r,
                sequence_number,
                parent_record,
                parent_sequence,
                filename,
                path,
                file_size,
                timestamps,
                parent_valid,
                is_active,
            );
            let i = before.slot_of(q);
            &&& after.slot_of(q) == i
            &&& i >= 0 ==> after.rows[i] == before.rows[i]
            &&& i >= 0 && ends_in_pool(before.pool, before.rows[i].filename_id) ==> after.filename_at(i)
                == before.filename_at(i)
            &&& i >= 0 && ends_in_pool(before.pool, before.rows[i].path_id) ==> after.path_at(i)
                == before.path_at(i)
            &&& before.strings_settled() ==> after.strings_settled()
        }),
{
    let pool1 = pool_append(before.pool, filename);
    let after = before.upsert(
        r,
        sequence_number,
        parent_record,
        parent_sequence,
        filename,
        path,
        file_size,
        timestamps,
        parent_valid,
        is_active,
    );
    lemma_last_slot(before.rows, r);
    lemma_last_slot(before.rows, q);
    let n = before.rows.len() as int;
    let row = after.rows[if before.slot_of(r) >= 0 { before.slot_of(r) } else { n }];
    if before.slot_of(r) >= 0 {
        lemma_last_slot_update(before.rows, before.slot_of(r), row, q);
    } else {
        lemma_last_slot_push(before.rows, row, q);
    }
    let i = before.slot_of(q);
    if i >= 0 {
        assert(after.rows[i] == before.rows[i]);
        let f = before.rows[i].filename_id;
        let p = before.rows[i].path_id;
        if ends_in_pool(before.pool, f) {
            lemma_pool_append_keeps_ended(before.pool, filename, f);
            lemma_pool_append_keeps_ended(pool1, path, f);
        }
        if ends_in_pool(before.pool, p) {
            lemma_pool_append_keeps_ended(before.pool, filename, p);
            lemma_pool_append_keeps_ended(pool1, path, p);
        }
    }
    if before.strings_settled() {
        assert(pool1.last() == 0);
        assert forall|k: int| 0 <= k < after.rows.len() implies #[trigger] after.rows[k].filename_id
            < after.pool.len() && after.rows[k].path_id < after.pool.len() by {
            if k < n && after.rows[k] == before.rows[k] {
            }
        }
    }
}

impl CatalogView {
    pub open spec fn len(self) -> nat {
        self.rows.len()
    }

    /// Dense index of the row that a lookup of `r` finds, or -1.
    pub open spec fn slot_of(self, r: u64) -> int {
        last_slot(self.rows, r)
    }

    /// The filename that row `i` denotes.
    pub open spec fn filename_at(self, i: int) -> Seq<char> {
        pool_string(self.pool, self.rows[i].filename_id)
    }

    /// The path that row `i` denotes.
    pub open spec fn path_at(self, i: int) -> Seq<char> {
        pool_string(self.pool, self.rows[i].path_id)
    }

    /// The catalog after `upsert_entry` with these arguments: both strings
    /// are appended to the pool (filename first), and the row of `r` is
    /// overwritten in place, or appended when `r` is new.
    pub open spec fn upsert(
        self,
        r: u64,
        sequence_number: u16,
        parent_record: u64,
        parent_sequence: u16,
        filename: Seq<char>,
        path: Seq<char>,
        file_size: u64,
        timestamps: FileTimestamps,
        parent_valid: bool,
        is_active: bool,
    ) -> CatalogView {
        let pool1 = pool_append(self.pool, filename);
        let row = CatalogRow {
            record_number: r,
            sequence_number,
            parent_record,
            parent_sequence,
            file_size,
            timestamps,
            filename_id: self.pool.len() as u32,
            path_id: pool1.len() as u32,
            parent_valid,
            is_active,
        };
        CatalogView {
            rows: if self.slot_of(r) >= 0 {
                self.rows.update(self.slot_of(r), row)
            } else {
                self.rows.push(row)
            },
            pool: pool_append(pool1, path),
            drive_letter: self.drive_letter,
        }
    }

    /// Every row's file name ends with a NUL inside the pool.
    pub open spec fn names_end_in_pool(self) -> bool {
        forall|i: int|
            0 <= i < self.rows.len() ==> #[trigger] ends_in_pool(self.pool, self.rows[i].filename_id)
    }

    /// Every row's string ids point into a NUL-terminated pool.
    pub open spec fn strings_settled(self) -> bool {
        &&& self.pool_terminated()
        &&& forall|i: int|
            0 <= i < self.rows.len() ==> #[trigger] self.rows[i].filename_id < self.pool.len()
                && self.rows[i].path_id < self.pool.len()
    }

    /// The pool is empty or ends with a NUL, so every string already in it
    /// stays readable when more strings are appended.
    pub open spec fn pool_terminated(self) -> bool {
        self.pool.len() == 0 || self.pool.last() == 0
    }
}

/// A copy of `e`.
pub(crate) fn clone_entry(e: &FileEntry) -> (r: FileEntry)
    ensures
        r == *e,
{
    FileEntry {
        record_number: e.record_number,
        sequence_number: e.sequence_number,
        parent_record: e.parent_record,
        parent_sequence: e.parent_sequence,
        filename: e.filename.clone(),
        path: e.path.clone(),
        file_size: e.file_size,
        timestamps: e.timestamps,
        parent_valid: e.parent_valid,
        is_active: e.is_active,
    }
}

impl FileEntry {
    /// Neither the file name nor the path holds a NUL character.
    pub open spec fn names_nul_free(self) -> bool {
        !self.filename@.contains('\0') && !self.path@.contains('\0')
    }

    /// This entry is row `i` of `cat`, with its strings decoded.
    pub open spec fn describes(self, cat: CatalogView, i: int) -> bool {
        let row = cat.rows[i];
        &&& 0 <= i < cat.rows.len()
        &&& self.record_number == row.record_number
        &&& self.sequence_number == row.sequence_number
        &&& self.parent_record == row.parent_record
        &&& self.parent_sequence == row.parent_sequence
        &&& self.filename@ == cat.filename_at(i)
        &&& self.path@ == cat.path_at(i)
        &&& self.file_size == row.file_size
        &&& self.timestamps == row.timestamps
        &&& self.parent_valid == row.parent_valid
        &&& self.is_active == row.is_active
    }
}

impl View for Catalog {
    type V = CatalogView;

    closed spec fn view(&self) -> CatalogView {
        CatalogView {
            rows: Seq::new(
                self.record_numbers@.len(),
                |i: int|
                    CatalogRow {
                        record_number: self.record_numbers@[i],
                        sequence_number: self.sequence_numbers@[i],
                        parent_record: self.parent_records@[i],
                        parent_sequence: self.parent_sequences@[i],
                        file_size: self.file_sizes@[i],
                        timestamps: FileTimestamps {
                            created: self.created_times@[i],
                            modified: self.modified_times@[i],
                            mft_modified: self.mft_modified_times@[i],
                            accessed: self.accessed_times@[i],
                        },
                        filename_id: self.filename_ids@[i],
                        path_id: self.path_ids@[i],
                        parent_valid: self.parent_valid@[i],
                        is_active: self.is_active@[i],
                    },
            ),
            pool: self.string_pool@,
            drive_letter: self.drive_letter,
        }
    }
}

impl Default for Catalog {
    /// An empty catalog whose drive letter is the NUL character.
    fn default() -> (c: Catalog)
        ensures
            c.wf(),
            c@.rows.len() == 0,
            c@.pool.len() == 0,
            c@.drive_letter == '\0',
    {
        Catalog::new('\0')
    }
}

impl Catalog {
    closed spec fn columns_aligned(&self) -> bool {
        let n = self.record_numbers@.len();
        &&& self.sequence_numbers@.len() == n
        &&& self.parent_records@.len() == n
        &&& self.parent_sequences@.len() == n
        &&& self.file_sizes@.len() == n
        &&& self.created_times@.len() == n
        &&& self.modified_times@.len() == n
        &&& self.mft_modified_times@.len() == n
        &&& self.accessed_times@.len() == n
        &&& self.filename_ids@.len() == n
        &&& self.path_ids@.len() == n
        &&& self.parent_valid@.len() == n
        &&& self.is_active@.len() == n
    }

    closed spec fn index_exact(&self) -> bool {
        forall|r: u64|
            #[trigger] self.record_index@.contains_key(r) == (self@.slot_of(r) >= 0) && (
            self.record_index@.contains_key(r) ==> self.record_index@[r] as int == self@.slot_of(
                r,
            ))
    }

    /// Well-formedness: all columns have one entry per row and the record
    /// index finds, for each record number, its last row.
    pub closed spec fn wf(&self) -> bool {
        &&& self.columns_aligned()
        &&& self.index_exact()
    }

    /// An empty catalog for `drive_letter`.
    pub fn new(drive_letter: char) -> (c: Catalog)
        ensures
            c.wf(),
            c@.rows.len() == 0,
            c@.pool.len() == 0,
            c@.drive_letter == drive_letter,
            c@ == empty_catalog(drive_letter),
    {
        let c = Catalog {
            record_index: HashMap::new(),
            record_numbers: Vec::new(),
            sequence_numbers: Vec::new(),
            parent_records: Vec::new(),
            parent_sequences: Vec::new(),
            file_sizes: Vec::new(),
            created_times: Vec::new(),
            modified_times: Vec::new(),
            mft_modified_times: Vec::new(),
            accessed_times: Vec::new(),
            filename_ids: Vec::new(),
            path_ids: Vec::new(),
            parent_valid: Vec::new(),
            is_active: Vec::new(),
            string_pool: Vec::new(),
            drive_letter,
        };
        assert(c@.rows =~= Seq::<CatalogRow>::empty());
        assert(c@.pool =~= Seq::<u8>::empty());
        c
    }

    pub fn drive_letter(&self) -> (d: char)
        ensures
            d == self@.drive_letter,
    {
        self.drive_letter
    }

    pub fn len(&self) -> (n: usize)
        requires
            self.wf(),
        ensures
            n == self@.rows.len(),
    {
        self.record_numbers.len()
    }

    pub fn is_empty(&self) -> (b: bool)
        requires
            self.wf(),
        ensures
            b == (self@.rows.len() == 0),
    {
        self.record_numbers.len() == 0
    }

    /// Appends `s` to the string pool as a NUL-terminated UTF-8 string and
    /// returns its id, the pool length before the append (truncated to 32
    /// bits, as ids are stored in 32 bits).
    pub fn intern_string(&mut self, s: &str) -> (id: u32)
        requires
            old(self).wf(),
        ensures
            final(self).wf(),
            final(self)@.rows == old(self)@.rows,
            final(self)@.drive_letter == old(self)@.drive_letter,
            final(self)@.pool == pool_append(old(self)@.pool, s@),
            id == old(self)@.pool.len() as u32,
    {
        let offset = self.string_pool.len() as u32;
        let bytes = s.as_bytes();
        self.string_pool.extend_from_slice(bytes);
        self.string_pool.push(0);
        assert(self@.pool =~= pool_append(old(self)@.pool, s@));
        assert(self@.rows =~= old(self)@.rows);
        offset
    }


    /// Inserts or overwrites the row of `record_number`. Both strings are
    /// appended to the pool (filename first); an existing row is updated in
    /// place, otherwise a new row is appended.
    pub fn upsert_entry(
        &mut self,
        record_number: u64,
        sequence_number: u16,
        parent_record: u64,
        parent_sequence: u16,
        filename: &str,
        path: &str,
        file_size: u64,
        timestamps: FileTimestamps,
        parent_valid: bool,
        is_active: bool,
    )
        requires
            old(self).wf(),
            old(self)@.rows.len() < usize::MAX,
        ensures
            final(self).wf(),
            final(self)@ == old(self)@.upsert(
                record_number,
                sequence_number,
                parent_record,
                parent_sequence,
                filename@,
                path@,
                file_size,
                timestamps,
                parent_valid,
                is_active,
            ),
    {
        let ghost old_rows = self@.rows;
        let filename_id = self.intern_string(filename);
        let path_id = self.intern_string(path);
        let ghost row = CatalogRow {
            record_number,
            sequence_number,
            parent_record,
            parent_sequence,
            file_size,
            timestamps,
            filename_id,
            path_id,
            parent_valid,
            is_active,
        };
        proof {
            lemma_last_slot(old_rows, record_number);
        }
        let found = self.record_index.get(&record_number);
        assert(self.record_index@.contains_key(record_number) == (self@.slot_of(record_number) >= 0));
        match found {
            Some(idx_ref) => {
                let idx = *idx_ref;
                assert(idx as int == self@.slot_of(record_number));
                self.sequence_numbers.set(idx, sequence_number);
                self.parent_records.set(idx, parent_record);
                self.parent_sequences.set(idx, parent_sequence);
                self.file_sizes.set(idx, file_size);
                self.created_times.set(idx, timestamps.created);
                self.modified_times.set(idx, timestamps.modified);
                self.mft_modified_times.set(idx, timestamps.mft_modified);
                self.accessed_times.set(idx, timestamps.accessed);
                self.filename_ids.set(idx, filename_id);
                self.path_ids.set(idx, path_id);
                self.parent_valid.set(idx, parent_valid);
                self.is_active.set(idx, is_active);
                assert(self@.rows =~= old_rows.update(idx as int, row));
                assert forall|r: u64| #[trigger] self.record_index@.contains_key(r) == (self@.slot_of(r) >= 0) && (
                    self.record_index@.contains_key(r) ==> self.record_index@[r] as int == self@.slot_of(r)) by {
                    lemma_last_slot_update(old_rows, idx as int, row, r);
                }
            },
            None => {
                let idx = self.record_numbers.len();
                self.record_index.insert(record_number, idx);
                self.record_numbers.push(record_number);
                self.sequence_numbers.push(sequence_number);
                self.parent_records.push(parent_record);
                self.parent_sequences.push(parent_sequence);
                self.file_sizes.push(file_size);
                self.created_times.push(timestamps.created);
                self.modified_times.push(timestamps.modified);
                self.mft_modified_times.push(timestamps.mft_modified);
                self.accessed_times.push(timestamps.accessed);
                self.filename_ids.push(filename_id);
                self.path_ids.push(path_id);
                self.parent_valid.push(parent_valid);
                self.is_active.push(is_active);
                assert(self@.rows =~= old_rows.push(row));
                assert forall|r: u64| #[trigger] self.record_index@.contains_key(r) == (self@.slot_of(r) >= 0) && (
                    self.record_index@.contains_key(r) ==> self.record_index@[r] as int == self@.slot_of(r)) by {
                    lemma_last_slot_push(old_rows, row, r);
                }
            },
        }
    }

    /// The row at dense index `idx`, with its strings decoded.
    fn entry_at(&self, idx: usize) -> (e: FileEntry)
        requires
            self.wf(),
            idx < self@.rows.len(),
        ensures
            e.describes(self@, idx as int),
            e.names_nul_free(),
    {
        FileEntry {
            record_number: self.record_numbers[idx],
            sequence_number: self.sequence_numbers[idx],
            parent_record: self.parent_records[idx],
            parent_sequence: self.parent_sequences[idx],
            filename: self.string_at(self.filename_ids[idx]),
            path: self.string_at(self.path_ids[idx]),
            file_size: self.file_sizes[idx],
            timestamps: FileTimestamps {
                created: self.created_times[idx],
                modified: self.modified_times[idx],
                mft_modified: self.mft_modified_times[idx],
                accessed: self.accessed_times[idx],
            },
            parent_valid: self.parent_valid[idx],
            is_active: self.is_active[idx],
        }
    }

    /// Dense index of the row that record `record_number` resolves to.
    fn slot(&self, record_number: u64) -> (s: Option<usize>)
        requires
            self.wf(),
        ensures
            match s {
                Some(i) => i as int == self@.slot_of(record_number) && i < self@.rows.len(),
                None => self@.slot_of(record_number) < 0,
            },
    {
        proof {
            lemma_last_slot(self@.rows, record_number);
        }
        assert(self.record_index@.contains_key(record_number) == (self@.slot_of(record_number) >= 0));
        match self.record_index.get(&record_number) {
            Some(idx_ref) => Some(*idx_ref),
            None => None,
        }
    }

    /// The entry of record `record_number`, if the catalog holds it.
    pub fn get(&self, record_number: u64) -> (e: Option<FileEntry>)
        requires
            self.wf(),
        ensures
            match e {
                Some(e) => self@.slot_of(record_number) >= 0 && e.describes(
                    self@,
                    self@.slot_of(record_number),
                ) && e.names_nul_free(),
                None => self@.slot_of(record_number) < 0,
            },
    {
        match self.slot(record_number) {
            Some(idx) => Some(self.entry_at(idx)),
            None => None,
        }
    }

    /// The sequence number of record `record_number`, if the catalog holds it.
    pub fn get_sequence(&self, record_number: u64) -> (s: Option<u16>)
        requires
            self.wf(),
        ensures
            match s {
                Some(q) => self@.slot_of(record_number) >= 0 && q
                    == self@.rows[self@.slot_of(record_number)].sequence_number,
                None => self@.slot_of(record_number) < 0,
            },
    {
        match self.slot(record_number) {
            Some(idx) => Some(self.sequence_numbers[idx]),
            None => None,
        }
    }

    /// All rows in dense order, with their strings decoded.
    pub fn entries(&self) -> (v: Vec<FileEntry>)
        requires
            self.wf(),
        ensures
            v@.len() == self@.rows.len(),
            forall|i: int| 0 <= i < v@.len() ==> (#[trigger] v@[i]).describes(self@, i),
            forall|i: int| 0 <= i < v@.len() ==> (#[trigger] v@[i]).names_nul_free(),
    {
        let n = self.record_numbers.len();
        let mut v: Vec<FileEntry> = Vec::new();
        for idx in 0..n
            invariant
                self.wf(),
                n == self@.rows.len(),
                v@.len() == idx,
                forall|i: int| 0 <= i < v@.len() ==> (#[trigger] v@[i]).describes(self@, i),
                forall|i: int| 0 <= i < v@.len() ==> (#[trigger] v@[i]).names_nul_free(),
        {
            v.push(self.entry_at(idx));
        }
        v
    }

    /// The active rows in dense order, with their strings decoded.
    pub fn active_entries(&self) -> (v: Vec<FileEntry>)
        requires
            self.wf(),
        ensures
            v@.len() == active_slots(self@.rows, self@.rows.len() as int).len(),
            forall|k: int|
                0 <= k < v@.len() ==> (#[trigger] v@[k]).describes(
                    self@,
                    active_slots(self@.rows, self@.rows.len() as int)[k],
                ),
            forall|k: int| 0 <= k < v@.len() ==> (#[trigger] v@[k]).names_nul_free(),
    {
        let n = self.record_numbers.len();
        let mut v: Vec<FileEntry> = Vec::new();
        for idx in 0..n
            invariant
                self.wf(),
                n == self@.rows.len(),
                v@.len() == active_slots(self@.rows, idx as int).len(),
                forall|k: int|
                    0 <= k < v@.len() ==> (#[trigger] v@[k]).describes(
                        self@,
                        active_slots(self@.rows, idx as int)[k],
                    ),
                forall|k: int| 0 <= k < v@.len() ==> (#[trigger] v@[k]).names_nul_free(),
        {
            if self.is_active[idx] {
                v.push(self.entry_at(idx));
            }
            assert(active_slots(self@.rows, idx + 1) == if self@.rows[idx as int].is_active {
                active_slots(self@.rows, idx as int).push(idx as int)
            } else {
                active_slots(self@.rows, idx as int)
            });
        }
        v
    }

    pub(crate) fn record_numbers_ref(&self) -> (c: &[u64])
        requires
            self.wf(),
        ensures
            c@ == self@.rows.map_values(|row: CatalogRow| row.record_number),
    {
        assert(self.record_numbers@ =~= self@.rows.map_values(|row: CatalogRow| row.record_number));
        self.record_numbers.as_slice()
    }
    pub(crate) fn sequence_numbers_ref(&self) -> (c: &[u16])
        requires
            self.wf(),
        ensures
            c@ == self@.rows.map_values(|row: CatalogRow| row.sequence_number),
    {
        assert(self.sequence_numbers@ =~= self@.rows.map_values(|row: CatalogRow| row.sequence_number));
        self.sequence_numbers.as_slice()
    }
    pub(crate) fn parent_records_ref(&self) -> (c: &[u64])
        requires
            self.wf(),
        ensures
            c@ == self@.rows.map_values(|row: CatalogRow| row.parent_record),
    {
        assert(self.parent_records@ =~= self@.rows.map_values(|row: CatalogRow| row.parent_record));
        self.parent_records.as_slice()
    }
    pub(crate) fn parent_sequences_ref(&self) -> (c: &[u16])
        requires
            self.wf(),
        ensures
            c@ == self@.rows.map_values(|row: CatalogRow| row.parent_sequence),
    {
        assert(self.parent_sequences@ =~= self@.rows.map_values(|row: CatalogRow| row.parent_sequence));
        self.parent_sequences.as_slice()
    }
    pub(crate) fn file_sizes_ref(&self) -> (c: &[u64])
        requires
            self.wf(),
        ensures
            c@ == self@.rows.map_values(|row: CatalogRow| row.file_size),
    {
        assert(self.file_sizes@ =~= self@.rows.map_values(|row: CatalogRow| row.file_size));
        self.file_sizes.as_slice()
    }
    pub(crate) fn created_times_ref(&self) -> (c: &[u64])
        requires
            self.wf(),
        ensures
            c@ == self@.rows.map_values(|row: CatalogRow| row.timestamps.created),
    {
        assert(self.created_times@ =~= self@.rows.map_values(|row: CatalogRow| row.timestamps.created));
        self.created_times.as_slice()
    }
    pub(crate) fn modified_times_ref(&self) -> (c: &[u64])
        requires
            self.wf(),
        ensures
            c@ == self@.rows.map_values(|row: CatalogRow| row.timestamps.modified),
    {
        assert(self.modified_times@ =~= self@.rows.map_values(|row: CatalogRow| row.timestamps.modified));
        self.modified_times.as_slice()
    }
    pub(crate) fn mft_modified_times_ref(&self) -> (c: &[u64])
        requires
            self.wf(),
        ensures
            c@ == self@.rows.map_values(|row: CatalogRow| row.timestamps.mft_modified),
    {
        assert(self.mft_modified_times@ =~= self@.rows.map_values(|row: CatalogRow| row.timestamps.mft_modified));
        self.mft_modified_times.as_slice()
    }
    pub(crate) fn accessed_times_ref(&self) -> (c: &[u64])
        requires
            self.wf(),
        ensures
            c@ == self@.rows.map_values(|row: CatalogRow| row.timestamps.accessed),
    {
        assert(self.accessed_times@ =~= self@.rows.map_values(|row: CatalogRow| row.timestamps.accessed));
        self.accessed_times.as_slice()
    }
    pub(crate) fn filename_ids_ref(&self) -> (c: &[u32])
        requires
            self.wf(),
        ensures
            c@ == self@.rows.map_values(|row: CatalogRow| row.filename_id),
    {
        assert(self.filename_ids@ =~= self@.rows.map_values(|row: CatalogRow| row.filename_id));
        self.filename_ids.as_slice()
    }
    pub(crate) fn path_ids_ref(&self) -> (c: &[u32])
        requires
            self.wf(),
        ensures
            c@ == self@.rows.map_values(|row: CatalogRow| row.path_id),
    {
        assert(self.path_ids@ =~= self@.rows.map_values(|row: CatalogRow| row.path_id));
        self.path_ids.as_slice()
    }
    pub(crate) fn parent_valid_ref(&self) -> (c: &[bool])
        requires
            self.wf(),
        ensures
            c@ == self@.rows.map_values(|row: CatalogRow| row.parent_valid),
    {
        assert(self.parent_valid@ =~= self@.rows.map_values(|row: CatalogRow| row.parent_valid));
        self.parent_valid.as_slice()
    }
    pub(crate) fn is_active_ref(&self) -> (c: &[bool])
        requires
            self.wf(),
        ensures
            c@ == self@.rows.map_values(|row: CatalogRow| row.is_active),
    {
        assert(self.is_active@ =~= self@.rows.map_values(|row: CatalogRow| row.is_active));
        self.is_active.as_slice()
    }
    pub(crate) fn string_pool_ref(&self) -> (p: &[u8])
        ensures
            p@ == self@.pool,
    {
        self.string_pool.as_slice()
    }

    /// Rebuilds the record index from the record-number column: each record
    /// number maps to the last row that holds it.
    fn rebuild_index(&mut self)
        requires
            old(self).columns_aligned(),
        ensures
            final(self).wf(),
            final(self)@ == old(self)@,
    {
        self.record_index.clear();
        let n = self.record_numbers.len();
        for idx in 0..n
            invariant
                n == self.record_numbers@.len(),
                self.columns_aligned(),
                self@ == old(self)@,
                forall|r: u64|
                    #[trigger] self.record_index@.contains_key(r) == (last_slot(
                        self@.rows.take(idx as int),
                        r,
                    ) >= 0) && (self.record_index@.contains_key(r) ==> self.record_index@[r] as int
                        == last_slot(self@.rows.take(idx as int), r)),
        {
            let rec = self.record_numbers[idx];
            self.record_index.insert(rec, idx);
            assert forall|r: u64|
                #[trigger] self.record_index@.contains_key(r) == (last_slot(
                    self@.rows.take(idx + 1),
                    r,
                ) >= 0) && (self.record_index@.contains_key(r) ==> self.record_index@[r] as int
                    == last_slot(self@.rows.take(idx + 1), r)) by {
                assert(self@.rows.take(idx + 1) =~= self@.rows.take(idx as int).push(self@.rows[idx as int]));
                lemma_last_slot_push(self@.rows.take(idx as int), self@.rows[idx as int], r);
                lemma_last_slot(self@.rows.take(idx as int), r);
            }
        }
        assert(self@.rows.take(n as int) =~= self@.rows);
    }

    /// A catalog made of the given columns, one row per entry of
    /// `record_numbers`, with its record index built.
    pub(crate) fn set_from_columns(
        drive_letter: char,
        record_numbers: Vec<u64>,
        sequence_numbers: Vec<u16>,
        parent_records: Vec<u64>,
        parent_sequences: Vec<u16>,
        file_sizes: Vec<u64>,
        created_times: Vec<u64>,
        modified_times: Vec<u64>,
        mft_modified_times: Vec<u64>,
        accessed_times: Vec<u64>,
        filename_ids: Vec<u32>,
        path_ids: Vec<u32>,
        parent_valid: Vec<bool>,
        is_active: Vec<bool>,
        string_pool: Vec<u8>,
    ) -> (c: Catalog)
        requires
            sequence_numbers@.len() == record_numbers@.len(),
            parent_records@.len() == record_numbers@.len(),
            parent_sequences@.len() == record_numbers@.len(),
            file_sizes@.len() == record_numbers@.len(),
            created_times@.len() == record_numbers@.len(),
            modified_times@.len() == record_numbers@.len(),
            mft_modified_times@.len() == record_numbers@.len(),
            accessed_times@.len() == record_numbers@.len(),
            filename_ids@.len() == record_numbers@.len(),
            path_ids@.len() == record_numbers@.len(),
            parent_valid@.len() == record_numbers@.len(),
            is_active@.len() == record_numbers@.len(),
        ensures
            c.wf(),
            c@.drive_letter == drive_letter,
            c@.pool == string_pool@,
            c@.rows == Seq::new(
                record_numbers@.len(),
                |i: int|
                    CatalogRow {
                        record_number: record_numbers@[i],
                        sequence_number: sequence_numbers@[i],
                        parent_record: parent_records@[i],
                        parent_sequence: parent_sequences@[i],
                        file_size: file_sizes@[i],
                        timestamps: FileTimestamps {
                            created: created_times@[i],
                            modified: modified_times@[i],
                            mft_modified: mft_modified_times@[i],
                            accessed: accessed_times@[i],
                        },
                        filename_id: filename_ids@[i],
                        path_id: path_ids@[i],
                        parent_valid: parent_valid@[i],
                        is_active: is_active@[i],
                    },
            ),
    {
        let mut cat = Catalog {
            record_index: HashMap::new(),
            record_numbers,
            sequence_numbers,
            parent_records,
            parent_sequences,
            file_sizes,
            created_times,
            modified_times,
            mft_modified_times,
            accessed_times,
            filename_ids,
            path_ids,
            parent_valid,
            is_active,
            string_pool,
            drive_letter,
        };
        cat.rebuild_index();
        cat
    }

    /// The string with pool id `id`.
    fn string_at(&self, id: u32) -> (s: String)
        ensures
            s@ == pool_string(self@.pool, id),
            !s@.contains('\0'),
    {
        let len = self.string_pool.len();
        if id as usize >= len {
            let e = String::new();
            assert(e@ =~= Seq::<char>::empty());
            return e;
        }
        let start = id as usize;
        let mut end = start;
        while end < len && self.string_pool[end] != 0
            invariant
                start <= end <= len,
                len == self.string_pool@.len(),
                start < len,
                terminator(self.string_pool@, start as int) == terminator(
                    self.string_pool@,
                    end as int,
                ),
                forall|j: int| start <= j < end ==> self.string_pool@[j] != 0,
            decreases len - end,
        {
            end = end + 1;
        }
        let mut bytes: Vec<u8> = Vec::new();
        let mut k = start;
        while k < end
            invariant
                start <= k <= end <= len,
                len == self.string_pool@.len(),
                bytes@ == self.string_pool@.subrange(start as int, k as int),
            decreases end - k,
        {
            bytes.push(self.string_pool[k]);
            k = k + 1;
            assert(bytes@ =~= self.string_pool@.subrange(start as int, k as int));
        }
        assert(!bytes@.contains(0u8)) by {
            if bytes@.contains(0u8) {
                let j = choose|j: int| 0 <= j < bytes@.len() && bytes@[j] == 0u8;
                assert(self.string_pool@[start + j] == 0);
            }
        }
        string_from_utf8_lossy(bytes.as_slice())
    }
}

} // verus!
