//! The on-disk catalog format: a 256-byte header, a table of 13 column
//! descriptors, the 8-byte-aligned column data, the string pool, and
//! zero padding up to a multiple of 4096 bytes. All integers are
//! little-endian.
use vstd::bytes::*;
use vstd::prelude::*;
use vstd::slice::{slice_subrange, slice_to_vec};

use crate::catalog::{Catalog, CatalogRow, CatalogView};
use crate::mft::{le16, le32, le64, read_u16, read_u32, read_u64, FileTimestamps};
use crate::text::char_from_u32;

verus! {

/// Size of the file header, including its reserved tail.
pub const HEADER_SIZE: usize = 256;
/// Format version written and accepted.
pub const FORMAT_VERSION: u32 = 2;
pub const NUM_COLUMNS: usize = 13;
pub const DESCRIPTOR_SIZE: usize = 32;
pub const DESCRIPTOR_TABLE_SIZE: usize = 416;
/// Offset of the first column: header plus descriptor table.
pub const DATA_START: usize = 672;

pub const COL_RECORD_NUMBERS: u32 = 1;
pub const COL_SEQUENCE: u32 = 2;
pub const COL_PARENT_RECORD: u32 = 3;
pub const COL_PARENT_SEQ: u32 = 4;
pub const COL_FILE_SIZE: u32 = 5;
pub const COL_FILENAME_ID: u32 = 6;
pub const COL_PATH_ID: u32 = 7;
pub const COL_PARENT_VALID: u32 = 8;
pub const COL_IS_ACTIVE: u32 = 9;
pub const COL_CREATED: u32 = 10;
pub const COL_MODIFIED: u32 = 11;
pub const COL_MFT_MODIFIED: u32 = 12;
pub const COL_ACCESSED: u32 = 13;

/// A column's values laid end to end, each encoded by `enc`.
pub open spec fn encode_column<T>(v: Seq<T>, enc: spec_fn(T) -> Seq<u8>) -> Seq<u8>
    decreases v.len(),
{
    if v.len() == 0 {
        Seq::empty()
    } else {
        encode_column(v.drop_last(), enc) + enc(v.last())
    }
}

pub open spec fn enc64() -> spec_fn(u64) -> Seq<u8> {
    |x: u64| spec_u64_to_le_bytes(x)
}

pub open spec fn enc32() -> spec_fn(u32) -> Seq<u8> {
    |x: u32| spec_u32_to_le_bytes(x)
}

pub open spec fn enc16() -> spec_fn(u16) -> Seq<u8> {
    |x: u16| spec_u16_to_le_bytes(x)
}

pub open spec fn enc_bool() -> spec_fn(bool) -> Seq<u8> {
    |b: bool| seq![if b { 1u8 } else { 0u8 }]
}

/// Number of zero bytes that pad `n` bytes to a multiple of eight.
pub open spec fn pad8_len(n: int) -> int {
    (8 - n % 8) % 8
}

/// `n` rounded up to a multiple of eight.
pub open spec fn align8(n: int) -> int {
    n + pad8_len(n)
}

pub open spec fn zeros(n: int) -> Seq<u8> {
    Seq::new(if n < 0 { 0 } else { n as nat }, |i: int| 0u8)
}

/// `s` followed by zero padding to a multiple of eight bytes.
pub open spec fn padded(s: Seq<u8>) -> Seq<u8> {
    s + zeros(pad8_len(s.len() as int))
}

/// Where each value of an encoded column lies.
pub proof fn lemma_encode_column<T>(v: Seq<T>, enc: spec_fn(T) -> Seq<u8>, w: int)
    requires
        w >= 1,
        forall|x: T| #[trigger] enc(x).len() == w,
    ensures
        encode_column(v, enc).len() == w * v.len(),
        forall|i: int|
            0 <= i < v.len() ==> #[trigger] encode_column(v, enc).subrange(w * i, w * i + w) == enc(
                v[i],
            ),
    decreases v.len(),
{
    if v.len() == 0 {
        assert(w * v.len() == 0) by (nonlinear_arith)
            requires
                v.len() == 0,
        ;
    } else {
        let p = v.drop_last();
        lemma_encode_column(p, enc, w);
        let n = v.len() as int;
        assert(w * (n - 1) + w == w * n) by (nonlinear_arith);
        let e = encode_column(v, enc);
        assert forall|i: int| 0 <= i < v.len() implies #[trigger] e.subrange(w * i, w * i + w)
            == enc(v[i]) by {
            if i < n - 1 {
                assert(w * i + w <= w * (n - 1)) by (nonlinear_arith)
                    requires
                        i < n - 1,
                        w >= 1,
                ;
                assert(0 <= w * i) by (nonlinear_arith)
                    requires
                        0 <= i,
                        w >= 1,
                ;
                assert(e.subrange(w * i, w * i + w) =~= encode_column(p, enc).subrange(
                    w * i,
                    w * i + w,
                ));
                assert(p[i] == v[i]);
            } else {
                assert(e.subrange(w * i, w * i + w) =~= enc(v.last()));
            }
        }
    }
}

/// Appends `s`'s bytes and zero padding to a multiple of eight.
fn push_padding(out: &mut Vec<u8>, written: usize)
    ensures
        final(out)@ == old(out)@ + zeros(pad8_len(written as int)),
{
    let pad = (8 - written % 8) % 8;
    let mut k: usize = 0;
    while k < pad
        invariant
            k <= pad,
            pad == pad8_len(written as int),
            out@ == old(out)@ + zeros(k as int),
        decreases pad - k,
    {
        out.push(0);
        k = k + 1;
        assert(out@ =~= old(out)@ + zeros(k as int));
    }
}

fn push_u64_column(out: &mut Vec<u8>, v: &[u64])
    requires
        8 * v@.len() <= usize::MAX,
    ensures
        final(out)@ == old(out)@ + padded(encode_column(v@, enc64())),
{
    proof {
        lemma_auto_spec_u64_to_from_le_bytes();
        lemma_encode_column(v@, enc64(), 8);
    }
    let n = v.len();
    for i in 0..n
        invariant
            n == v@.len(),
            out@ == old(out)@ + encode_column(v@.take(i as int), enc64()),
    {
        let b = u64_to_le_bytes(v[i]);
        out.extend_from_slice(b.as_slice());
        assert(v@.take(i + 1).drop_last() =~= v@.take(i as int));
        assert(out@ =~= old(out)@ + encode_column(v@.take(i + 1), enc64()));
    }
    assert(v@.take(n as int) =~= v@);
    push_padding(out, n * 8);
    assert(out@ =~= old(out)@ + padded(encode_column(v@, enc64())));
}

fn push_u32_column(out: &mut Vec<u8>, v: &[u32])
    requires
        4 * v@.len() <= usize::MAX,
    ensures
        final(out)@ == old(out)@ + padded(encode_column(v@, enc32())),
{
    proof {
        lemma_auto_spec_u32_to_from_le_bytes();
        lemma_encode_column(v@, enc32(), 4);
    }
    let n = v.len();
    for i in 0..n
        invariant
            n == v@.len(),
            out@ == old(out)@ + encode_column(v@.take(i as int), enc32()),
    {
        let b = u32_to_le_bytes(v[i]);
        out.extend_from_slice(b.as_slice());
        assert(v@.take(i + 1).drop_last() =~= v@.take(i as int));
        assert(out@ =~= old(out)@ + encode_column(v@.take(i + 1), enc32()));
    }
    assert(v@.take(n as int) =~= v@);
    push_padding(out, n * 4);
    assert(out@ =~= old(out)@ + padded(encode_column(v@, enc32())));
}

fn push_u16_column(out: &mut Vec<u8>, v: &[u16])
    requires
        2 * v@.len() <= usize::MAX,
    ensures
        final(out)@ == old(out)@ + padded(encode_column(v@, enc16())),
{
    proof {
        lemma_auto_spec_u16_to_from_le_bytes();
        lemma_encode_column(v@, enc16(), 2);
    }
    let n = v.len();
    for i in 0..n
        invariant
            n == v@.len(),
            out@ == old(out)@ + encode_column(v@.take(i as int), enc16()),
    {
        let b = u16_to_le_bytes(v[i]);
        out.extend_from_slice(b.as_slice());
        assert(v@.take(i + 1).drop_last() =~= v@.take(i as int));
        assert(out@ =~= old(out)@ + encode_column(v@.take(i + 1), enc16()));
    }
    assert(v@.take(n as int) =~= v@);
    push_padding(out, n * 2);
    assert(out@ =~= old(out)@ + padded(encode_column(v@, enc16())));
}

fn push_bool_column(out: &mut Vec<u8>, v: &[bool])
    ensures
        final(out)@ == old(out)@ + padded(encode_column(v@, enc_bool())),
{
    proof {
        lemma_encode_column(v@, enc_bool(), 1);
    }
    let n = v.len();
    for i in 0..n
        invariant
            n == v@.len(),
            out@ == old(out)@ + encode_column(v@.take(i as int), enc_bool()),
    {
        out.push(if v[i] { 1u8 } else { 0u8 });
        assert(v@.take(i + 1).drop_last() =~= v@.take(i as int));
        assert(out@ =~= old(out)@ + encode_column(v@.take(i + 1), enc_bool()));
    }
    assert(v@.take(n as int) =~= v@);
    push_padding(out, n);
    assert(out@ =~= old(out)@ + padded(encode_column(v@, enc_bool())));
}

/// The first `count` values (or as many as fit) of a column of 8-byte values.
pub open spec fn read_col64(buf: Seq<u8>, count: int) -> Seq<u64> {
    Seq::new(
        (if count < buf.len() / 8 { if count < 0 { 0 } else { count } } else { buf.len() as int / 8 }) as nat,
        |i: int| le64(buf, 8 * i),
    )
}

pub open spec fn read_col32(buf: Seq<u8>, count: int) -> Seq<u32> {
    Seq::new(
        (if count < buf.len() / 4 { if count < 0 { 0 } else { count } } else { buf.len() as int / 4 }) as nat,
        |i: int| le32(buf, 4 * i),
    )
}

pub open spec fn read_col16(buf: Seq<u8>, count: int) -> Seq<u16> {
    Seq::new(
        (if count < buf.len() / 2 { if count < 0 { 0 } else { count } } else { buf.len() as int / 2 }) as nat,
        |i: int| le16(buf, 2 * i),
    )
}

pub open spec fn read_bools(buf: Seq<u8>, count: int) -> Seq<bool> {
    Seq::new(
        (if count < buf.len() { if count < 0 { 0 } else { count } } else { buf.len() as int }) as nat,
        |i: int| buf[i] != 0,
    )
}

fn read_u64_column(buf: &[u8], count: u64) -> (v: Vec<u64>)
    ensures
        v@ == read_col64(buf@, count as int),
{
    let len = buf.len();
    let mut v: Vec<u64> = Vec::new();
    let mut i: usize = 0;
    while (i as u64) < count && len / 8 > i
        invariant
            len == buf@.len(),
            i <= len / 8,
            i <= count,
            v@ == Seq::new(i as nat, |j: int| le64(buf@, 8 * j)),
        decreases len / 8 - i,
    {
        v.push(read_u64(buf, i * 8));
        i = i + 1;
        assert(v@ =~= Seq::new(i as nat, |j: int| le64(buf@, 8 * j)));
    }
    assert(v@ =~= read_col64(buf@, count as int));
    v
}

fn read_u32_column(buf: &[u8], count: u64) -> (v: Vec<u32>)
    ensures
        v@ == read_col32(buf@, count as int),
{
    let len = buf.len();
    let mut v: Vec<u32> = Vec::new();
    let mut i: usize = 0;
    while (i as u64) < count && len / 4 > i
        invariant
            len == buf@.len(),
            i <= len / 4,
            i <= count,
            v@ == Seq::new(i as nat, |j: int| le32(buf@, 4 * j)),
        decreases len / 4 - i,
    {
        v.push(read_u32(buf, i * 4));
        i = i + 1;
        assert(v@ =~= Seq::new(i as nat, |j: int| le32(buf@, 4 * j)));
    }
    assert(v@ =~= read_col32(buf@, count as int));
    v
}

fn read_u16_column(buf: &[u8], count: u64) -> (v: Vec<u16>)
    ensures
        v@ == read_col16(buf@, count as int),
{
    let len = buf.len();
    let mut v: Vec<u16> = Vec::new();
    let mut i: usize = 0;
    while (i as u64) < count && len / 2 > i
        invariant
            len == buf@.len(),
            i <= len / 2,
            i <= count,
            v@ == Seq::new(i as nat, |j: int| le16(buf@, 2 * j)),
        decreases len / 2 - i,
    {
        v.push(read_u16(buf, i * 2));
        i = i + 1;
        assert(v@ =~= Seq::new(i as nat, |j: int| le16(buf@, 2 * j)));
    }
    assert(v@ =~= read_col16(buf@, count as int));
    v
}

fn read_bool_column(buf: &[u8], count: u64) -> (v: Vec<bool>)
    ensures
        v@ == read_bools(buf@, count as int),
{
    let len = buf.len();
    let mut v: Vec<bool> = Vec::new();
    let mut i: usize = 0;
    while (i as u64) < count && i < len
        invariant
            len == buf@.len(),
            i <= len,
            i <= count,
            v@ == Seq::new(i as nat, |j: int| buf@[j] != 0),
        decreases len - i,
    {
        v.push(buf[i] != 0);
        i = i + 1;
        assert(v@ =~= Seq::new(i as nat, |j: int| buf@[j] != 0));
    }
    assert(v@ =~= read_bools(buf@, count as int));
    v
}

} // verus!

verus! {

/// "NTFSCAT1", the first eight bytes of a catalog file.
pub open spec fn catalog_magic() -> Seq<u8> {
    seq![0x4Eu8, 0x54u8, 0x46u8, 0x53u8, 0x43u8, 0x41u8, 0x54u8, 0x31u8]
}

/// Element width in bytes of the `k`-th column (columns are written in the
/// order of their ids, id `k + 1` at position `k`).
pub open spec fn col_width(k: int) -> int {
    if k == 1 || k == 3 {
        2
    } else if k == 5 || k == 6 {
        4
    } else if k == 7 || k == 8 {
        1
    } else {
        8
    }
}

/// Byte offset of the `k`-th column in a catalog of `n` rows.
pub open spec fn col_offset(n: int, k: int) -> int
    decreases k,
{
    if k <= 0 {
        DATA_START as int
    } else {
        col_offset(n, k - 1) + align8(col_width(k - 1) * n)
    }
}

/// The encoded values of the `k`-th column of `c`, before padding.
pub open spec fn column_bytes(c: CatalogView, k: int) -> Seq<u8> {
    let rows = c.rows;
    if k == 0 {
        encode_column(rows.map_values(|r: CatalogRow| r.record_number), enc64())
    } else if k == 1 {
        encode_column(rows.map_values(|r: CatalogRow| r.sequence_number), enc16())
    } else if k == 2 {
        encode_column(rows.map_values(|r: CatalogRow| r.parent_record), enc64())
    } else if k == 3 {
        encode_column(rows.map_values(|r: CatalogRow| r.parent_sequence), enc16())
    } else if k == 4 {
        encode_column(rows.map_values(|r: CatalogRow| r.file_size), enc64())
    } else if k == 5 {
        encode_column(rows.map_values(|r: CatalogRow| r.filename_id), enc32())
    } else if k == 6 {
        encode_column(rows.map_values(|r: CatalogRow| r.path_id), enc32())
    } else if k == 7 {
        encode_column(rows.map_values(|r: CatalogRow| r.parent_valid), enc_bool())
    } else if k == 8 {
        encode_column(rows.map_values(|r: CatalogRow| r.is_active), enc_bool())
    } else if k == 9 {
        encode_column(rows.map_values(|r: CatalogRow| r.timestamps.created), enc64())
    } else if k == 10 {
        encode_column(rows.map_values(|r: CatalogRow| r.timestamps.modified), enc64())
    } else if k == 11 {
        encode_column(rows.map_values(|r: CatalogRow| r.timestamps.mft_modified), enc64())
    } else {
        encode_column(rows.map_values(|r: CatalogRow| r.timestamps.accessed), enc64())
    }
}

/// The first `k` padded columns of `c`.
pub open spec fn body_upto(c: CatalogView, k: int) -> Seq<u8>
    decreases k,
{
    if k <= 0 {
        Seq::empty()
    } else {
        body_upto(c, k - 1) + padded(column_bytes(c, k - 1))
    }
}

/// The padded columns `j..k` of `c`.
pub open spec fn body_range(c: CatalogView, j: int, k: int) -> Seq<u8>
    decreases k - j,
{
    if k <= j {
        Seq::empty()
    } else {
        body_range(c, j, k - 1) + padded(column_bytes(c, k - 1))
    }
}

proof fn lemma_body_split(c: CatalogView, j: int, k: int)
    requires
        0 <= j <= k,
    ensures
        body_upto(c, k) == body_upto(c, j) + body_range(c, j, k),
    decreases k - j,
{
    if k > j {
        lemma_body_split(c, j, k - 1);
        assert(body_upto(c, k) =~= body_upto(c, j) + body_range(c, j, k));
    } else {
        assert(body_upto(c, k) =~= body_upto(c, j) + body_range(c, j, k));
    }
}

proof fn lemma_descriptors_len(n: int, k: int)
    requires
        0 <= k,
    ensures
        descriptors_upto(n, k).len() == 32 * k,
    decreases k,
{
    lemma_auto_spec_u64_to_from_le_bytes();
    lemma_auto_spec_u32_to_from_le_bytes();
    if k > 0 {
        lemma_descriptors_len(n, k - 1);
    }
}

proof fn lemma_header_len(c: CatalogView)
    ensures
        header_bytes(c).len() == HEADER_SIZE,
{
    lemma_auto_spec_u64_to_from_le_bytes();
    lemma_auto_spec_u32_to_from_le_bytes();
    lemma_auto_spec_u16_to_from_le_bytes();
}

/// One 32-byte column descriptor.
pub open spec fn descriptor_bytes(id: u32, offset: u64, elem_size: u32, count: u64) -> Seq<u8> {
    spec_u32_to_le_bytes(id) + zeros(4) + spec_u64_to_le_bytes(offset) + spec_u32_to_le_bytes(
        elem_size,
    ) + zeros(4) + spec_u64_to_le_bytes(count)
}

/// The descriptor of the `k`-th column of a catalog of `n` rows.
pub open spec fn column_descriptor(n: int, k: int) -> Seq<u8> {
    descriptor_bytes((k + 1) as u32, col_offset(n, k) as u64, col_width(k) as u32, n as u64)
}

/// The descriptors of the first `k` columns.
pub open spec fn descriptors_upto(n: int, k: int) -> Seq<u8>
    decreases k,
{
    if k <= 0 {
        Seq::empty()
    } else {
        descriptors_upto(n, k - 1) + column_descriptor(n, k - 1)
    }
}

/// The 256-byte file header of `c`.
pub open spec fn header_bytes(c: CatalogView) -> Seq<u8> {
    catalog_magic() + spec_u32_to_le_bytes(FORMAT_VERSION) + spec_u16_to_le_bytes(
        (c.drive_letter as u32) as u16,
    ) + spec_u16_to_le_bytes(0) + spec_u64_to_le_bytes(c.rows.len() as u64)
        + spec_u64_to_le_bytes(c.pool.len() as u64) + zeros(224)
}

/// Zero bytes that pad `n` bytes to a multiple of 4096.
pub open spec fn pad4096_len(n: int) -> int {
    (4096 - n % 4096) % 4096
}

/// The bytes of the catalog file that `save_catalog` writes for `c`.
pub open spec fn encode_spec(c: CatalogView) -> Seq<u8> {
    let body = body_upto(c, 13);
    header_bytes(c) + descriptors_upto(c.rows.len() as int, 13) + body + c.pool + zeros(
        pad4096_len(DATA_START + body.len() + c.pool.len()),
    )
}

/// A catalog small enough that every offset of its encoding fits in memory.
pub open spec fn encodable(c: CatalogView) -> bool {
    70 * c.rows.len() + c.pool.len() + 8192 <= usize::MAX
}

/// Total element width of the first `k` columns.
pub open spec fn width_sum(k: int) -> int
    decreases k,
{
    if k <= 0 {
        0
    } else {
        width_sum(k - 1) + col_width(k - 1)
    }
}

proof fn lemma_col_offset(n: int, k: int)
    requires
        0 <= k <= 13,
        n >= 0,
    ensures
        DATA_START <= col_offset(n, k) <= DATA_START + width_sum(k) * n + 8 * k,
        col_offset(n, k) % 8 == 0,
        width_sum(k) <= 70,
        width_sum(k) * n <= 70 * n,
    decreases k,
{
    reveal_with_fuel(width_sum, 14);
    if k > 0 {
        lemma_col_offset(n, k - 1);
        let w = col_width(k - 1);
        let x = w * n;
        assert(0 <= x) by (nonlinear_arith)
            requires
                1 <= w <= 8,
                n >= 0,
                x == w * n,
        ;
        assert(width_sum(k) * n == width_sum(k - 1) * n + x) by (nonlinear_arith)
            requires
                width_sum(k) == width_sum(k - 1) + w,
                x == w * n,
        ;
        assert(width_sum(k) * n <= 70 * n) by (nonlinear_arith)
            requires
                width_sum(k) <= 70,
                n >= 0,
        ;
        assert(align8(x) % 8 == 0 && x <= align8(x) <= x + 7);
    } else {
        assert(width_sum(k) * n == 0) by (nonlinear_arith)
            requires
                width_sum(k) == 0,
        ;
    }
}

proof fn lemma_body_len(c: CatalogView, k: int)
    requires
        0 <= k <= 13,
    ensures
        body_upto(c, k).len() == col_offset(c.rows.len() as int, k) - DATA_START,
    decreases k,
{
    if k > 0 {
        lemma_body_len(c, k - 1);
        lemma_column_bytes_len(c, k - 1);
    }
}

proof fn lemma_column_bytes_len(c: CatalogView, k: int)
    requires
        0 <= k < 13,
    ensures
        column_bytes(c, k).len() == col_width(k) * c.rows.len(),
        padded(column_bytes(c, k)).len() == align8(col_width(k) * c.rows.len()),
{
    lemma_auto_spec_u64_to_from_le_bytes();
    lemma_auto_spec_u32_to_from_le_bytes();
    lemma_auto_spec_u16_to_from_le_bytes();
    let rows = c.rows;
    if k == 0 {
        lemma_encode_column(rows.map_values(|r: CatalogRow| r.record_number), enc64(), 8);
    } else if k == 1 {
        lemma_encode_column(rows.map_values(|r: CatalogRow| r.sequence_number), enc16(), 2);
    } else if k == 2 {
        lemma_encode_column(rows.map_values(|r: CatalogRow| r.parent_record), enc64(), 8);
    } else if k == 3 {
        lemma_encode_column(rows.map_values(|r: CatalogRow| r.parent_sequence), enc16(), 2);
    } else if k == 4 {
        lemma_encode_column(rows.map_values(|r: CatalogRow| r.file_size), enc64(), 8);
    } else if k == 5 {
        lemma_encode_column(rows.map_values(|r: CatalogRow| r.filename_id), enc32(), 4);
    } else if k == 6 {
        lemma_encode_column(rows.map_values(|r: CatalogRow| r.path_id), enc32(), 4);
    } else if k == 7 {
        lemma_encode_column(rows.map_values(|r: CatalogRow| r.parent_valid), enc_bool(), 1);
    } else if k == 8 {
        lemma_encode_column(rows.map_values(|r: CatalogRow| r.is_active), enc_bool(), 1);
    } else if k == 9 {
        lemma_encode_column(rows.map_values(|r: CatalogRow| r.timestamps.created), enc64(), 8);
    } else if k == 10 {
        lemma_encode_column(rows.map_values(|r: CatalogRow| r.timestamps.modified), enc64(), 8);
    } else if k == 11 {
        lemma_encode_column(
            rows.map_values(|r: CatalogRow| r.timestamps.mft_modified),
            enc64(),
            8,
        );
    } else {
        lemma_encode_column(rows.map_values(|r: CatalogRow| r.timestamps.accessed), enc64(), 8);
    }
}

/// Element width of the `k`-th column.
fn column_width(k: usize) -> (w: usize)
    ensures
        w == col_width(k as int),
{
    if k == 1 || k == 3 {
        2
    } else if k == 5 || k == 6 {
        4
    } else if k == 7 || k == 8 {
        1
    } else {
        8
    }
}

fn push_bytes(out: &mut Vec<u8>, b: &[u8])
    ensures
        final(out)@ == old(out)@ + b@,
{
    out.extend_from_slice(b);
    assert(out@ =~= old(out)@ + b@);
}

fn push_zeros(out: &mut Vec<u8>, n: usize)
    ensures
        final(out)@ == old(out)@ + zeros(n as int),
{
    let mut k: usize = 0;
    while k < n
        invariant
            k <= n,
            out@ == old(out)@ + zeros(k as int),
        decreases n - k,
    {
        out.push(0);
        k = k + 1;
        assert(out@ =~= old(out)@ + zeros(k as int));
    }
}

fn push_header(out: &mut Vec<u8>, catalog: &Catalog)
    requires
        catalog.wf(),
    ensures
        final(out)@ == old(out)@ + header_bytes(catalog@),
{
    let ghost start = out@;
    let n = catalog.len();
    let pool_len = catalog.string_pool_ref().len();
    out.push(0x4E);
    out.push(0x54);
    out.push(0x46);
    out.push(0x53);
    out.push(0x43);
    out.push(0x41);
    out.push(0x54);
    out.push(0x31);
    assert(out@ =~= start + catalog_magic());
    push_bytes(out, u32_to_le_bytes(FORMAT_VERSION).as_slice());
    let drive = #[verifier::truncate] ((catalog.drive_letter() as u32) as u16);
    push_bytes(out, u16_to_le_bytes(drive).as_slice());
    push_bytes(out, u16_to_le_bytes(0).as_slice());
    push_bytes(out, u64_to_le_bytes(n as u64).as_slice());
    push_bytes(out, u64_to_le_bytes(pool_len as u64).as_slice());
    push_zeros(out, 224);
    assert(out@ =~= start + header_bytes(catalog@));
}

fn push_descriptors(out: &mut Vec<u8>, n: usize)
    requires
        70 * n + 8192 <= usize::MAX,
    ensures
        final(out)@ == old(out)@ + descriptors_upto(n as int, 13),
{
    let ghost head = out@;
    let mut data_offset: usize = DATA_START;
    for k in 0..NUM_COLUMNS
        invariant
            70 * n + 8192 <= usize::MAX,
            data_offset == col_offset(n as int, k as int),
            out@ == head + descriptors_upto(n as int, k as int),
    {
        proof {
            lemma_col_offset(n as int, k as int);
            lemma_col_offset(n as int, k + 1);
        }
        let w = column_width(k);
        push_bytes(out, u32_to_le_bytes((k + 1) as u32).as_slice());
        push_zeros(out, 4);
        push_bytes(out, u64_to_le_bytes(data_offset as u64).as_slice());
        push_bytes(out, u32_to_le_bytes(w as u32).as_slice());
        push_zeros(out, 4);
        push_bytes(out, u64_to_le_bytes(n as u64).as_slice());
        assert(out@ =~= head + descriptors_upto(n as int, k + 1));
        let len = w * n;
        data_offset = data_offset + len + (8 - len % 8) % 8;
    }
}

#[verifier::rlimit(40)]
fn push_columns_a(out: &mut Vec<u8>, catalog: &Catalog)
    requires
        catalog.wf(),
        encodable(catalog@),
    ensures
        final(out)@ == old(out)@ + body_upto(catalog@, 7),
{
    let ghost c = catalog@;
    let ghost start = out@;
    assert(out@ =~= start + body_upto(c, 0));
    push_u64_column(out, catalog.record_numbers_ref());
    assert(out@ =~= start + body_upto(c, 1));
    push_u16_column(out, catalog.sequence_numbers_ref());
    assert(out@ =~= start + body_upto(c, 2));
    push_u64_column(out, catalog.parent_records_ref());
    assert(out@ =~= start + body_upto(c, 3));
    push_u16_column(out, catalog.parent_sequences_ref());
    assert(out@ =~= start + body_upto(c, 4));
    push_u64_column(out, catalog.file_sizes_ref());
    assert(out@ =~= start + body_upto(c, 5));
    push_u32_column(out, catalog.filename_ids_ref());
    assert(out@ =~= start + body_upto(c, 6));
    push_u32_column(out, catalog.path_ids_ref());
    assert(out@ =~= start + body_upto(c, 7));
}

#[verifier::rlimit(40)]
fn push_columns_b(out: &mut Vec<u8>, catalog: &Catalog)
    requires
        catalog.wf(),
        encodable(catalog@),
    ensures
        final(out)@ == old(out)@ + body_range(catalog@, 7, 13),
{
    let ghost c = catalog@;
    let ghost start = out@;
    assert(out@ =~= start + body_range(c, 7, 7));
    push_bool_column(out, catalog.parent_valid_ref());
    assert(out@ =~= start + body_range(c, 7, 8));
    push_bool_column(out, catalog.is_active_ref());
    assert(out@ =~= start + body_range(c, 7, 9));
    push_u64_column(out, catalog.created_times_ref());
    assert(out@ =~= start + body_range(c, 7, 10));
    push_u64_column(out, catalog.modified_times_ref());
    assert(out@ =~= start + body_range(c, 7, 11));
    push_u64_column(out, catalog.mft_modified_times_ref());
    assert(out@ =~= start + body_range(c, 7, 12));
    push_u64_column(out, catalog.accessed_times_ref());
    assert(out@ =~= start + body_range(c, 7, 13));
}

/// Whether `catalog` is small enough to be encoded (see `encodable`).
pub fn fits_encoding(catalog: &Catalog) -> (b: bool)
    requires
        catalog.wf(),
    ensures
        b == encodable(catalog@),
{
    let n = catalog.len();
    let pool = catalog.string_pool_ref().len();
    if n > (usize::MAX - 8192) / 70 {
        return false;
    }
    let fixed = 70 * n + 8192;
    pool <= usize::MAX - fixed
}

/// Encodes a catalog into the bytes of a catalog file.
pub fn encode_catalog(catalog: &Catalog) -> (bytes: Vec<u8>)
    requires
        catalog.wf(),
        encodable(catalog@),
    ensures
        bytes@ == encode_spec(catalog@),
{
    let ghost c = catalog@;
    let n = catalog.len();
    let mut out: Vec<u8> = Vec::new();
    push_header(&mut out, catalog);
    push_descriptors(&mut out, n);
    let ghost tabled = out@;
    push_columns_a(&mut out, catalog);
    push_columns_b(&mut out, catalog);
    proof {
        lemma_body_split(c, 7, 13);
        lemma_body_len(c, 13);
        lemma_col_offset(n as int, 13);
        lemma_header_len(c);
        lemma_descriptors_len(n as int, 13);
    }
    assert(out@ =~= header_bytes(c) + descriptors_upto(n as int, 13) + body_upto(c, 13));
    push_bytes(&mut out, catalog.string_pool_ref());
    let written = out.len();
    push_zeros(&mut out, (4096 - written % 4096) % 4096);
    assert(out@ =~= encode_spec(c));
    out
}

} // verus!

verus! {

/// Why catalog bytes were rejected.
#[derive(Debug, Clone, Copy, PartialEq, Eq, Structural)]
pub enum PersistError {
    /// Shorter than the header and descriptor table.
    FileTooSmall,
    /// The first eight bytes are not "NTFSCAT1".
    InvalidMagic,
    /// The header names another format version (given).
    UnsupportedVersion(u32),
    /// The column with this id reaches past the end of the data.
    ColumnOutOfBounds(u32),
    /// The decoded columns do not all hold one value per record: a column
    /// whose descriptor counts fewer values than the header's record count
    /// (its values are read only as far as it holds them), or a column that
    /// no descriptor names. A catalog holds one value per row in every
    /// column (see `Catalog::wf`), and reading a row past the end of a
    /// shorter column has no value to read, so such data is refused here
    /// rather than loaded with columns of unequal length.
    ColumnLengthMismatch,
}

/// The columns decoded so far, as sequences.
pub struct DecodedColumns {
    pub record_numbers: Seq<u64>,
    pub sequence_numbers: Seq<u16>,
    pub parent_records: Seq<u64>,
    pub parent_sequences: Seq<u16>,
    pub file_sizes: Seq<u64>,
    pub filename_ids: Seq<u32>,
    pub path_ids: Seq<u32>,
    pub parent_valid: Seq<bool>,
    pub is_active: Seq<bool>,
    pub created_times: Seq<u64>,
    pub modified_times: Seq<u64>,
    pub mft_modified_times: Seq<u64>,
    pub accessed_times: Seq<u64>,
}

pub open spec fn no_columns() -> DecodedColumns {
    DecodedColumns {
        record_numbers: Seq::empty(),
        sequence_numbers: Seq::empty(),
        parent_records: Seq::empty(),
        parent_sequences: Seq::empty(),
        file_sizes: Seq::empty(),
        filename_ids: Seq::empty(),
        path_ids: Seq::empty(),
        parent_valid: Seq::empty(),
        is_active: Seq::empty(),
        created_times: Seq::empty(),
        modified_times: Seq::empty(),
        mft_modified_times: Seq::empty(),
        accessed_times: Seq::empty(),
    }
}

/// The columns after reading column `id` from `buf` (an unknown id
/// changes nothing; a repeated id replaces the earlier column).
pub open spec fn assign_column(
    cols: DecodedColumns,
    id: u32,
    buf: Seq<u8>,
    count: int,
) -> DecodedColumns {
    if id == COL_RECORD_NUMBERS {
        DecodedColumns { record_numbers: read_col64(buf, count), ..cols }
    } else if id == COL_SEQUENCE {
        DecodedColumns { sequence_numbers: read_col16(buf, count), ..cols }
    } else if id == COL_PARENT_RECORD {
        DecodedColumns { parent_records: read_col64(buf, count), ..cols }
    } else if id == COL_PARENT_SEQ {
        DecodedColumns { parent_sequences: read_col16(buf, count), ..cols }
    } else if id == COL_FILE_SIZE {
        DecodedColumns { file_sizes: read_col64(buf, count), ..cols }
    } else if id == COL_FILENAME_ID {
        DecodedColumns { filename_ids: read_col32(buf, count), ..cols }
    } else if id == COL_PATH_ID {
        DecodedColumns { path_ids: read_col32(buf, count), ..cols }
    } else if id == COL_PARENT_VALID {
        DecodedColumns { parent_valid: read_bools(buf, count), ..cols }
    } else if id == COL_IS_ACTIVE {
        DecodedColumns { is_active: read_bools(buf, count), ..cols }
    } else if id == COL_CREATED {
        DecodedColumns { created_times: read_col64(buf, count), ..cols }
    } else if id == COL_MODIFIED {
        DecodedColumns { modified_times: read_col64(buf, count), ..cols }
    } else if id == COL_MFT_MODIFIED {
        DecodedColumns { mft_modified_times: read_col64(buf, count), ..cols }
    } else if id == COL_ACCESSED {
        DecodedColumns { accessed_times: read_col64(buf, count), ..cols }
    } else {
        cols
    }
}

pub open spec fn desc_base(k: int) -> int {
    HEADER_SIZE + DESCRIPTOR_SIZE * k
}

/// Byte span of the `k`-th descriptor's column: its size rounded up to eight.
pub open spec fn desc_span(data: Seq<u8>, k: int) -> int {
    align8(le32(data, desc_base(k) + 16) * le64(data, desc_base(k) + 24))
}

/// Reads the columns of descriptors `0..k` in order.
pub open spec fn decode_columns(data: Seq<u8>, count: int, k: int) -> Result<
    DecodedColumns,
    PersistError,
>
    decreases k,
{
    if k <= 0 {
        Ok(no_columns())
    } else {
        match decode_columns(data, count, k - 1) {
            Err(e) => Err(e),
            Ok(cols) => {
                let base = desc_base(k - 1);
                let id = le32(data, base);
                let off = le64(data, base + 8) as int;
                let span = desc_span(data, k - 1);
                if off + span > data.len() {
                    Err(PersistError::ColumnOutOfBounds(id))
                } else {
                    Ok(assign_column(cols, id, data.subrange(off, off + span), count))
                }
            },
        }
    }
}

/// Every column holds one value per record number.
pub open spec fn columns_consistent(c: DecodedColumns) -> bool {
    let n = c.record_numbers.len();
    &&& c.sequence_numbers.len() == n
    &&& c.parent_records.len() == n
    &&& c.parent_sequences.len() == n
    &&& c.file_sizes.len() == n
    &&& c.filename_ids.len() == n
    &&& c.path_ids.len() == n
    &&& c.parent_valid.len() == n
    &&& c.is_active.len() == n
    &&& c.created_times.len() == n
    &&& c.modified_times.len() == n
    &&& c.mft_modified_times.len() == n
    &&& c.accessed_times.len() == n
}

/// The catalog rows that consistent columns hold.
pub open spec fn rows_of(c: DecodedColumns) -> Seq<CatalogRow> {
    Seq::new(
        c.record_numbers.len(),
        |i: int|
            CatalogRow {
                record_number: c.record_numbers[i],
                sequence_number: c.sequence_numbers[i],
                parent_record: c.parent_records[i],
                parent_sequence: c.parent_sequences[i],
                file_size: c.file_sizes[i],
                timestamps: FileTimestamps {
                    created: c.created_times[i],
                    modified: c.modified_times[i],
                    mft_modified: c.mft_modified_times[i],
                    accessed: c.accessed_times[i],
                },
                filename_id: c.filename_ids[i],
                path_id: c.path_ids[i],
                parent_valid: c.parent_valid[i],
                is_active: c.is_active[i],
            },
    )
}

/// The drive letter stored in the header, or '?' when the stored code is
/// not a character.
pub open spec fn stored_drive(data: Seq<u8>) -> char {
    let raw = le16(data, 12) as u32;
    if vstd::utf8::is_scalar(raw) {
        raw as char
    } else {
        '?'
    }
}

/// The string pool: the `pool_size` bytes after the last column when they
/// lie inside the data, otherwise that many zero bytes.
pub open spec fn stored_pool(data: Seq<u8>) -> Seq<u8> {
    let pool_size = le64(data, 24) as int;
    let last_end = le64(data, desc_base(12) + 8) + desc_span(data, 12);
    if pool_size > 0 && last_end + pool_size <= data.len() {
        data.subrange(last_end, last_end + pool_size)
    } else {
        zeros(pool_size)
    }
}

/// What loading catalog bytes yields. Columns are decoded up to the
/// header's record count, each only as far as its own data reaches; when
/// they come out of unequal lengths the load fails with
/// `ColumnLengthMismatch` instead of producing a catalog.
pub open spec fn load_outcome(data: Seq<u8>) -> Result<CatalogView, PersistError> {
    if data.len() < DATA_START {
        Err(PersistError::FileTooSmall)
    } else if data.subrange(0, 8) != catalog_magic() {
        Err(PersistError::InvalidMagic)
    } else if le32(data, 8) != FORMAT_VERSION {
        Err(PersistError::UnsupportedVersion(le32(data, 8)))
    } else {
        match decode_columns(data, le64(data, 16) as int, 13) {
            Err(e) => Err(e),
            Ok(cols) => if columns_consistent(cols) {
                Ok(
                    CatalogView {
                        rows: rows_of(cols),
                        pool: stored_pool(data),
                        drive_letter: stored_drive(data),
                    },
                )
            } else {
                Err(PersistError::ColumnLengthMismatch)
            },
        }
    }
}

/// Once a descriptor is rejected, the whole decoding fails with its error.
proof fn lemma_decode_err_sticks(data: Seq<u8>, count: int, j: int, m: int)
    requires
        0 <= j <= m,
        decode_columns(data, count, j) is Err,
    ensures
        decode_columns(data, count, m) == decode_columns(data, count, j),
    decreases m - j,
{
    if m > j {
        lemma_decode_err_sticks(data, count, j, m - 1);
    }
}

/// `x` rounded up to a multiple of eight.
fn align_up8(x: u128) -> (r: u128)
    requires
        x <= u64::MAX * u64::MAX,
    ensures
        r == align8(x as int),
{
    x + (8 - x % 8) % 8
}

/// Decodes a catalog from the bytes of a catalog file; see `load_outcome`.
/// Data whose columns decode to unequal lengths is refused with
/// `ColumnLengthMismatch`, since a catalog keeps one value per row in every
/// column.
pub fn load_catalog_from_bytes(data: &[u8]) -> (res: Result<Catalog, PersistError>)
    ensures
        match load_outcome(data@) {
            Ok(v) => res is Ok && res->Ok_0.wf() && res->Ok_0@ == v,
            Err(e) => res is Err && res->Err_0 == e,
        },
{
    let len = data.len();
    if len < DATA_START {
        return Err(PersistError::FileTooSmall);
    }
    let mut m: usize = 0;
    let magic: [u8; 8] = [0x4E, 0x54, 0x46, 0x53, 0x43, 0x41, 0x54, 0x31];
    assert(magic@ == catalog_magic());
    while m < 8
        invariant
            m <= 8,
            len == data@.len(),
            len >= DATA_START,
            magic@ == catalog_magic(),
            data@.subrange(0, m as int) == catalog_magic().subrange(0, m as int),
        decreases 8 - m,
    {
        if data[m] != magic[m] {
            assert(data@.subrange(0, 8)[m as int] != catalog_magic()[m as int]);
            return Err(PersistError::InvalidMagic);
        }
        m = m + 1;
        assert(data@.subrange(0, m as int) =~= catalog_magic().subrange(0, m as int));
    }
    assert(data@.subrange(0, 8) =~= catalog_magic());
    let version = read_u32(data, 8);
    if version != FORMAT_VERSION {
        return Err(PersistError::UnsupportedVersion(version));
    }
    let raw_drive = read_u16(data, 12);
    let drive_letter = match char_from_u32(raw_drive as u32) {
        Some(c) => {
            proof {
                vstd::utf8::char_u32_cast(c, raw_drive as u32);
            }
            c
        },
        None => '?',
    };
    let count = read_u64(data, 16);
    let mut record_numbers: Vec<u64> = Vec::new();
    let mut sequence_numbers: Vec<u16> = Vec::new();
    let mut parent_records: Vec<u64> = Vec::new();
    let mut parent_sequences: Vec<u16> = Vec::new();
    let mut file_sizes: Vec<u64> = Vec::new();
    let mut filename_ids: Vec<u32> = Vec::new();
    let mut path_ids: Vec<u32> = Vec::new();
    let mut parent_valid: Vec<bool> = Vec::new();
    let mut is_active: Vec<bool> = Vec::new();
    let mut created_times: Vec<u64> = Vec::new();
    let mut modified_times: Vec<u64> = Vec::new();
    let mut mft_modified_times: Vec<u64> = Vec::new();
    let mut accessed_times: Vec<u64> = Vec::new();
    for k in 0..NUM_COLUMNS
        invariant
            len == data@.len(),
            len >= DATA_START,
            count == le64(data@, 16),
            data@.subrange(0, 8) == catalog_magic(),
            le32(data@, 8) == FORMAT_VERSION,
            decode_columns(data@, count as int, k as int) == Ok::<DecodedColumns, PersistError>(
                DecodedColumns {
                    record_numbers: record_numbers@,
                    sequence_numbers: sequence_numbers@,
                    parent_records: parent_records@,
                    parent_sequences: parent_sequences@,
                    file_sizes: file_sizes@,
                    filename_ids: filename_ids@,
                    path_ids: path_ids@,
                    parent_valid: parent_valid@,
                    is_active: is_active@,
                    created_times: created_times@,
                    modified_times: modified_times@,
                    mft_modified_times: mft_modified_times@,
                    accessed_times: accessed_times@,
                },
            ),
    {
        let base = HEADER_SIZE + k * DESCRIPTOR_SIZE;
        let id = read_u32(data, base);
        let offset = read_u64(data, base + 8);
        let elem_size = read_u32(data, base + 16);
        let desc_count = read_u64(data, base + 24);
        assert((elem_size as u128) * (desc_count as u128) <= u64::MAX * u64::MAX) by (nonlinear_arith)
            requires
                elem_size <= u32::MAX,
                desc_count <= u64::MAX,
        ;
        let span = align_up8((elem_size as u128) * (desc_count as u128));
        let end = offset as u128 + span;
        if end > len as u128 {
            assert(base == desc_base(k as int));
            assert(span == desc_span(data@, k as int));
            assert(decode_columns(data@, count as int, k + 1) == Err::<DecodedColumns, PersistError>(PersistError::ColumnOutOfBounds(id)));
            proof {
                lemma_decode_err_sticks(data@, count as int, k + 1, 13);
            }
            return Err(PersistError::ColumnOutOfBounds(id));
        }
        let buf = slice_subrange(data, offset as usize, end as usize);
        if id == COL_RECORD_NUMBERS {
            record_numbers = read_u64_column(buf, count);
        } else if id == COL_SEQUENCE {
            sequence_numbers = read_u16_column(buf, count);
        } else if id == COL_PARENT_RECORD {
            parent_records = read_u64_column(buf, count);
        } else if id == COL_PARENT_SEQ {
            parent_sequences = read_u16_column(buf, count);
        } else if id == COL_FILE_SIZE {
            file_sizes = read_u64_column(buf, count);
        } else if id == COL_FILENAME_ID {
            filename_ids = read_u32_column(buf, count);
        } else if id == COL_PATH_ID {
            path_ids = read_u32_column(buf, count);
        } else if id == COL_PARENT_VALID {
            parent_valid = read_bool_column(buf, count);
        } else if id == COL_IS_ACTIVE {
            is_active = read_bool_column(buf, count);
        } else if id == COL_CREATED {
            created_times = read_u64_column(buf, count);
        } else if id == COL_MODIFIED {
            modified_times = read_u64_column(buf, count);
        } else if id == COL_MFT_MODIFIED {
            mft_modified_times = read_u64_column(buf, count);
        } else if id == COL_ACCESSED {
            accessed_times = read_u64_column(buf, count);
        }
    }
    let pool_size = read_u64(data, 24);
    let last_base = HEADER_SIZE + (NUM_COLUMNS - 1) * DESCRIPTOR_SIZE;
    let last_offset = read_u64(data, last_base + 8);
    let last_elem = read_u32(data, last_base + 16);
    let last_count = read_u64(data, last_base + 24);
    assert((last_elem as u128) * (last_count as u128) <= u64::MAX * u64::MAX) by (nonlinear_arith)
        requires
            last_elem <= u32::MAX,
            last_count <= u64::MAX,
    ;
    let last_end = last_offset as u128 + align_up8((last_elem as u128) * (last_count as u128));
    let string_pool: Vec<u8> = if pool_size > 0 && last_end + (pool_size as u128) <= len as u128 {
        slice_to_vec(slice_subrange(data, last_end as usize, (last_end + pool_size as u128) as usize))
    } else {
        let mut zero_pool: Vec<u8> = Vec::new();
        let mut i: u64 = 0;
        while i < pool_size
            invariant
                i <= pool_size,
                zero_pool@ == zeros(i as int),
            decreases pool_size - i,
        {
            zero_pool.push(0);
            i = i + 1;
            assert(zero_pool@ =~= zeros(i as int));
        }
        zero_pool
    };
    let n = record_numbers.len();
    if sequence_numbers.len() != n || parent_records.len() != n || parent_sequences.len() != n
        || file_sizes.len() != n || filename_ids.len() != n || path_ids.len() != n
        || parent_valid.len() != n || is_active.len() != n || created_times.len() != n
        || modified_times.len() != n || mft_modified_times.len() != n || accessed_times.len()
        != n {
        return Err(PersistError::ColumnLengthMismatch);
    }
    let cat = Catalog::set_from_columns(
        drive_letter,
        record_numbers,
        sequence_numbers,
        parent_records,
        parent_sequences,
        file_sizes,
        created_times,
        modified_times,
        mft_modified_times,
        accessed_times,
        filename_ids,
        path_ids,
        parent_valid,
        is_active,
        string_pool,
    );
    Ok(cat)
}

} // verus!

verus! {

/// Reading back a padded column of 8-byte values yields the column.
proof fn lemma_read_col64(v: Seq<u64>)
    ensures
        read_col64(padded(encode_column(v, enc64())), v.len() as int) == v,
{
    lemma_auto_spec_u64_to_from_le_bytes();
    lemma_encode_column(v, enc64(), 8);
    let e = encode_column(v, enc64());
    let buf = padded(e);
    assert(buf.len() / 8 >= v.len());
    assert forall|i: int| 0 <= i < v.len() implies #[trigger] le64(buf, 8 * i) == v[i] by {
        assert(buf.subrange(8 * i, 8 * i + 8) =~= e.subrange(8 * i, 8 * i + 8));
    }
    assert(read_col64(buf, v.len() as int) =~= v);
}

proof fn lemma_read_col32(v: Seq<u32>)
    ensures
        read_col32(padded(encode_column(v, enc32())), v.len() as int) == v,
{
    lemma_auto_spec_u32_to_from_le_bytes();
    lemma_encode_column(v, enc32(), 4);
    let e = encode_column(v, enc32());
    let buf = padded(e);
    assert(buf.len() / 4 >= v.len());
    assert forall|i: int| 0 <= i < v.len() implies #[trigger] le32(buf, 4 * i) == v[i] by {
        assert(buf.subrange(4 * i, 4 * i + 4) =~= e.subrange(4 * i, 4 * i + 4));
    }
    assert(read_col32(buf, v.len() as int) =~= v);
}

proof fn lemma_read_col16(v: Seq<u16>)
    ensures
        read_col16(padded(encode_column(v, enc16())), v.len() as int) == v,
{
    lemma_auto_spec_u16_to_from_le_bytes();
    lemma_encode_column(v, enc16(), 2);
    let e = encode_column(v, enc16());
    let buf = padded(e);
    assert(buf.len() / 2 >= v.len());
    assert forall|i: int| 0 <= i < v.len() implies #[trigger] le16(buf, 2 * i) == v[i] by {
        assert(buf.subrange(2 * i, 2 * i + 2) =~= e.subrange(2 * i, 2 * i + 2));
    }
    assert(read_col16(buf, v.len() as int) =~= v);
}

proof fn lemma_read_bools(v: Seq<bool>)
    ensures
        read_bools(padded(encode_column(v, enc_bool())), v.len() as int) == v,
{
    lemma_encode_column(v, enc_bool(), 1);
    let e = encode_column(v, enc_bool());
    let buf = padded(e);
    assert forall|i: int| 0 <= i < v.len() implies (#[trigger] buf[i] != 0) == v[i] by {
        assert(e.subrange(1 * i, 1 * i + 1)[0] == e[i]);
    }
    assert(read_bools(buf, v.len() as int) =~= v);
}

/// The columns of `c` as the decoder holds them after `k` descriptors.
pub open spec fn expected_columns(c: CatalogView, k: int) -> DecodedColumns {
    let rows = c.rows;
    DecodedColumns {
        record_numbers: if k > 0 { rows.map_values(|r: CatalogRow| r.record_number) } else { Seq::empty() },
        sequence_numbers: if k > 1 { rows.map_values(|r: CatalogRow| r.sequence_number) } else { Seq::empty() },
        parent_records: if k > 2 { rows.map_values(|r: CatalogRow| r.parent_record) } else { Seq::empty() },
        parent_sequences: if k > 3 { rows.map_values(|r: CatalogRow| r.parent_sequence) } else { Seq::empty() },
        file_sizes: if k > 4 { rows.map_values(|r: CatalogRow| r.file_size) } else { Seq::empty() },
        filename_ids: if k > 5 { rows.map_values(|r: CatalogRow| r.filename_id) } else { Seq::empty() },
        path_ids: if k > 6 { rows.map_values(|r: CatalogRow| r.path_id) } else { Seq::empty() },
        parent_valid: if k > 7 { rows.map_values(|r: CatalogRow| r.parent_valid) } else { Seq::empty() },
        is_active: if k > 8 { rows.map_values(|r: CatalogRow| r.is_active) } else { Seq::empty() },
        created_times: if k > 9 { rows.map_values(|r: CatalogRow| r.timestamps.created) } else { Seq::empty() },
        modified_times: if k > 10 { rows.map_values(|r: CatalogRow| r.timestamps.modified) } else { Seq::empty() },
        mft_modified_times: if k > 11 { rows.map_values(|r: CatalogRow| r.timestamps.mft_modified) } else { Seq::empty() },
        accessed_times: if k > 12 { rows.map_values(|r: CatalogRow| r.timestamps.accessed) } else { Seq::empty() },
    }
}

/// Reading the `k`-th encoded column advances the decoder's columns by one.
proof fn lemma_read_column(c: CatalogView, k: int)
    requires
        0 <= k < 13,
    ensures
        assign_column(
            expected_columns(c, k),
            (k + 1) as u32,
            padded(column_bytes(c, k)),
            c.rows.len() as int,
        ) == expected_columns(c, k + 1),
{
    let rows = c.rows;
    if k == 0 {
        lemma_read_col64(rows.map_values(|r: CatalogRow| r.record_number));
    } else if k == 1 {
        lemma_read_col16(rows.map_values(|r: CatalogRow| r.sequence_number));
    } else if k == 2 {
        lemma_read_col64(rows.map_values(|r: CatalogRow| r.parent_record));
    } else if k == 3 {
        lemma_read_col16(rows.map_values(|r: CatalogRow| r.parent_sequence));
    } else if k == 4 {
        lemma_read_col64(rows.map_values(|r: CatalogRow| r.file_size));
    } else if k == 5 {
        lemma_read_col32(rows.map_values(|r: CatalogRow| r.filename_id));
    } else if k == 6 {
        lemma_read_col32(rows.map_values(|r: CatalogRow| r.path_id));
    } else if k == 7 {
        lemma_read_bools(rows.map_values(|r: CatalogRow| r.parent_valid));
    } else if k == 8 {
        lemma_read_bools(rows.map_values(|r: CatalogRow| r.is_active));
    } else if k == 9 {
        lemma_read_col64(rows.map_values(|r: CatalogRow| r.timestamps.created));
    } else if k == 10 {
        lemma_read_col64(rows.map_values(|r: CatalogRow| r.timestamps.modified));
    } else if k == 11 {
        lemma_read_col64(rows.map_values(|r: CatalogRow| r.timestamps.mft_modified));
    } else {
        lemma_read_col64(rows.map_values(|r: CatalogRow| r.timestamps.accessed));
    }
}

/// Where each descriptor lies in the descriptor table.
proof fn lemma_descriptor_at(n: int, m: int, k: int)
    requires
        0 <= k < m,
    ensures
        descriptors_upto(n, m).subrange(32 * k, 32 * k + 32) == column_descriptor(n, k),
    decreases m,
{
    lemma_auto_spec_u64_to_from_le_bytes();
    lemma_auto_spec_u32_to_from_le_bytes();
    lemma_descriptors_len(n, m - 1);
    if k < m - 1 {
        lemma_descriptor_at(n, m - 1, k);
        assert(descriptors_upto(n, m).subrange(32 * k, 32 * k + 32) =~= descriptors_upto(
            n,
            m - 1,
        ).subrange(32 * k, 32 * k + 32));
    } else {
        assert(descriptors_upto(n, m).subrange(32 * k, 32 * k + 32) =~= column_descriptor(n, k));
    }
}

/// Where each padded column lies in the body.
proof fn lemma_column_at(c: CatalogView, m: int, k: int)
    requires
        0 <= k < m <= 13,
    ensures
        body_upto(c, m).subrange(
            col_offset(c.rows.len() as int, k) - DATA_START,
            col_offset(c.rows.len() as int, k + 1) - DATA_START,
        ) == padded(column_bytes(c, k)),
    decreases m,
{
    let n = c.rows.len() as int;
    lemma_body_len(c, m - 1);
    lemma_body_len(c, k);
    lemma_body_len(c, k + 1);
    lemma_column_bytes_len(c, k);
    if k < m - 1 {
        lemma_column_at(c, m - 1, k);
        lemma_col_offset_mono(n, k + 1, m - 1);
        assert(body_upto(c, m).subrange(col_offset(n, k) - DATA_START, col_offset(n, k + 1) - DATA_START)
            =~= body_upto(c, m - 1).subrange(col_offset(n, k) - DATA_START, col_offset(n, k + 1) - DATA_START));
    } else {
        assert(body_upto(c, m).subrange(col_offset(n, k) - DATA_START, col_offset(n, k + 1) - DATA_START)
            =~= padded(column_bytes(c, k)));
    }
}

proof fn lemma_col_offset_mono(n: int, j: int, k: int)
    requires
        0 <= j <= k,
        n >= 0,
    ensures
        col_offset(n, j) <= col_offset(n, k),
    decreases k - j,
{
    if k > j {
        lemma_col_offset_mono(n, j, k - 1);
        let w = col_width(k - 1);
        assert(0 <= w * n) by (nonlinear_arith)
            requires
                1 <= w,
                n >= 0,
        ;
    }
}

/// The encoded descriptor of column `j` reads back as written.
proof fn lemma_encoded_descriptor(c: CatalogView, j: int)
    requires
        0 <= j < 13,
        encodable(c),
    ensures
        le32(encode_spec(c), desc_base(j)) == j + 1,
        le64(encode_spec(c), desc_base(j) + 8) == col_offset(c.rows.len() as int, j),
        le32(encode_spec(c), desc_base(j) + 16) == col_width(j),
        le64(encode_spec(c), desc_base(j) + 24) == c.rows.len(),
{
    let n = c.rows.len() as int;
    let data = encode_spec(c);
    lemma_header_len(c);
    lemma_descriptors_len(n, 13);
    lemma_col_offset(n, j);
    lemma_descriptor_at(n, 13, j);
    lemma_auto_spec_u64_to_from_le_bytes();
    lemma_auto_spec_u32_to_from_le_bytes();
    let base = desc_base(j);
    let desc = column_descriptor(n, j);
    let d = descriptors_upto(n, 13);
    assert forall|x: int, y: int| 0 <= x <= y <= 32 implies #[trigger] data.subrange(base + x, base + y)
        == desc.subrange(x, y) by {
        assert(data.subrange(base + x, base + y) =~= d.subrange(32 * j + x, 32 * j + y));
        assert(d.subrange(32 * j + x, 32 * j + y) =~= d.subrange(32 * j, 32 * j + 32).subrange(x, y));
    }
    assert(desc.subrange(0, 4) =~= spec_u32_to_le_bytes((j + 1) as u32));
    assert(desc.subrange(8, 16) =~= spec_u64_to_le_bytes(col_offset(n, j) as u64));
    assert(desc.subrange(16, 20) =~= spec_u32_to_le_bytes(col_width(j) as u32));
    assert(desc.subrange(24, 32) =~= spec_u64_to_le_bytes(n as u64));
    assert(data.subrange(base + 0, base + 4) == desc.subrange(0, 4));
    assert(data.subrange(base + 8, base + 16) == desc.subrange(8, 16));
    assert(data.subrange(base + 16, base + 20) == desc.subrange(16, 20));
    assert(data.subrange(base + 24, base + 32) == desc.subrange(24, 32));
}

/// The encoded column `j` lies at its offset.
proof fn lemma_encoded_column(c: CatalogView, j: int)
    requires
        0 <= j < 13,
        encodable(c),
    ensures
        col_offset(c.rows.len() as int, j + 1) <= encode_spec(c).len(),
        encode_spec(c).subrange(
            col_offset(c.rows.len() as int, j),
            col_offset(c.rows.len() as int, j + 1),
        ) == padded(column_bytes(c, j)),
{
    let n = c.rows.len() as int;
    let data = encode_spec(c);
    let b = body_upto(c, 13);
    lemma_header_len(c);
    lemma_descriptors_len(n, 13);
    lemma_body_len(c, 13);
    lemma_col_offset(n, j);
    lemma_col_offset_mono(n, j + 1, 13);
    lemma_column_at(c, 13, j);
    assert(data.subrange(col_offset(n, j), col_offset(n, j + 1)) =~= b.subrange(
        col_offset(n, j) - DATA_START,
        col_offset(n, j + 1) - DATA_START,
    ));
}

/// Decoding the encoded descriptors and columns of `c` step by step.
proof fn lemma_decode_encoded(c: CatalogView, k: int)
    requires
        0 <= k <= 13,
        encodable(c),
    ensures
        decode_columns(encode_spec(c), c.rows.len() as int, k) == Ok::<
            DecodedColumns,
            PersistError,
        >(expected_columns(c, k)),
    decreases k,
{
    if k == 0 {
        assert(expected_columns(c, 0) == no_columns());
    } else {
        let n = c.rows.len() as int;
        let j = k - 1;
        lemma_decode_encoded(c, j);
        lemma_encoded_descriptor(c, j);
        lemma_encoded_column(c, j);
        lemma_read_column(c, j);
        lemma_col_offset(n, j);
        lemma_col_offset(n, j + 1);
    }
}

/// Saving and loading: decoding the bytes that `encode_catalog` produces
/// gives back the same catalog, rows, string pool and drive letter, for
/// every drive letter with a 16-bit code (the header stores 16 bits).
pub proof fn law_encode_load_roundtrip(c: CatalogView)
    requires
        encodable(c),
        (c.drive_letter as u32) < 0x10000,
    ensures
        load_outcome(encode_spec(c)) == Ok::<CatalogView, PersistError>(c),
{
    let n = c.rows.len() as int;
    let data = encode_spec(c);
    let h = header_bytes(c);
    let b = body_upto(c, 13);
    lemma_header_len(c);
    lemma_descriptors_len(n, 13);
    lemma_body_len(c, 13);
    lemma_col_offset(n, 12);
    lemma_col_offset(n, 13);
    lemma_auto_spec_u64_to_from_le_bytes();
    lemma_auto_spec_u32_to_from_le_bytes();
    lemma_auto_spec_u16_to_from_le_bytes();
    assert(data.subrange(0, 8) =~= catalog_magic());
    assert(data.subrange(8, 12) =~= spec_u32_to_le_bytes(FORMAT_VERSION));
    assert(data.subrange(12, 14) =~= spec_u16_to_le_bytes((c.drive_letter as u32) as u16));
    assert(data.subrange(16, 24) =~= spec_u64_to_le_bytes(n as u64));
    assert(data.subrange(24, 32) =~= spec_u64_to_le_bytes(c.pool.len() as u64));
    let raw = (c.drive_letter as u32) as u16;
    assert(raw as u32 == c.drive_letter as u32);
    vstd::utf8::char_is_scalar(c.drive_letter);
    vstd::utf8::char_u32_cast(c.drive_letter, raw as u32);
    assert(stored_drive(data) == c.drive_letter);
    lemma_decode_encoded(c, 13);
    let cols = expected_columns(c, 13);
    assert(rows_of(cols) =~= c.rows);
    lemma_descriptor_at(n, 13, 12);
    let base = desc_base(12);
    let desc = column_descriptor(n, 12);
    assert(data.subrange(base + 8, base + 16) =~= desc.subrange(8, 16));
    assert(desc.subrange(8, 16) =~= spec_u64_to_le_bytes(col_offset(n, 12) as u64));
    assert(data.subrange(base + 16, base + 20) =~= desc.subrange(16, 20));
    assert(desc.subrange(16, 20) =~= spec_u32_to_le_bytes(col_width(12) as u32));
    assert(data.subrange(base + 24, base + 32) =~= desc.subrange(24, 32));
    assert(desc.subrange(24, 32) =~= spec_u64_to_le_bytes(n as u64));
    let last_end = col_offset(n, 13);
    assert(data.subrange(last_end, last_end + c.pool.len()) =~= c.pool);
    assert(stored_pool(data) =~= c.pool);
}

} // verus!
