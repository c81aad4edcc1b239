//! Sequences of mutating calls on a catalog, and what every such sequence
//! keeps.
use vstd::prelude::*;

use crate::catalog::{lemma_last_slot, pool_append, CatalogRow, CatalogView};
use crate::mft::FileTimestamps;
use crate::path_reconstruct::reconstructed;

verus! {

/// One mutating call on a catalog, with its arguments: `upsert_entry`,
/// `intern_string` or `reconstruct_paths`.
pub enum CatalogCall {
    Upsert {
        record_number: u64,
        sequence_number: u16,
        parent_record: u64,
        parent_sequence: u16,
        filename: Seq<char>,
        path: Seq<char>,
        file_size: u64,
        timestamps: FileTimestamps,
        parent_valid: bool,
        is_active: bool,
    },
    Intern { text: Seq<char> },
    Reconstruct,
}

/// The catalog that `Catalog::new(drive_letter)` makes.
pub open spec fn empty_catalog(drive_letter: char) -> CatalogView {
    CatalogView { rows: Seq::empty(), pool: Seq::empty(), drive_letter }
}

/// The catalog after one call, as the call's contract states it.
pub open spec fn after_call(v: CatalogView, c: CatalogCall) -> CatalogView {
    match c {
        CatalogCall::Upsert {
            record_number,
            sequence_number,
            parent_record,
            parent_sequence,
            filename,
            path,
            file_size,
            timestamps,
            parent_valid,
            is_active,
        } => v.upsert(
            record_number,
            sequence_number,
            parent_record,
            parent_sequence,
            filename,
            path,
            file_size,
            timestamps,
            parent_valid,
            is_active,
        ),
        CatalogCall::Intern { text } => CatalogView {
            rows: v.rows,
            pool: pool_append(v.pool, text),
            drive_letter: v.drive_letter,
        },
        CatalogCall::Reconstruct => reconstructed(v),
    }
}

/// The catalog after the calls `cs`, made in order.
pub open spec fn after_calls(v: CatalogView, cs: Seq<CatalogCall>) -> CatalogView
    decreases cs.len(),
{
    if cs.len() == 0 {
        v
    } else {
        after_call(after_calls(v, cs.drop_last()), cs.last())
    }
}

/// The record numbers of the rows, in dense order.
pub open spec fn record_numbers(v: CatalogView) -> Seq<u64> {
    v.rows.map_values(|row: CatalogRow| row.record_number)
}

/// The record numbers that the upserts among `cs` name, in call order.
pub open spec fn upserted_records(cs: Seq<CatalogCall>) -> Seq<u64>
    decreases cs.len(),
{
    if cs.len() == 0 {
        Seq::empty()
    } else {
        let earlier = upserted_records(cs.drop_last());
        match cs.last() {
            CatalogCall::Upsert { record_number, .. } => earlier.push(record_number),
            _ => earlier,
        }
    }
}

/// Each value of `rs` once, in the order of its first occurrence.
pub open spec fn distinct_in_order(rs: Seq<u64>) -> Seq<u64>
    decreases rs.len(),
{
    if rs.len() == 0 {
        Seq::empty()
    } else {
        let earlier = distinct_in_order(rs.drop_last());
        if earlier.contains(rs.last()) {
            earlier
        } else {
            earlier.push(rs.last())
        }
    }
}

/// `distinct_in_order` holds each value of its input once and nothing else.
proof fn lemma_distinct_in_order(rs: Seq<u64>)
    ensures
        distinct_in_order(rs).no_duplicates(),
        forall|r: u64| #[trigger] distinct_in_order(rs).contains(r) == rs.contains(r),
    decreases rs.len(),
{
    if rs.len() > 0 {
        let init = rs.drop_last();
        lemma_distinct_in_order(init);
        let earlier = distinct_in_order(init);
        assert forall|r: u64| #[trigger] distinct_in_order(rs).contains(r) == rs.contains(r) by {
            if rs.contains(r) && r != rs.last() {
                let j = choose|j: int| 0 <= j < rs.len() && rs[j] == r;
                assert(init[j] == r);
            }
            if init.contains(r) {
                let j = choose|j: int| 0 <= j < init.len() && init[j] == r;
                assert(rs[j] == r);
            }
            if !earlier.contains(rs.last()) {
                assert(earlier.push(rs.last())[earlier.len() as int] == rs.last());
                if earlier.push(rs.last()).contains(r) && r != rs.last() {
                    let j = choose|j: int| 0 <= j < earlier.len() + 1 && earlier.push(rs.last())[j] == r;
                    assert(earlier[j] == r);
                }
                if earlier.contains(r) {
                    let j = choose|j: int| 0 <= j < earlier.len() && earlier[j] == r;
                    assert(earlier.push(rs.last())[j] == r);
                }
            }
            assert(rs[rs.len() - 1] == rs.last());
        }
    }
}

/// Whatever calls are made on a catalog, in whatever order, its drive
/// letter stays the one it had before them.
pub proof fn law_calls_keep_drive_letter(v: CatalogView, cs: Seq<CatalogCall>)
    ensures
        after_calls(v, cs).drive_letter == v.drive_letter,
    decreases cs.len(),
{
    if cs.len() > 0 {
        law_calls_keep_drive_letter(v, cs.drop_last());
    }
}

/// One call changes the record numbers only by an upsert of a record
/// number that no row holds yet, which is appended.
proof fn lemma_call_record_numbers(v: CatalogView, c: CatalogCall)
    ensures
        record_numbers(after_call(v, c)) == match c {
            CatalogCall::Upsert { record_number, .. } => if record_numbers(v).contains(record_number) {
                record_numbers(v)
            } else {
                record_numbers(v).push(record_number)
            },
            _ => record_numbers(v),
        },
{
    let w = after_call(v, c);
    match c {
        CatalogCall::Upsert { record_number, .. } => {
            let r = record_number;
            lemma_last_slot(v.rows, r);
            let s = v.slot_of(r);
            if s >= 0 {
                assert(record_numbers(v)[s] == r);
                assert(record_numbers(w) =~= record_numbers(v));
            } else {
                assert(!record_numbers(v).contains(r)) by {
                    if record_numbers(v).contains(r) {
                        let j = choose|j: int| 0 <= j < record_numbers(v).len() && record_numbers(v)[j] == r;
                        assert(v.rows[j].record_number == r);
                    }
                }
                assert(record_numbers(w) =~= record_numbers(v).push(r));
            }
        },
        CatalogCall::Intern { .. } => {
            assert(record_numbers(w) =~= record_numbers(v));
        },
        CatalogCall::Reconstruct => {
            assert(record_numbers(w) =~= record_numbers(v));
        },
    }
}

/// Starting from a new catalog, after any sequence of calls the rows hold
/// the upserted record numbers, each exactly once, in the order in which
/// each was first upserted; so the catalog has as many rows as distinct
/// record numbers were upserted, and upserting a record number again, or
/// interning strings, or reconstructing paths, adds no row.
pub proof fn law_rows_follow_first_upserts(drive_letter: char, cs: Seq<CatalogCall>)
    ensures
        record_numbers(after_calls(empty_catalog(drive_letter), cs)) == distinct_in_order(upserted_records(cs)),
        record_numbers(after_calls(empty_catalog(drive_letter), cs)).no_duplicates(),
        after_calls(empty_catalog(drive_letter), cs).rows.len() == upserted_records(cs).to_set().len(),
    decreases cs.len(),
{
    let v = after_calls(empty_catalog(drive_letter), cs);
    let rs = upserted_records(cs);
    if cs.len() == 0 {
        assert(record_numbers(v) =~= Seq::<u64>::empty());
    } else {
        law_rows_follow_first_upserts(drive_letter, cs.drop_last());
        let u = after_calls(empty_catalog(drive_letter), cs.drop_last());
        lemma_call_record_numbers(u, cs.last());
        let prev = upserted_records(cs.drop_last());
        lemma_distinct_in_order(prev);
        match cs.last() {
            CatalogCall::Upsert { record_number, .. } => {
                assert(rs.drop_last() =~= prev);
            },
            _ => {},
        }
    }
    lemma_distinct_in_order(rs);
    distinct_in_order(rs).unique_seq_to_set();
    assert(distinct_in_order(rs).to_set() =~= rs.to_set());
}

} // verus!
