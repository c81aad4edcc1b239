//! Full-path reconstruction from MFT parent references, with memoisation
//! of directory paths.
use std::collections::HashMap;
use vstd::prelude::*;
use vstd::slice::slice_to_vec;

use crate::catalog::{
    appended_text, ends_in_pool, last_slot, lemma_appended_text_exact, lemma_last_slot, lemma_pool_append_keeps_ended,
    lemma_pool_append_reads, pool_append, pool_string, Catalog,
    CatalogRow, CatalogView,
};
use crate::mft::ROOT_RECORD;
use crate::text::{chars_of, string_from_chars};

verus! {

broadcast use vstd::std_specs::hash::group_hash_axioms;

/// `s` without its trailing backslashes.
pub open spec fn trim_backslashes(s: Seq<char>) -> Seq<char>
    decreases s.len(),
{
    if s.len() > 0 && s.last() == '\\' {
        trim_backslashes(s.drop_last())
    } else {
        s
    }
}

/// The path of the entry `name` inside a directory whose path is `dir`:
/// `\name` under an empty directory path, otherwise the directory path
/// without trailing backslashes, a backslash, and the name.
pub open spec fn join_path(dir: Seq<char>, name: Seq<char>) -> Seq<char> {
    if dir.len() == 0 {
        seq!['\\'] + name
    } else {
        trim_backslashes(dir) + seq!['\\'] + name
    }
}

/// Whether resolving the path of an entry named `name` under parent `p`
/// ends within `fuel` steps up the parent chain. A step is taken from a
/// parent that the catalog holds (other than the root); the walk stops at
/// an empty name, a zero parent, the root, or a parent the catalog lacks.
pub open spec fn chain_ends(v: CatalogView, p: u64, name: Seq<char>, fuel: nat) -> bool
    decreases fuel,
{
    let s = v.slot_of(p);
    if name.len() == 0 || p == 0 || p == ROOT_RECORD || s < 0 {
        true
    } else {
        fuel > 0 && chain_ends(v, v.rows[s].parent_record, v.filename_at(s), (fuel - 1) as nat)
    }
}

/// The path, the parent-validity flag and the memo after resolving an
/// entry named `name` whose parent reference is (`p`, `pseq`), given the
/// memo `memo` of directory paths already resolved.
///
/// A parent the memo holds gives its stored path; otherwise the parent's
/// own path is resolved from its row (its name and parent reference) and
/// stored. The flag is false when the name is empty, the parent is zero,
/// the parent's sequence number differs from `pseq`, the parent (other than
/// the root) is missing, or a resolution made on the way was invalid.
pub open spec fn build(
    v: CatalogView,
    p: u64,
    pseq: u16,
    name: Seq<char>,
    memo: Map<u64, Seq<char>>,
    fuel: nat,
) -> (Seq<char>, bool, Map<u64, Seq<char>>)
    decreases fuel,
{
    let s = v.slot_of(p);
    let seq_ok = if s >= 0 {
        v.rows[s].sequence_number == pseq
    } else {
        p == ROOT_RECORD
    };
    if name.len() == 0 {
        (Seq::empty(), false, memo)
    } else if p == 0 {
        (name, false, memo)
    } else if memo.contains_key(p) {
        (join_path(memo[p], name), seq_ok, memo)
    } else if p == ROOT_RECORD {
        (join_path(Seq::empty(), name), seq_ok, memo.insert(p, Seq::empty()))
    } else if s >= 0 {
        if fuel == 0 {
            (Seq::empty(), false, memo)
        } else {
            let up = build(
                v,
                v.rows[s].parent_record,
                v.rows[s].parent_sequence,
                v.filename_at(s),
                memo,
                (fuel - 1) as nat,
            );
            (join_path(up.0, name), seq_ok && up.1, up.2.insert(p, up.0))
        }
    } else {
        (join_path(Seq::empty(), name), false, memo.insert(p, Seq::empty()))
    }
}

/// The path and validity flag of row `i`, and the memo afterwards: the root
/// record gets `\` and is valid; any other row is resolved from its parent
/// reference and name, with as many steps as the catalog has rows.
pub open spec fn row_path(v: CatalogView, i: int, memo: Map<u64, Seq<char>>) -> (
    Seq<char>,
    bool,
    Map<u64, Seq<char>>,
) {
    let row = v.rows[i];
    if row.record_number == ROOT_RECORD {
        (seq!['\\'], true, memo)
    } else {
        build(v, row.parent_record, row.parent_sequence, v.filename_at(i), memo, v.rows.len())
    }
}

/// The memo before the first row: the root directory's path is empty.
pub open spec fn initial_memo() -> Map<u64, Seq<char>> {
    map![ROOT_RECORD => Seq::<char>::empty()]
}

/// Paths and validity flags of the first `k` rows, resolved in dense order
/// with one memo carried from row to row, and the memo afterwards.
pub open spec fn paths_upto(v: CatalogView, k: int) -> (Seq<Seq<char>>, Seq<bool>, Map<u64, Seq<char>>)
    decreases k,
{
    if k <= 0 {
        (Seq::empty(), Seq::empty(), initial_memo())
    } else {
        let prev = paths_upto(v, k - 1);
        let r = row_path(v, k - 1, prev.2);
        (prev.0.push(r.0), prev.1.push(r.1), r.2)
    }
}

/// The pool after appending each of `paths` in order.
pub open spec fn pool_with(pool: Seq<u8>, paths: Seq<Seq<char>>) -> Seq<u8>
    decreases paths.len(),
{
    if paths.len() == 0 {
        pool
    } else {
        pool_append(pool_with(pool, paths.drop_last()), paths.last())
    }
}

/// Row `i` with its path id and validity flag replaced.
pub open spec fn with_path(row: CatalogRow, path_id: u32, parent_valid: bool) -> CatalogRow {
    CatalogRow {
        record_number: row.record_number,
        sequence_number: row.sequence_number,
        parent_record: row.parent_record,
        parent_sequence: row.parent_sequence,
        file_size: row.file_size,
        timestamps: row.timestamps,
        filename_id: row.filename_id,
        path_id,
        parent_valid,
        is_active: row.is_active,
    }
}

/// The catalog after path reconstruction: every row's path is resolved
/// (see `row_path`) and appended to the pool in dense order, and the row
/// takes the new path id and validity flag. An empty catalog is unchanged.
pub open spec fn reconstructed(v: CatalogView) -> CatalogView {
    if v.rows.len() == 0 {
        v
    } else {
        let res = paths_upto(v, v.rows.len() as int);
        CatalogView {
            rows: Seq::new(
                v.rows.len(),
                |i: int| with_path(v.rows[i], pool_with(v.pool, res.0.take(i)).len() as u32, res.1[i]),
            ),
            pool: pool_with(v.pool, res.0),
            drive_letter: v.drive_letter,
        }
    }
}

/// Every row's parent chain ends (see `chain_ends`) within as many steps as
/// the catalog has rows. A chain that does not is a cycle of parent
/// references, on which resolution would never end.
pub open spec fn paths_terminate(v: CatalogView) -> bool {
    forall|i: int|
        0 <= i < v.rows.len() ==> #[trigger] v.rows[i].record_number == ROOT_RECORD || chain_ends(
            v,
            v.rows[i].parent_record,
            v.filename_at(i),
            v.rows.len(),
        )
}

/// The memo as a map from record numbers to path characters.
pub open spec fn memo_view(m: Map<u64, String>) -> Map<u64, Seq<char>> {
    m.map_values(|s: String| s@)
}

/// The path for an entry `name` in the directory whose path is `dir`.
fn join(dir: &String, name: &String) -> (r: String)
    ensures
        r@ == join_path(dir@, name@),
{
    let d = chars_of(dir.as_str());
    let n = chars_of(name.as_str());
    let mut end = d.len();
    assert(d@.take(end as int) =~= d@);
    if end > 0 {
        while end > 0 && d[end - 1] == '\\'
            invariant
                end <= d@.len(),
                d@.len() > 0,
                trim_backslashes(d@) == trim_backslashes(d@.take(end as int)),
            decreases end,
        {
            assert(d@.take(end as int).drop_last() =~= d@.take(end - 1));
            end = end - 1;
        }
        assert(trim_backslashes(d@.take(end as int)) == d@.take(end as int));
    }
    let mut out: Vec<char> = Vec::new();
    let mut k: usize = 0;
    while k < end
        invariant
            k <= end <= d@.len(),
            out@ == d@.take(k as int),
        decreases end - k,
    {
        out.push(d[k]);
        k = k + 1;
        assert(out@ =~= d@.take(k as int));
    }
    out.push('\\');
    let mut j: usize = 0;
    while j < n.len()
        invariant
            j <= n@.len(),
            out@ == d@.take(end as int) + seq!['\\'] + n@.take(j as int),
        decreases n@.len() - j,
    {
        out.push(n[j]);
        j = j + 1;
        assert(out@ =~= d@.take(end as int) + seq!['\\'] + n@.take(j as int));
    }
    assert(n@.take(n@.len() as int) =~= n@);
    if d.len() == 0 {
        assert(d@.take(0) =~= Seq::<char>::empty());
    } else {
        assert(d@.take(d@.len() as int) =~= d@);
    }
    string_from_chars(out.as_slice())
}

/// Resolves the path of an entry named `filename` under the parent
/// reference (`parent_record`, `expected_parent_seq`), storing each
/// directory path it resolves in `memo`.
fn build_path(
    catalog: &Catalog,
    parent_record: u64,
    expected_parent_seq: u16,
    filename: &String,
    memo: &mut HashMap<u64, String>,
    Ghost(fuel): Ghost<nat>,
) -> (r: (String, bool))
    requires
        catalog.wf(),
        chain_ends(catalog@, parent_record, filename@, fuel),
    ensures
        ({
            let b = build(catalog@, parent_record, expected_parent_seq, filename@, memo_view(old(memo)@), fuel);
            &&& r.0@ == b.0
            &&& r.1 == b.1
            &&& memo_view(final(memo)@) == b.2
        }),
    decreases fuel,
{
    let ghost v = catalog@;
    let ghost m0 = memo_view(memo@);
    if filename.as_str().is_empty() {
        return (String::new(), false);
    }
    if parent_record == 0 {
        return (filename.clone(), false);
    }
    let mut valid = true;
    match catalog.get_sequence(parent_record) {
        Some(actual_seq) => {
            if actual_seq != expected_parent_seq {
                valid = false;
            }
        },
        None => {
            if parent_record != ROOT_RECORD {
                valid = false;
            }
        },
    }
    let parent_path: String;
    match memo.get(&parent_record) {
        Some(cached) => {
            assert(memo_view(memo@)[parent_record] == cached@);
            parent_path = cached.clone();
        },
        None => {
            let built: String;
            if parent_record == ROOT_RECORD {
                built = String::new();
            } else {
                match catalog.get(parent_record) {
                    Some(entry) => {
                        let (p, pv) = build_path(
                            catalog,
                            entry.parent_record,
                            entry.parent_sequence,
                            &entry.filename,
                            memo,
                            Ghost((fuel - 1) as nat),
                        );
                        valid = valid && pv;
                        built = p;
                    },
                    None => {
                        valid = false;
                        built = String::new();
                    },
                }
            }
            let ghost m1 = memo_view(memo@);
            let stored = built.clone();
            memo.insert(parent_record, stored);
            assert(memo_view(memo@) =~= m1.insert(parent_record, built@));
            parent_path = built;
        },
    }
    let path = join(&parent_path, filename);
    (path, valid)
}

/// Whether every row's parent chain ends (see `paths_terminate`), which is
/// what `reconstruct_paths` needs.
pub fn parent_chains_end(catalog: &Catalog) -> (b: bool)
    requires
        catalog.wf(),
    ensures
        b == paths_terminate(catalog@),
{
    let ghost v = catalog@;
    let n = catalog.len();
    let entries = catalog.entries();
    let mut idx: usize = 0;
    while idx < n
        invariant
            catalog.wf(),
            v == catalog@,
            n == v.rows.len(),
            entries@.len() == n,
            forall|i: int| 0 <= i < n ==> (#[trigger] entries@[i]).describes(v, i),
            idx <= n,
            forall|i: int|
                0 <= i < idx ==> #[trigger] v.rows[i].record_number == ROOT_RECORD || chain_ends(
                    v,
                    v.rows[i].parent_record,
                    v.filename_at(i),
                    v.rows.len(),
                ),
        decreases n - idx,
    {
        let e = &entries[idx];
        assert(e.describes(v, idx as int));
        if e.record_number != ROOT_RECORD {
            let mut p = e.parent_record;
            let mut name = e.filename.clone();
            let mut fuel = n;
            let ghost start = chain_ends(v, e.parent_record, e.filename@, n as nat);
            loop
                invariant
                    catalog.wf(),
                    v == catalog@,
                    fuel <= n,
                    idx < n,
                    n == v.rows.len(),
                    v.rows[idx as int].record_number != ROOT_RECORD,
                    start == chain_ends(
                        v,
                        v.rows[idx as int].parent_record,
                        v.filename_at(idx as int),
                        v.rows.len(),
                    ),
                    start == chain_ends(v, p, name@, fuel as nat),
                ensures
                    start,
                decreases fuel,
            {
                if name.as_str().is_empty() || p == 0 || p == ROOT_RECORD {
                    break;
                }
                match catalog.get(p) {
                    None => {
                        break;
                    },
                    Some(up) => {
                        if fuel == 0 {
                            assert(!(v.rows[idx as int].record_number == ROOT_RECORD || chain_ends(
                                v,
                                v.rows[idx as int].parent_record,
                                v.filename_at(idx as int),
                                v.rows.len(),
                            )));
                            return false;
                        }
                        p = up.parent_record;
                        name = up.filename;
                        fuel = fuel - 1;
                    },
                }
            }
            assert(start);
        }
        idx = idx + 1;
    }
    true
}

/// Rebuilds every row's full path from the parent references, memoising
/// directory paths, and records whether each parent reference was valid.
/// The new paths are appended to the string pool in dense order.
pub fn reconstruct_paths(catalog: &mut Catalog)
    requires
        old(catalog).wf(),
        paths_terminate(old(catalog)@),
    ensures
        final(catalog).wf(),
        final(catalog)@ == reconstructed(old(catalog)@),
{
    let ghost v = catalog@;
    let count = catalog.len();
    if count == 0 {
        return;
    }
    let mut memo: HashMap<u64, String> = HashMap::new();
    memo.insert(ROOT_RECORD, String::new());
    assert(memo_view(memo@) =~= initial_memo());
    let entries = catalog.entries();
    let mut paths: Vec<String> = Vec::new();
    let mut parent_valid: Vec<bool> = Vec::new();
    for idx in 0..count
        invariant
            catalog.wf(),
            v == catalog@,
            count == v.rows.len(),
            paths_terminate(v),
            entries@.len() == count,
            forall|i: int| 0 <= i < count ==> (#[trigger] entries@[i]).describes(v, i),
            paths@.len() == idx,
            forall|j: int| 0 <= j < idx ==> (#[trigger] paths@[j])@ == paths_upto(v, idx as int).0[j],
            parent_valid@ == paths_upto(v, idx as int).1,
            memo_view(memo@) == paths_upto(v, idx as int).2,
            paths_upto(v, idx as int).0.len() == idx,
            paths_upto(v, idx as int).1.len() == idx,
    {
        let e = &entries[idx];
        assert(e.describes(v, idx as int));
        let ghost prev = paths_upto(v, idx as int);
        if e.record_number == ROOT_RECORD {
            let root = "\\";
            proof {
                reveal_strlit("\\");
            }
            paths.push(root.to_owned());
            parent_valid.push(true);
        } else {
            let (p, ok) = build_path(
                catalog,
                e.parent_record,
                e.parent_sequence,
                &e.filename,
                &mut memo,
                Ghost(count as nat),
            );
            paths.push(p);
            parent_valid.push(ok);
        }
        assert(paths_upto(v, idx + 1) == (
            prev.0.push(row_path(v, idx as int, prev.2).0),
            prev.1.push(row_path(v, idx as int, prev.2).1),
            row_path(v, idx as int, prev.2).2,
        ));
        assert(parent_valid@ =~= paths_upto(v, idx + 1).1);
    }
    let ghost res = paths_upto(v, count as int);
    let mut path_ids: Vec<u32> = Vec::new();
    for idx in 0..count
        invariant
            catalog.wf(),
            catalog@.rows == v.rows,
            catalog@.drive_letter == v.drive_letter,
            count == v.rows.len(),
            paths@.len() == count,
            res.0.len() == count,
            forall|j: int| 0 <= j < count ==> (#[trigger] paths@[j])@ == res.0[j],
            catalog@.pool == pool_with(v.pool, res.0.take(idx as int)),
            path_ids@.len() == idx,
            forall|j: int|
                0 <= j < idx ==> #[trigger] path_ids@[j] == pool_with(v.pool, res.0.take(j)).len() as u32,
    {
        let id = catalog.intern_string(paths[idx].as_str());
        path_ids.push(id);
        assert(res.0.take(idx + 1).drop_last() =~= res.0.take(idx as int));
    }
    assert(res.0.take(count as int) =~= res.0);
    let drive = catalog.drive_letter();
    let rebuilt = Catalog::set_from_columns(
        drive,
        slice_to_vec(catalog.record_numbers_ref()),
        slice_to_vec(catalog.sequence_numbers_ref()),
        slice_to_vec(catalog.parent_records_ref()),
        slice_to_vec(catalog.parent_sequences_ref()),
        slice_to_vec(catalog.file_sizes_ref()),
        slice_to_vec(catalog.created_times_ref()),
        slice_to_vec(catalog.modified_times_ref()),
        slice_to_vec(catalog.mft_modified_times_ref()),
        slice_to_vec(catalog.accessed_times_ref()),
        slice_to_vec(catalog.filename_ids_ref()),
        path_ids,
        parent_valid,
        slice_to_vec(catalog.is_active_ref()),
        slice_to_vec(catalog.string_pool_ref()),
    );
    *catalog = rebuilt;
    assert(catalog@.rows =~= reconstructed(v).rows);
}


/// The full path of an entry named `name` under parent `p`, resolved up
/// the parent chain without any memo, within `fuel` steps.
pub open spec fn full_path(v: CatalogView, p: u64, name: Seq<char>, fuel: nat) -> Seq<char>
    decreases fuel, 1nat,
{
    if name.len() == 0 {
        Seq::empty()
    } else if p == 0 {
        name
    } else {
        join_path(dir_path(v, p, fuel), name)
    }
}

/// The path of directory record `p`: empty for the root or a record the
/// catalog lacks, otherwise the full path of its row.
pub open spec fn dir_path(v: CatalogView, p: u64, fuel: nat) -> Seq<char>
    decreases fuel, 0nat,
{
    let s = v.slot_of(p);
    if p == ROOT_RECORD || s < 0 || fuel == 0 {
        Seq::empty()
    } else {
        full_path(v, v.rows[s].parent_record, v.filename_at(s), (fuel - 1) as nat)
    }
}

/// Once the parent chain ends within `f` steps, more steps change nothing.
proof fn lemma_full_path_fuel(v: CatalogView, p: u64, name: Seq<char>, f: nat, g: nat)
    requires
        chain_ends(v, p, name, f),
        f <= g,
    ensures
        full_path(v, p, name, f) == full_path(v, p, name, g),
    decreases f,
{
    let s = v.slot_of(p);
    if name.len() > 0 && p != 0 && p != ROOT_RECORD && s >= 0 {
        lemma_full_path_fuel(v, v.rows[s].parent_record, v.filename_at(s), (f - 1) as nat, (g - 1) as nat);
    }
}

/// Every stored directory path is the directory's memo-free path.
pub open spec fn memo_exact(v: CatalogView, memo: Map<u64, Seq<char>>) -> bool {
    forall|k: u64| #[trigger] memo.contains_key(k) ==> memo[k] == dir_path(v, k, v.rows.len())
}

/// With an exact memo, `build` yields the memo-free full path and keeps the
/// memo exact.
proof fn lemma_build_exact(v: CatalogView, p: u64, pseq: u16, name: Seq<char>, memo: Map<u64, Seq<char>>, fuel: nat)
    requires
        chain_ends(v, p, name, fuel),
        fuel <= v.rows.len(),
        memo_exact(v, memo),
    ensures
        build(v, p, pseq, name, memo, fuel).0 == full_path(v, p, name, v.rows.len()),
        memo_exact(v, build(v, p, pseq, name, memo, fuel).2),
    decreases fuel,
{
    let n = v.rows.len();
    let s = v.slot_of(p);
    if name.len() > 0 && p != 0 && !memo.contains_key(p) {
        if p == ROOT_RECORD || s < 0 {
            let m2 = memo.insert(p, Seq::empty());
            assert forall|k: u64| #[trigger] m2.contains_key(k) implies m2[k] == dir_path(v, k, n) by {
                if k != p {
                    assert(memo.contains_key(k));
                }
            }
        } else {
            let q = v.rows[s].parent_record;
            let qname = v.filename_at(s);
            lemma_build_exact(v, q, v.rows[s].parent_sequence, qname, memo, (fuel - 1) as nat);
            lemma_full_path_fuel(v, q, qname, (fuel - 1) as nat, (n - 1) as nat);
            let up = build(v, q, v.rows[s].parent_sequence, qname, memo, (fuel - 1) as nat);
            lemma_full_path_fuel(v, q, qname, (fuel - 1) as nat, n);
            lemma_last_slot(v.rows, p);
            assert(up.0 == dir_path(v, p, n));
            let m2 = up.2.insert(p, up.0);
            assert forall|k: u64| #[trigger] m2.contains_key(k) implies m2[k] == dir_path(v, k, n) by {
                if k != p {
                    assert(up.2.contains_key(k));
                }
            }
        }
    }
}

/// The memo stays exact from row to row.
proof fn lemma_paths_upto_exact(v: CatalogView, k: int)
    requires
        0 <= k <= v.rows.len(),
        paths_terminate(v),
    ensures
        memo_exact(v, paths_upto(v, k).2),
        paths_upto(v, k).0.len() == k,
        forall|i: int|
            0 <= i < k ==> #[trigger] paths_upto(v, k).0[i] == if v.rows[i].record_number == ROOT_RECORD {
                seq!['\\']
            } else {
                full_path(v, v.rows[i].parent_record, v.filename_at(i), v.rows.len())
            },
    decreases k,
{
    if k == 0 {
        let m = initial_memo();
        assert forall|x: u64| #[trigger] m.contains_key(x) implies m[x] == dir_path(v, x, v.rows.len()) by {
            assert(x == ROOT_RECORD);
        }
    } else {
        lemma_paths_upto_exact(v, k - 1);
        let prev = paths_upto(v, k - 1);
        let row = v.rows[k - 1];
        if row.record_number != ROOT_RECORD {
            assert(row.record_number == ROOT_RECORD || chain_ends(v, row.parent_record, v.filename_at(k - 1), v.rows.len()));
            lemma_build_exact(v, row.parent_record, row.parent_sequence, v.filename_at(k - 1), prev.2, v.rows.len());
        }
        let cur = paths_upto(v, k);
        assert forall|i: int| 0 <= i < k implies #[trigger] cur.0[i] == if v.rows[i].record_number == ROOT_RECORD {
            seq!['\\']
        } else {
            full_path(v, v.rows[i].parent_record, v.filename_at(i), v.rows.len())
        } by {
            if i < k - 1 {
                assert(cur.0[i] == prev.0[i]);
            }
        }
    }
}

/// Memoisation does not change paths: after reconstruction, the path
/// resolved for each row is its memo-free full path (`\` for the root
/// record), whatever order the rows were resolved in.
pub proof fn law_paths_are_full_paths(v: CatalogView)
    requires
        paths_terminate(v),
    ensures
        forall|i: int|
            0 <= i < v.rows.len() ==> #[trigger] paths_upto(v, v.rows.len() as int).0[i] == if v.rows[i].record_number
                == ROOT_RECORD {
                seq!['\\']
            } else {
                full_path(v, v.rows[i].parent_record, v.filename_at(i), v.rows.len())
            },
{
    lemma_paths_upto_exact(v, v.rows.len() as int);
}

/// Appending grows the pool.
proof fn lemma_pool_with_grows(pool: Seq<u8>, paths: Seq<Seq<char>>, i: int)
    requires
        0 <= i <= paths.len(),
    ensures
        pool_with(pool, paths.take(i)).len() <= pool_with(pool, paths).len(),
        i < paths.len() ==> pool_with(pool, paths.take(i)).len() < pool_with(pool, paths).len(),
    decreases paths.len() - i,
{
    if i < paths.len() {
        lemma_pool_with_grows(pool, paths, i + 1);
        assert(paths.take(i + 1).drop_last() =~= paths.take(i));
    } else {
        assert(paths.take(i) =~= paths);
    }
}

/// Each appended path reads back from the final pool, at the id it was
/// given, as `appended_text`, and ends inside the pool, when every id fits
/// in 32 bits.
proof fn lemma_pool_with_reads(pool: Seq<u8>, paths: Seq<Seq<char>>, i: int)
    requires
        pool_with(pool, paths).len() <= u32::MAX,
        0 <= i < paths.len(),
    ensures
        pool_string(pool_with(pool, paths), pool_with(pool, paths.take(i)).len() as u32) == appended_text(paths[i]),
        ends_in_pool(pool_with(pool, paths), pool_with(pool, paths.take(i)).len() as u32),
    decreases paths.len(),
{
    let init = paths.drop_last();
    let before = pool_with(pool, init);
    lemma_pool_with_grows(pool, paths, paths.len() - 1);
    assert(paths.take(paths.len() - 1) =~= init);
    if i == paths.len() - 1 {
        lemma_pool_append_reads(before, paths.last());
    } else {
        lemma_pool_with_reads(pool, init, i);
        assert(init.take(i) =~= paths.take(i));
        assert(init[i] == paths[i]);
        lemma_pool_append_keeps_ended(before, paths.last(), pool_with(pool, init.take(i)).len() as u32);
    }
}

/// Each appended path reads back exactly when it holds no NUL.
proof fn lemma_pool_with_read(pool: Seq<u8>, paths: Seq<Seq<char>>, i: int)
    requires
        forall|j: int| 0 <= j < paths.len() ==> !(#[trigger] paths[j]).contains('\0'),
        pool_with(pool, paths).len() <= u32::MAX,
        0 <= i < paths.len(),
    ensures
        pool_string(pool_with(pool, paths), pool_with(pool, paths.take(i)).len() as u32) == paths[i],
{
    lemma_pool_with_reads(pool, paths, i);
    lemma_appended_text_exact(paths[i]);
}

/// After reconstruction, each row reads back the path resolved for it,
/// with its other fields unchanged, when no resolved path holds a NUL and
/// the grown pool keeps 32-bit ids.
pub proof fn law_reconstructed_read_back(v: CatalogView)
    requires
        v.rows.len() > 0,
        forall|j: int|
            0 <= j < v.rows.len() ==> !(#[trigger] paths_upto(v, v.rows.len() as int).0[j]).contains('\0'),
        pool_with(v.pool, paths_upto(v, v.rows.len() as int).0).len() <= u32::MAX,
        paths_terminate(v),
    ensures
        reconstructed(v).rows.len() == v.rows.len(),
        forall|i: int|
            0 <= i < v.rows.len() ==> {
                &&& #[trigger] reconstructed(v).path_at(i) == paths_upto(v, v.rows.len() as int).0[i]
                &&& reconstructed(v).rows[i].record_number == v.rows[i].record_number
                &&& reconstructed(v).rows[i].filename_id == v.rows[i].filename_id
                &&& reconstructed(v).rows[i].parent_valid == paths_upto(v, v.rows.len() as int).1[i]
            },
{
    let n = v.rows.len() as int;
    let res = paths_upto(v, n);
    lemma_paths_upto_exact(v, n);
    assert forall|i: int| 0 <= i < n implies {
        &&& #[trigger] reconstructed(v).path_at(i) == res.0[i]
        &&& reconstructed(v).rows[i].record_number == v.rows[i].record_number
        &&& reconstructed(v).rows[i].filename_id == v.rows[i].filename_id
        &&& reconstructed(v).rows[i].parent_valid == res.1[i]
    } by {
        lemma_pool_with_read(v.pool, res.0, i);
    }
}

/// `w` agrees with `v` on all that path resolution reads: the number of
/// rows, each row's record number, sequence number and parent reference,
/// and each row's file name.
pub open spec fn same_links(v: CatalogView, w: CatalogView) -> bool {
    &&& v.rows.len() == w.rows.len()
    &&& forall|i: int|
        #![trigger w.rows[i]]
        0 <= i < v.rows.len() ==> {
            &&& w.rows[i].record_number == v.rows[i].record_number
            &&& w.rows[i].sequence_number == v.rows[i].sequence_number
            &&& w.rows[i].parent_record == v.rows[i].parent_record
            &&& w.rows[i].parent_sequence == v.rows[i].parent_sequence
            &&& w.filename_at(i) == v.filename_at(i)
        }
}

/// Rows with the same record numbers in the same places give the same
/// lookups.
proof fn lemma_last_slot_same(a: Seq<CatalogRow>, b: Seq<CatalogRow>, r: u64)
    requires
        a.len() == b.len(),
        forall|i: int| 0 <= i < a.len() ==> #[trigger] a[i].record_number == b[i].record_number,
    ensures
        last_slot(a, r) == last_slot(b, r),
    decreases a.len(),
{
    if a.len() > 0 {
        assert forall|i: int| 0 <= i < a.len() - 1 implies #[trigger] a.drop_last()[i].record_number
            == b.drop_last()[i].record_number by {
            assert(a.drop_last()[i] == a[i]);
            assert(b.drop_last()[i] == b[i]);
        }
        lemma_last_slot_same(a.drop_last(), b.drop_last(), r);
    }
}

/// Resolution reads only what `same_links` keeps.
proof fn lemma_build_same(
    v: CatalogView,
    w: CatalogView,
    p: u64,
    pseq: u16,
    name: Seq<char>,
    memo: Map<u64, Seq<char>>,
    fuel: nat,
)
    requires
        same_links(v, w),
    ensures
        build(v, p, pseq, name, memo, fuel) == build(w, p, pseq, name, memo, fuel),
        chain_ends(v, p, name, fuel) == chain_ends(w, p, name, fuel),
    decreases fuel,
{
    assert forall|i: int| 0 <= i < v.rows.len() implies #[trigger] v.rows[i].record_number
        == w.rows[i].record_number by {
        assert(w.rows[i].record_number == v.rows[i].record_number);
    }
    lemma_last_slot_same(v.rows, w.rows, p);
    lemma_last_slot(v.rows, p);
    let s = v.slot_of(p);
    if s >= 0 {
        assert(w.rows[s].record_number == v.rows[s].record_number);
    }
    if name.len() > 0 && p != 0 && p != ROOT_RECORD && s >= 0 && fuel > 0 {
        lemma_build_same(
            v,
            w,
            v.rows[s].parent_record,
            v.rows[s].parent_sequence,
            v.filename_at(s),
            memo,
            (fuel - 1) as nat,
        );
    }
}

/// With the same links, the paths, flags and memo of the first `k` rows
/// are the same.
proof fn lemma_paths_upto_same(v: CatalogView, w: CatalogView, k: int)
    requires
        same_links(v, w),
        0 <= k <= v.rows.len(),
    ensures
        paths_upto(v, k) == paths_upto(w, k),
    decreases k,
{
    if k > 0 {
        lemma_paths_upto_same(v, w, k - 1);
        let prev = paths_upto(v, k - 1);
        let row = v.rows[k - 1];
        assert(w.rows[k - 1].record_number == row.record_number);
        lemma_build_same(v, w, row.parent_record, row.parent_sequence, v.filename_at(k - 1), prev.2, v.rows.len());
    }
}

/// With the same links, the parent chains end alike.
proof fn lemma_terminate_same(v: CatalogView, w: CatalogView)
    requires
        same_links(v, w),
        paths_terminate(v),
    ensures
        paths_terminate(w),
{
    assert forall|i: int| 0 <= i < w.rows.len() implies #[trigger] w.rows[i].record_number == ROOT_RECORD
        || chain_ends(w, w.rows[i].parent_record, w.filename_at(i), w.rows.len()) by {
        assert(v.rows[i].record_number == ROOT_RECORD || chain_ends(
            v,
            v.rows[i].parent_record,
            v.filename_at(i),
            v.rows.len(),
        ));
        lemma_build_same(v, w, v.rows[i].parent_record, v.rows[i].parent_sequence, v.filename_at(i), initial_memo(), v.rows.len());
    }
}

/// Appending paths leaves every string that already ends inside the pool
/// readable as before.
proof fn lemma_pool_with_keeps(pool: Seq<u8>, paths: Seq<Seq<char>>, id: u32)
    requires
        ends_in_pool(pool, id),
    ensures
        pool_string(pool_with(pool, paths), id) == pool_string(pool, id),
        ends_in_pool(pool_with(pool, paths), id),
    decreases paths.len(),
{
    if paths.len() > 0 {
        let init = paths.drop_last();
        lemma_pool_with_keeps(pool, init, id);
        lemma_pool_append_keeps_ended(pool_with(pool, init), paths.last(), id);
    }
}

/// Reconstruction keeps the links: only path ids, validity flags and the
/// pool change, and file names read as before.
proof fn lemma_reconstructed_links(v: CatalogView)
    requires
        v.names_end_in_pool(),
    ensures
        same_links(v, reconstructed(v)),
        reconstructed(v).names_end_in_pool(),
        forall|i: int|
            0 <= i < v.rows.len() ==> #[trigger] reconstructed(v).rows[i].filename_id == v.rows[i].filename_id,
{
    let w = reconstructed(v);
    if v.rows.len() > 0 {
        let res = paths_upto(v, v.rows.len() as int);
        assert forall|i: int|
            #![trigger w.rows[i]]
            0 <= i < v.rows.len() implies w.filename_at(i) == v.filename_at(i) && ends_in_pool(
                w.pool,
                w.rows[i].filename_id,
            ) by {
            assert(ends_in_pool(v.pool, v.rows[i].filename_id));
            lemma_pool_with_keeps(v.pool, res.0, v.rows[i].filename_id);
        }
    }
}

/// Reconstructing paths a second time changes no entry: every record
/// number resolves to the same row, and that row keeps its fields, file
/// name, path and parent-validity flag; only the pool grows. This holds
/// when every parent chain ends, every file name ends with a NUL inside the
/// pool (a name running into the pool's unterminated tail would take in
/// the paths appended after it), and the pool after both reconstructions
/// keeps 32-bit ids.
pub proof fn law_reconstruct_twice(v: CatalogView)
    requires
        paths_terminate(v),
        v.names_end_in_pool(),
        pool_with(
            pool_with(v.pool, paths_upto(v, v.rows.len() as int).0),
            paths_upto(v, v.rows.len() as int).0,
        ).len() <= u32::MAX,
    ensures
        ({
            let w = reconstructed(v);
            let x = reconstructed(w);
            &&& x.rows.len() == w.rows.len()
            &&& forall|r: u64| #[trigger] x.slot_of(r) == w.slot_of(r)
            &&& forall|i: int|
                0 <= i < w.rows.len() ==> {
                    &&& #[trigger] x.rows[i].record_number == w.rows[i].record_number
                    &&& x.rows[i].sequence_number == w.rows[i].sequence_number
                    &&& x.rows[i].parent_record == w.rows[i].parent_record
                    &&& x.rows[i].parent_sequence == w.rows[i].parent_sequence
                    &&& x.rows[i].file_size == w.rows[i].file_size
                    &&& x.rows[i].timestamps == w.rows[i].timestamps
                    &&& x.rows[i].filename_id == w.rows[i].filename_id
                    &&& x.rows[i].parent_valid == w.rows[i].parent_valid
                    &&& x.rows[i].is_active == w.rows[i].is_active
                    &&& x.filename_at(i) == w.filename_at(i)
                    &&& x.path_at(i) == w.path_at(i)
                }
        }),
{
    let n = v.rows.len() as int;
    let w = reconstructed(v);
    let x = reconstructed(w);
    if n > 0 {
        let res = paths_upto(v, n);
        lemma_paths_upto_exact(v, n);
        lemma_reconstructed_links(v);
        lemma_paths_upto_same(v, w, n);
        lemma_terminate_same(v, w);
        lemma_reconstructed_links(w);
        assert(res.0.take(0) =~= Seq::<Seq<char>>::empty());
        lemma_pool_with_grows(w.pool, res.0, 0);
        assert forall|r: u64| #[trigger] x.slot_of(r) == w.slot_of(r) by {
            assert forall|i: int| 0 <= i < x.rows.len() implies #[trigger] x.rows[i].record_number
                == w.rows[i].record_number by {
                assert(x.rows[i].record_number == w.rows[i].record_number);
            }
            lemma_last_slot_same(x.rows, w.rows, r);
        }
        assert forall|i: int| 0 <= i < w.rows.len() implies {
            &&& #[trigger] x.rows[i].record_number == w.rows[i].record_number
            &&& x.rows[i].sequence_number == w.rows[i].sequence_number
            &&& x.rows[i].parent_record == w.rows[i].parent_record
            &&& x.rows[i].parent_sequence == w.rows[i].parent_sequence
            &&& x.rows[i].file_size == w.rows[i].file_size
            &&& x.rows[i].timestamps == w.rows[i].timestamps
            &&& x.rows[i].filename_id == w.rows[i].filename_id
            &&& x.rows[i].parent_valid == w.rows[i].parent_valid
            &&& x.rows[i].is_active == w.rows[i].is_active
            &&& x.filename_at(i) == w.filename_at(i)
            &&& x.path_at(i) == w.path_at(i)
        } by {
            assert(x.rows[i].record_number == w.rows[i].record_number);
            lemma_pool_with_reads(v.pool, res.0, i);
            lemma_pool_with_reads(w.pool, res.0, i);
            assert(x.path_at(i) == appended_text(res.0[i]));
            assert(w.path_at(i) == appended_text(res.0[i]));
        }
    }
}

/// A parent reference counts as valid only when it names the record it
/// points to: the parent is held with that sequence number, or is the root
/// record and not held at all; and the entry has a name and a non-zero
/// parent. No memo makes a stale reference valid.
proof fn lemma_build_valid_parent(
    v: CatalogView,
    p: u64,
    pseq: u16,
    name: Seq<char>,
    memo: Map<u64, Seq<char>>,
    fuel: nat,
)
    ensures
        build(v, p, pseq, name, memo, fuel).1 ==> {
            &&& name.len() > 0
            &&& p != 0
            &&& if v.slot_of(p) >= 0 {
                v.rows[v.slot_of(p)].sequence_number == pseq
            } else {
                p == ROOT_RECORD
            }
        },
{
}

/// Each row's validity flag is the one its own resolution produced, with
/// the memo left by the rows before it.
proof fn lemma_paths_upto_flags(v: CatalogView, k: int, i: int)
    requires
        0 <= i < k <= v.rows.len(),
    ensures
        paths_upto(v, k).1[i] == row_path(v, i, paths_upto(v, i).2).1,
        paths_upto(v, k).1.len() == k,
        paths_upto(v, k).0.len() == k,
    decreases k,
{
    if i < k - 1 {
        lemma_paths_upto_flags(v, k - 1, i);
    } else {
        if k > 1 {
            lemma_paths_upto_flags(v, k - 1, 0);
        }
    }
}

/// After reconstruction, a row other than the root record has a valid
/// parent only if it has a name, its parent reference is not zero, and the
/// parent it names is held by the catalog with exactly the sequence number
/// of the reference (or is the root record, when the catalog does not hold
/// it). So a stale reference, one to a record reused under a new sequence
/// number, is flagged invalid for every row that makes it, however many
/// rows before it resolved the same parent.
pub proof fn law_valid_parent_matches_sequence(v: CatalogView, i: int)
    requires
        0 <= i < v.rows.len(),
        v.rows[i].record_number != ROOT_RECORD,
    ensures
        reconstructed(v).rows[i].parent_valid ==> {
            let p = v.rows[i].parent_record;
            &&& v.filename_at(i).len() > 0
            &&& p != 0
            &&& if v.slot_of(p) >= 0 {
                v.rows[v.slot_of(p)].sequence_number == v.rows[i].parent_sequence
            } else {
                p == ROOT_RECORD
            }
        },
{
    let n = v.rows.len() as int;
    lemma_paths_upto_flags(v, n, i);
    let row = v.rows[i];
    lemma_build_valid_parent(
        v,
        row.parent_record,
        row.parent_sequence,
        v.filename_at(i),
        paths_upto(v, i).2,
        v.rows.len(),
    );
}

/// After reconstruction, a named row directly under the root record has a
/// valid parent exactly when its reference carries the root's sequence
/// number (any sequence number when the catalog does not hold the root),
/// and its path is the root's: a backslash and its name.
pub proof fn law_root_children(v: CatalogView, i: int)
    requires
        0 <= i < v.rows.len(),
        v.rows[i].record_number != ROOT_RECORD,
        v.rows[i].parent_record == ROOT_RECORD,
        v.filename_at(i).len() > 0,
    ensures
        reconstructed(v).rows[i].parent_valid == if v.slot_of(ROOT_RECORD) >= 0 {
            v.rows[v.slot_of(ROOT_RECORD)].sequence_number == v.rows[i].parent_sequence
        } else {
            true
        },
        paths_upto(v, v.rows.len() as int).0[i] == seq!['\\'] + v.filename_at(i),
{
    let n = v.rows.len() as int;
    lemma_paths_upto_flags(v, n, i);
    lemma_paths_upto_names(v, n, i);
    lemma_memo_root_empty(v, i);
}

/// Each row's path is the one its own resolution produced, with the memo
/// left by the rows before it.
proof fn lemma_paths_upto_names(v: CatalogView, k: int, i: int)
    requires
        0 <= i < k <= v.rows.len(),
    ensures
        paths_upto(v, k).0[i] == row_path(v, i, paths_upto(v, i).2).0,
    decreases k,
{
    if i < k - 1 {
        lemma_paths_upto_names(v, k - 1, i);
        lemma_paths_upto_flags(v, k - 1, i);
    } else if k > 1 {
        lemma_paths_upto_flags(v, k - 1, 0);
    }
}

/// Resolution stores the root's path as empty, as the first memo does.
proof fn lemma_build_root_empty(
    v: CatalogView,
    p: u64,
    pseq: u16,
    name: Seq<char>,
    memo: Map<u64, Seq<char>>,
    fuel: nat,
)
    requires
        memo.contains_key(ROOT_RECORD),
        memo[ROOT_RECORD] == Seq::<char>::empty(),
    ensures
        build(v, p, pseq, name, memo, fuel).2.contains_key(ROOT_RECORD),
        build(v, p, pseq, name, memo, fuel).2[ROOT_RECORD] == Seq::<char>::empty(),
    decreases fuel,
{
    let s = v.slot_of(p);
    if name.len() > 0 && p != 0 && !memo.contains_key(p) && p != ROOT_RECORD && s >= 0 && fuel > 0 {
        lemma_build_root_empty(v, v.rows[s].parent_record, v.rows[s].parent_sequence, v.filename_at(s), memo, (fuel - 1) as nat);
    }
}

/// The memo keeps the root's path empty from row to row.
proof fn lemma_memo_root_empty(v: CatalogView, k: int)
    requires
        0 <= k <= v.rows.len(),
    ensures
        paths_upto(v, k).2.contains_key(ROOT_RECORD),
        paths_upto(v, k).2[ROOT_RECORD] == Seq::<char>::empty(),
    decreases k,
{
    if k > 0 {
        lemma_memo_root_empty(v, k - 1);
        let row = v.rows[k - 1];
        if row.record_number != ROOT_RECORD {
            lemma_build_root_empty(
                v,
                row.parent_record,
                row.parent_sequence,
                v.filename_at(k - 1),
                paths_upto(v, k - 1).2,
                v.rows.len(),
            );
        }
    }
}

} // verus!
