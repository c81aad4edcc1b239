//! Dashboard model: the branch tree and summary statistics.
pub mod browse;
pub mod tree;

pub use tree::{build_branch_tree, BranchTree, TreeNode, TreeNodeKind};

use vstd::prelude::*;

use crate::classify::engine::ClassifiedFile;
use crate::dashboard::tree::{add_wrapping, is_unclassified, wrap_usize};
use crate::classify::corrections::{decimal, decimal_string};
use crate::text::{chars_of, contains_exec};

verus! {

/// Summary figures of a classified catalog.
#[derive(Debug, Clone)]
pub struct DashboardStats {
    pub total_files: usize,
    pub total_bytes: u64,
    /// Files per category, in order of first appearance.
    pub by_category: Vec<(String, usize)>,
    pub unclassified: usize,
    pub part_branches: usize,
    pub orphan_paths: usize,
}

impl Default for DashboardStats {
    /// All figures zero and no categories.
    fn default() -> (s: Self)
        ensures
            s.total_files == 0,
            s.total_bytes == 0,
            s.by_category@.len() == 0,
            s.unclassified == 0,
            s.part_branches == 0,
            s.orphan_paths == 0,
    {
        DashboardStats {
            total_files: 0,
            total_bytes: 0,
            by_category: Vec::new(),
            unclassified: 0,
            part_branches: 0,
            orphan_paths: 0,
        }
    }
}

/// Total size of the first `k` files, wrapped to 64 bits.
pub open spec fn bytes_upto(cs: Seq<ClassifiedFile>, k: int) -> u64
    decreases k,
{
    if k <= 0 {
        0
    } else {
        add_wrapping(bytes_upto(cs, k - 1), cs[k - 1].entry.file_size)
    }
}

/// Number of the first `k` files whose category mentions `Unclassified`.
pub open spec fn unclassified_upto(cs: Seq<ClassifiedFile>, k: int) -> nat
    decreases k,
{
    if k <= 0 {
        0
    } else {
        unclassified_upto(cs, k - 1) + if is_unclassified(cs[k - 1].result.category@) {
            1nat
        } else {
            0nat
        }
    }
}

/// Number of the first `k` files whose parent reference was invalid.
pub open spec fn orphans_upto(cs: Seq<ClassifiedFile>, k: int) -> nat
    decreases k,
{
    if k <= 0 {
        0
    } else {
        orphans_upto(cs, k - 1) + if cs[k - 1].entry.parent_valid {
            0nat
        } else {
            1nat
        }
    }
}

/// Files per category among the first `k`, categories in order of first
/// appearance.
pub open spec fn category_counts(cs: Seq<ClassifiedFile>, k: int) -> Seq<(Seq<char>, nat)>
    decreases k,
{
    if k <= 0 {
        Seq::empty()
    } else {
        let prev = category_counts(cs, k - 1);
        let c = cs[k - 1].result.category@;
        let i = count_index(prev, c);
        if i >= 0 {
            prev.update(i, (c, prev[i].1 + 1))
        } else {
            prev.push((c, 1nat))
        }
    }
}

/// Position of category `c` in `counts`, or -1.
pub open spec fn count_index(counts: Seq<(Seq<char>, nat)>, c: Seq<char>) -> int
    decreases counts.len(),
{
    if counts.len() == 0 {
        -1
    } else if counts.last().0 == c {
        counts.len() - 1
    } else {
        count_index(counts.drop_last(), c)
    }
}

/// A count never exceeds the number of files counted.
proof fn lemma_counts_bounded(cs: Seq<ClassifiedFile>, k: int)
    requires
        0 <= k <= cs.len(),
    ensures
        forall|i: int| 0 <= i < category_counts(cs, k).len() ==> #[trigger] category_counts(cs, k)[i].1 <= k,
        unclassified_upto(cs, k) <= k,
        orphans_upto(cs, k) <= k,
    decreases k,
{
    if k > 0 {
        lemma_counts_bounded(cs, k - 1);
        lemma_count_index(category_counts(cs, k - 1), cs[k - 1].result.category@);
        let prev = category_counts(cs, k - 1);
        assert forall|i: int| 0 <= i < category_counts(cs, k).len() implies #[trigger] category_counts(cs, k)[i].1 <= k by {
            if i < prev.len() {
                assert(prev[i].1 <= k - 1);
            }
        }
    }
}

/// `count_index` finds a position holding `c`, or none holds it.
proof fn lemma_count_index(counts: Seq<(Seq<char>, nat)>, c: Seq<char>)
    ensures
        -1 <= count_index(counts, c) < counts.len(),
        count_index(counts, c) >= 0 ==> counts[count_index(counts, c)].0 == c,
        count_index(counts, c) < 0 ==> forall|j: int| 0 <= j < counts.len() ==> #[trigger] counts[j].0 != c,
    decreases counts.len(),
{
    if counts.len() > 0 && counts.last().0 != c {
        lemma_count_index(counts.drop_last(), c);
        if count_index(counts, c) < 0 {
            assert forall|j: int| 0 <= j < counts.len() implies #[trigger] counts[j].0 != c by {
                if j < counts.len() - 1 {
                    assert(counts.drop_last()[j] == counts[j]);
                }
            }
        }
    }
}

/// Position of the entry for category `c`.
fn find_category(counts: &Vec<(String, usize)>, c: &String, Ghost(prev): Ghost<Seq<(Seq<char>, nat)>>) -> (r: Option<usize>)
    requires
        counts@.len() == prev.len(),
        forall|i: int| 0 <= i < counts@.len() ==> (#[trigger] counts@[i]).0@ == prev[i].0,
    ensures
        match r {
            Some(i) => i as int == count_index(prev, c@) && i < prev.len(),
            None => count_index(prev, c@) == -1,
        },
{
    let mut j = counts.len();
    assert(prev.take(j as int) =~= prev);
    while j > 0
        invariant
            j <= counts@.len(),
            counts@.len() == prev.len(),
            forall|i: int| 0 <= i < counts@.len() ==> (#[trigger] counts@[i]).0@ == prev[i].0,
            count_index(prev, c@) == count_index(prev.take(j as int), c@),
        decreases j,
    {
        assert(prev.take(j as int).drop_last() =~= prev.take(j - 1));
        if counts[j - 1].0 == *c {
            return Some(j - 1);
        }
        j = j - 1;
    }
    None
}

/// Files per category, categories in order of first appearance.
pub fn count_categories(classified: &[ClassifiedFile]) -> (v: Vec<(String, usize)>)
    ensures
        v@.len() == category_counts(classified@, classified@.len() as int).len(),
        forall|i: int|
            0 <= i < v@.len() ==> (#[trigger] v@[i]).0@ == category_counts(
                classified@,
                classified@.len() as int,
            )[i].0 && v@[i].1 == category_counts(classified@, classified@.len() as int)[i].1,
{
    let n = classified.len();
    let mut by_category: Vec<(String, usize)> = Vec::new();
    for k in 0..n
        invariant
            n == classified@.len(),
            by_category@.len() == category_counts(classified@, k as int).len(),
            forall|i: int|
                0 <= i < by_category@.len() ==> (#[trigger] by_category@[i]).0@ == category_counts(
                    classified@,
                    k as int,
                )[i].0 && by_category@[i].1 == category_counts(classified@, k as int)[i].1,
    {
        proof {
            lemma_counts_bounded(classified@, k as int);
            lemma_count_index(category_counts(classified@, k as int), classified@[k as int].result.category@);
        }
        let ghost prev = category_counts(classified@, k as int);
        let c = &classified[k].result.category;
        match find_category(&by_category, c, Ghost(prev)) {
            Some(i) => {
                let (name, count) = by_category.remove(i);
                assert(count == prev[i as int].1);
                assert(count < n);
                by_category.insert(i, (name, count + 1));
            },
            None => {
                by_category.push((c.clone(), 1));
            },
        }
        assert(category_counts(classified@, k + 1) == if count_index(prev, c@) >= 0 {
            prev.update(count_index(prev, c@), (c@, prev[count_index(prev, c@)].1 + 1))
        } else {
            prev.push((c@, 1nat))
        });
    }
    by_category
}

/// Computes the summary figures of `classified`; `part_branches` counts
/// the branch nodes of `tree`. Sizes add up wrapping at 64 bits, the branch
/// count at the width of `usize`.
pub fn compute_stats(classified: &[ClassifiedFile], tree: &BranchTree) -> (s: DashboardStats)
    ensures
        s.total_files == classified@.len(),
        s.total_bytes == bytes_upto(classified@, classified@.len() as int),
        s.by_category@.len() == category_counts(classified@, classified@.len() as int).len(),
        forall|i: int|
            0 <= i < s.by_category@.len() ==> (#[trigger] s.by_category@[i]).0@ == category_counts(
                classified@,
                classified@.len() as int,
            )[i].0 && s.by_category@[i].1 == category_counts(classified@, classified@.len() as int)[i].1,
        s.unclassified == unclassified_upto(classified@, classified@.len() as int),
        s.orphan_paths == orphans_upto(classified@, classified@.len() as int),
        s.part_branches == wrap_usize(tree.branch_count()),
{
    let n = classified.len();
    let marker = chars_of("Unclassified");
    let mut total_bytes: u64 = 0;
    let mut unclassified: usize = 0;
    let mut orphan_paths: usize = 0;
    for k in 0..n
        invariant
            n == classified@.len(),
            marker@ == "Unclassified"@,
            total_bytes == bytes_upto(classified@, k as int),
            unclassified == unclassified_upto(classified@, k as int),
            orphan_paths == orphans_upto(classified@, k as int),
    {
        proof {
            lemma_counts_bounded(classified@, k as int);
        }
        let cf = &classified[k];
        total_bytes = total_bytes.wrapping_add(cf.entry.file_size);
        let cx = chars_of(cf.result.category.as_str());
        if contains_exec(cx.as_slice(), marker.as_slice()) {
            unclassified = unclassified + 1;
        }
        if !cf.entry.parent_valid {
            orphan_paths = orphan_paths + 1;
        }
    }
    let by_category = count_categories(classified);
    DashboardStats {
        total_files: n,
        total_bytes,
        by_category,
        unclassified,
        part_branches: tree.count_branches(),
        orphan_paths,
    }
}

/// Sum of the counts.
pub open spec fn count_sum(counts: Seq<(Seq<char>, nat)>) -> nat
    decreases counts.len(),
{
    if counts.len() == 0 {
        0
    } else {
        count_sum(counts.drop_last()) + counts.last().1
    }
}

/// Raising one count by one raises the sum by one.
proof fn lemma_count_sum_update(counts: Seq<(Seq<char>, nat)>, i: int, c: Seq<char>)
    requires
        0 <= i < counts.len(),
    ensures
        count_sum(counts.update(i, (c, counts[i].1 + 1))) == count_sum(counts) + 1,
    decreases counts.len(),
{
    let u = counts.update(i, (c, counts[i].1 + 1));
    if i == counts.len() - 1 {
        assert(u.drop_last() =~= counts.drop_last());
    } else {
        lemma_count_sum_update(counts.drop_last(), i, c);
        assert(u.drop_last() =~= counts.drop_last().update(i, (c, counts[i].1 + 1)));
    }
}

/// The per-category counts of the files add up to the number of files.
pub proof fn law_category_counts_total(cs: Seq<ClassifiedFile>)
    ensures
        count_sum(category_counts(cs, cs.len() as int)) == cs.len(),
{
    lemma_category_counts_total(cs, cs.len() as int);
}

proof fn lemma_category_counts_total(cs: Seq<ClassifiedFile>, k: int)
    requires
        0 <= k <= cs.len(),
    ensures
        count_sum(category_counts(cs, k)) == k,
    decreases k,
{
    if k > 0 {
        lemma_category_counts_total(cs, k - 1);
        let prev = category_counts(cs, k - 1);
        let c = cs[k - 1].result.category@;
        lemma_count_index(prev, c);
        let i = count_index(prev, c);
        if i >= 0 {
            lemma_count_sum_update(prev, i, c);
        } else {
            assert(prev.push((c, 1nat)).drop_last() =~= prev);
        }
    }
}

/// Seconds from the FILETIME epoch (1601) to the Unix epoch (1970).
pub const FILETIME_UNIX_OFFSET: u64 = 11_644_473_600;

/// The Unix time of a FILETIME (100 ns ticks since 1601), floored to
/// seconds and clamped at zero.
pub open spec fn filetime_unix(ft: u64) -> nat {
    if ft / 10_000_000 >= FILETIME_UNIX_OFFSET {
        (ft / 10_000_000 - FILETIME_UNIX_OFFSET) as nat
    } else {
        0
    }
}

/// A FILETIME for display: `—` when unset, otherwise its Unix time in
/// seconds followed by ` (unix)`.
pub fn format_filetime(ft: u64) -> (s: String)
    ensures
        s@ == if ft == 0 {
            "—"@
        } else {
            decimal(filetime_unix(ft)) + " (unix)"@
        },
{
    if ft == 0 {
        return "—".to_owned();
    }
    let unix = (ft / 10_000_000).saturating_sub(FILETIME_UNIX_OFFSET);
    let digits = decimal_string(unix);
    crate::text::concat(digits.as_str(), " (unix)")
}

} // verus!
