//! The branch tree of the dashboard: categories, then part/revision
//! branches for the categories that group by part, then files.
use vstd::prelude::*;

use crate::classify::corrections::{decimal, decimal_string};
use crate::classify::engine::ClassifiedFile;
use crate::classify::grouping::{
    copy_classified, file_names, group_by_part_revision, groups_upto, lemma_text_lt_irreflexive,
    lemma_text_lt_total, lemma_text_lt_transitive, text_lt, GroupSpec,
};
use crate::security::{groupable_categories, part_group_categories};
use crate::text::{chars_equal, chars_of, contains, contains_exec, string_from_chars};

verus! {

/// What a tree node stands for.
#[derive(Debug, Clone, Copy, PartialEq, Eq, Hash, Structural)]
pub enum TreeNodeKind {
    Category,
    PartBranch,
    LooseBucket,
    File,
}

/// A node of the branch tree. `file_index` is the position of the file in
/// the classified input when the node is a file.
#[derive(Debug)]
pub struct TreeNode {
    pub label: String,
    pub kind: TreeNodeKind,
    pub children: Vec<TreeNode>,
    pub file_index: Option<usize>,
    pub file_count: usize,
    pub total_bytes: u64,
}

/// The category nodes of the tree, in display order.
#[derive(Debug)]
pub struct BranchTree {
    pub roots: Vec<TreeNode>,
}

impl Default for BranchTree {
    /// A tree without nodes.
    fn default() -> (t: Self)
        ensures
            t.roots@.len() == 0,
    {
        BranchTree { roots: Vec::new() }
    }
}

/// The category of an unclassified bucket mentions `Unclassified`.
pub open spec fn is_unclassified(c: Seq<char>) -> bool {
    contains(c, "Unclassified"@)
}

/// Display order of categories: classified ones first, each part in text
/// order.
pub open spec fn category_before(a: Seq<char>, b: Seq<char>) -> bool {
    if is_unclassified(a) != is_unclassified(b) {
        is_unclassified(b)
    } else {
        text_lt(a, b)
    }
}

/// Where category `c` goes in the ordered list `list`: after every
/// category it does not come before.
pub open spec fn category_position(list: Seq<Seq<char>>, c: Seq<char>) -> int
    decreases list.len(),
{
    if list.len() == 0 {
        0
    } else if category_before(c, list.last()) {
        category_position(list.drop_last(), c)
    } else {
        list.len() as int
    }
}

/// The distinct categories of the first `k` files, in display order.
pub open spec fn categories_upto(cs: Seq<ClassifiedFile>, k: int) -> Seq<Seq<char>>
    decreases k,
{
    if k <= 0 {
        Seq::empty()
    } else {
        let prev = categories_upto(cs, k - 1);
        let c = cs[k - 1].result.category@;
        if prev.contains(c) {
            prev
        } else {
            prev.insert(category_position(prev, c), c)
        }
    }
}

/// The categories of the tree, in display order.
pub open spec fn tree_categories(cs: Seq<ClassifiedFile>) -> Seq<Seq<char>> {
    categories_upto(cs, cs.len() as int)
}

/// Positions of the files among the first `k` whose category is `c`.
pub open spec fn members_upto(cs: Seq<ClassifiedFile>, c: Seq<char>, k: int) -> Seq<int>
    decreases k,
{
    if k <= 0 {
        Seq::empty()
    } else if cs[k - 1].result.category@ == c {
        members_upto(cs, c, k - 1).push(k - 1)
    } else {
        members_upto(cs, c, k - 1)
    }
}

/// Positions of the files of category `c`, in input order.
pub open spec fn members(cs: Seq<ClassifiedFile>, c: Seq<char>) -> Seq<int> {
    members_upto(cs, c, cs.len() as int)
}

/// The files at positions `m`.
pub open spec fn subset(cs: Seq<ClassifiedFile>, m: Seq<int>) -> Seq<ClassifiedFile> {
    m.map_values(|i: int| cs[i])
}

/// The part/revision groups of the files at positions `m`.
pub open spec fn member_groups(cs: Seq<ClassifiedFile>, m: Seq<int>) -> Seq<GroupSpec> {
    groups_upto(file_names(subset(cs, m)), m.len() as int)
}

/// A group becomes a branch unless it is a single file without revision.
pub open spec fn qualifies(g: GroupSpec) -> bool {
    !(g.members.len() <= 1 && g.revision is None)
}

/// Positions of the branch-forming groups among the first `k`.
pub open spec fn qualifying_upto(gs: Seq<GroupSpec>, k: int) -> Seq<int>
    decreases k,
{
    if k <= 0 {
        Seq::empty()
    } else if qualifies(gs[k - 1]) {
        qualifying_upto(gs, k - 1).push(k - 1)
    } else {
        qualifying_upto(gs, k - 1)
    }
}

/// The first of the positions `m`, from the `k`-th on, whose file has path
/// `p`, or -1.
pub open spec fn first_with_path(cs: Seq<ClassifiedFile>, m: Seq<int>, p: Seq<char>, k: int) -> int
    decreases m.len() - k,
{
    if k < 0 || k >= m.len() {
        -1
    } else if cs[m[k]].entry.path@ == p {
        m[k]
    } else {
        first_with_path(cs, m, p, k + 1)
    }
}

/// The files a branch shows: for each member of the group, the first file
/// of the category with the same path.
pub open spec fn branch_files(cs: Seq<ClassifiedFile>, m: Seq<int>, g: GroupSpec) -> Seq<int> {
    g.members.map_values(|x: int| first_with_path(cs, m, cs[m[x]].entry.path@, 0))
}

/// File `i` is shown in one of the branches `q` of groups `gs`.
pub open spec fn in_branches(cs: Seq<ClassifiedFile>, m: Seq<int>, gs: Seq<GroupSpec>, q: Seq<int>, i: int) -> bool {
    exists|j: int, t: int|
        0 <= j < q.len() && 0 <= t < gs[q[j]].members.len() && #[trigger] branch_files(cs, m, gs[q[j]])[t]
            == i
}

/// The files of the category, among its first `k`, shown in no branch.
pub open spec fn loose_upto(cs: Seq<ClassifiedFile>, m: Seq<int>, gs: Seq<GroupSpec>, q: Seq<int>, k: int) -> Seq<int>
    decreases k,
{
    if k <= 0 {
        Seq::empty()
    } else if in_branches(cs, m, gs, q, m[k - 1]) {
        loose_upto(cs, m, gs, q, k - 1)
    } else {
        loose_upto(cs, m, gs, q, k - 1).push(m[k - 1])
    }
}

/// `a + b` wrapped to 64 bits.
pub open spec fn add_wrapping(a: u64, b: u64) -> u64 {
    if a + b > u64::MAX {
        (a + b - 0x1_0000_0000_0000_0000) as u64
    } else {
        (a + b) as u64
    }
}

/// The total size of the files at positions `idxs`, wrapped to 64 bits.
pub open spec fn size_sum(cs: Seq<ClassifiedFile>, idxs: Seq<int>) -> u64
    decreases idxs.len(),
{
    if idxs.len() == 0 {
        0
    } else {
        add_wrapping(size_sum(cs, idxs.drop_last()), cs[idxs.last()].entry.file_size)
    }
}

/// Label of a category node: the category and its file count.
pub open spec fn category_label(c: Seq<char>, n: nat) -> Seq<char> {
    c + "  ("@ + decimal(n) + ")"@
}

/// Label of a branch node: part key and revision.
pub open spec fn branch_label(g: GroupSpec) -> Seq<char> {
    match g.revision {
        Some(r) => g.part_key + "  ·  Rev "@ + r,
        None => g.part_key + "  ·  (no rev)"@,
    }
}

/// `n` is the leaf of file `i`.
pub open spec fn is_file_node(n: TreeNode, cs: Seq<ClassifiedFile>, i: int) -> bool {
    &&& 0 <= i < cs.len()
    &&& n.label@ == cs[i].entry.filename@
    &&& n.kind == TreeNodeKind::File
    &&& n.children@.len() == 0
    &&& n.file_index == Some(i as usize)
    &&& n.file_count == 1
    &&& n.total_bytes == cs[i].entry.file_size
}

/// `ns` are the leaves of the files at positions `idxs`, in order.
pub open spec fn file_nodes_for(ns: Seq<TreeNode>, cs: Seq<ClassifiedFile>, idxs: Seq<int>) -> bool {
    &&& ns.len() == idxs.len()
    &&& forall|j: int| 0 <= j < ns.len() ==> is_file_node(#[trigger] ns[j], cs, idxs[j])
}

/// `n` is a node labelled `label` of kind `kind` over the leaves of the
/// files at positions `idxs`, with their count and total size.
pub open spec fn is_bucket(n: TreeNode, label: Seq<char>, kind: TreeNodeKind, cs: Seq<ClassifiedFile>, idxs: Seq<int>) -> bool {
    &&& n.label@ == label
    &&& n.kind == kind
    &&& file_nodes_for(n.children@, cs, idxs)
    &&& n.file_index is None
    &&& n.file_count == idxs.len()
    &&& n.total_bytes == size_sum(cs, idxs)
}

/// The children of a grouping category with members `m`: one branch per
/// branch-forming group in group order, then an `Other files` bucket for
/// the files in no branch, when there are any.
pub open spec fn grouped_children(ns: Seq<TreeNode>, cs: Seq<ClassifiedFile>, m: Seq<int>) -> bool {
    let gs = member_groups(cs, m);
    let q = qualifying_upto(gs, gs.len() as int);
    let l = loose_upto(cs, m, gs, q, m.len() as int);
    &&& ns.len() == q.len() + if l.len() > 0 {
        1int
    } else {
        0int
    }
    &&& forall|j: int|
        0 <= j < q.len() ==> is_bucket(
            #[trigger] ns[j],
            branch_label(gs[q[j]]),
            TreeNodeKind::PartBranch,
            cs,
            branch_files(cs, m, gs[q[j]]),
        )
    &&& l.len() > 0 ==> is_bucket(ns[q.len() as int], "Other files"@, TreeNodeKind::LooseBucket, cs, l)
}

/// `n` is the node of category `c`.
pub open spec fn is_category_node(n: TreeNode, cs: Seq<ClassifiedFile>, c: Seq<char>) -> bool {
    let m = members(cs, c);
    &&& n.label@ == category_label(c, m.len())
    &&& n.kind == TreeNodeKind::Category
    &&& n.file_index is None
    &&& n.file_count == m.len()
    &&& n.total_bytes == size_sum(cs, m)
    &&& if groupable_categories().contains(c) {
        grouped_children(n.children@, cs, m)
    } else {
        file_nodes_for(n.children@, cs, m)
    }
}

/// `categories_upto` lists exactly the categories of the first `k` files,
/// each once.
proof fn lemma_categories(cs: Seq<ClassifiedFile>, k: int)
    requires
        0 <= k <= cs.len(),
    ensures
        forall|c: Seq<char>|
            #[trigger] categories_upto(cs, k).contains(c) <==> exists|i: int|
                0 <= i < k && cs[i].result.category@ == c,
        forall|a: int, b: int|
            0 <= a < b < categories_upto(cs, k).len() ==> categories_upto(cs, k)[a] != categories_upto(
                cs,
                k,
            )[b],
    decreases k,
{
    if k > 0 {
        lemma_categories(cs, k - 1);
        let prev = categories_upto(cs, k - 1);
        let c = cs[k - 1].result.category@;
        if !prev.contains(c) {
            let pos = category_position(prev, c);
            lemma_category_position(prev, c);
            let cur = prev.insert(pos, c);
            assert forall|x: Seq<char>| #[trigger] cur.contains(x) <==> (prev.contains(x) || x == c) by {
                if cur.contains(x) {
                    let j = choose|j: int| 0 <= j < cur.len() && cur[j] == x;
                    if j < pos {
                        assert(prev[j] == x);
                    } else if j > pos {
                        assert(prev[j - 1] == x);
                    }
                }
                if prev.contains(x) {
                    let j = choose|j: int| 0 <= j < prev.len() && prev[j] == x;
                    if j < pos {
                        assert(cur[j] == x);
                    } else {
                        assert(cur[j + 1] == x);
                    }
                }
                if x == c {
                    assert(cur[pos] == x);
                }
            }
            assert forall|a: int, b: int| 0 <= a < b < cur.len() implies cur[a] != cur[b] by {
                if a == pos {
                    assert(prev.contains(cur[b]));
                } else if b == pos {
                    assert(prev.contains(cur[a]));
                }
            }
        }
        assert forall|x: Seq<char>|
            #[trigger] categories_upto(cs, k).contains(x) <==> exists|i: int| 0 <= i < k && cs[i].result.category@ == x by {
            if exists|i: int| 0 <= i < k && cs[i].result.category@ == x {
                let i = choose|i: int| 0 <= i < k && cs[i].result.category@ == x;
                if i < k - 1 {
                    assert(prev.contains(x));
                }
            }
        }
    }
}

/// `category_position` is a position inside the list.
proof fn lemma_category_position(list: Seq<Seq<char>>, c: Seq<char>)
    ensures
        0 <= category_position(list, c) <= list.len(),
    decreases list.len(),
{
    if list.len() > 0 {
        lemma_category_position(list.drop_last(), c);
    }
}

/// A category none of the first `k` files has has no members among them.
proof fn lemma_members_absent(cs: Seq<ClassifiedFile>, c: Seq<char>, k: int)
    requires
        0 <= k <= cs.len(),
        forall|i: int| 0 <= i < k ==> cs[i].result.category@ != c,
    ensures
        members_upto(cs, c, k) == Seq::<int>::empty(),
    decreases k,
{
    if k > 0 {
        lemma_members_absent(cs, c, k - 1);
    }
}

/// The positions as integers.
pub open spec fn as_ints(v: Seq<usize>) -> Seq<int> {
    v.map_values(|u: usize| u as int)
}

/// Whether `c` is a category that groups by part.
fn is_groupable(c: &String) -> (b: bool)
    ensures
        b == groupable_categories().contains(c@),
{
    let names = part_group_categories();
    let mut k: usize = 0;
    while k < names.len()
        invariant
            names@.len() == 3,
            names@[0]@ == "Drawing"@,
            names@[1]@ == "CAD Model"@,
            names@[2]@ == "Quality"@,
            k <= 3,
            forall|j: int| 0 <= j < k ==> names@[j]@ != c@,
        decreases 3 - k,
    {
        let a = chars_of(names[k]);
        let b = chars_of(c.as_str());
        if chars_equal(a.as_slice(), b.as_slice()) {
            assert(groupable_categories()[k as int] == c@);
            return true;
        }
        k = k + 1;
    }
    assert forall|j: int| 0 <= j < 3 implies groupable_categories()[j] != c@ by {
        assert(names@[j]@ != c@);
    }
    false
}

/// Whether category `a` is displayed before category `b`.
fn category_before_exec(a: &String, b: &String) -> (r: bool)
    ensures
        r == category_before(a@, b@),
{
    let marker = chars_of("Unclassified");
    let x = chars_of(a.as_str());
    let y = chars_of(b.as_str());
    let ua = contains_exec(x.as_slice(), marker.as_slice());
    let ub = contains_exec(y.as_slice(), marker.as_slice());
    if ua != ub {
        ub
    } else {
        crate::classify::grouping::text_less(x.as_slice(), y.as_slice())
    }
}

/// Position of the name equal to `c`.
fn find_name(names: &Vec<String>, c: &String) -> (r: Option<usize>)
    ensures
        match r {
            Some(k) => k < names@.len() && names@[k as int]@ == c@,
            None => forall|j: int| 0 <= j < names@.len() ==> (#[trigger] names@[j])@ != c@,
        },
{
    let mut k: usize = 0;
    while k < names.len()
        invariant
            k <= names@.len(),
            forall|j: int| 0 <= j < k ==> (#[trigger] names@[j])@ != c@,
        decreases names@.len() - k,
    {
        if names[k] == *c {
            return Some(k);
        }
        k = k + 1;
    }
    None
}

/// The categories of `cs` in display order, with the positions of their
/// files.
fn collect_categories(cs: &[ClassifiedFile]) -> (r: (Vec<String>, Vec<Vec<usize>>))
    ensures
        r.0@.len() == tree_categories(cs@).len(),
        r.1@.len() == r.0@.len(),
        forall|k: int| 0 <= k < r.0@.len() ==> (#[trigger] r.0@[k])@ == tree_categories(cs@)[k],
        forall|k: int| 0 <= k < r.1@.len() ==> as_ints((#[trigger] r.1@[k])@) == members(cs@, tree_categories(cs@)[k]),
{
    let mut names: Vec<String> = Vec::new();
    let mut groups: Vec<Vec<usize>> = Vec::new();
    let n = cs.len();
    for idx in 0..n
        invariant
            n == cs@.len(),
            names@.len() == categories_upto(cs@, idx as int).len(),
            groups@.len() == names@.len(),
            forall|k: int| 0 <= k < names@.len() ==> (#[trigger] names@[k])@ == categories_upto(cs@, idx as int)[k],
            forall|k: int|
                0 <= k < groups@.len() ==> as_ints((#[trigger] groups@[k])@) == members_upto(
                    cs@,
                    categories_upto(cs@, idx as int)[k],
                    idx as int,
                ),
    {
        let ghost prev = categories_upto(cs@, idx as int);
        proof {
            lemma_categories(cs@, idx as int);
        }
        let c = &cs[idx].result.category;
        let ghost cur = categories_upto(cs@, idx + 1);
        match find_name(&names, c) {
            Some(k) => {
                assert(prev.contains(c@)) by {
                    assert(prev[k as int] == c@);
                }
                assert(cur == prev);
                let mut v = groups.remove(k);
                v.push(idx);
                groups.insert(k, v);
                assert forall|j: int| 0 <= j < groups@.len() implies as_ints((#[trigger] groups@[j])@) == members_upto(
                    cs@,
                    cur[j],
                    idx + 1,
                ) by {
                    if j == k {
                        assert(as_ints(groups@[j]@) =~= members_upto(cs@, cur[j], idx as int).push(idx as int));
                    } else {
                        assert(prev[j] != prev[k as int]);
                    }
                }
            },
            None => {
                assert forall|j: int| 0 <= j < prev.len() implies prev[j] != c@ by {
                    assert(names@[j]@ != c@);
                }
                assert(!prev.contains(c@));
                let mut pos = names.len();
                assert(prev.take(pos as int) =~= prev);
                while pos > 0 && category_before_exec(c, &names[pos - 1])
                    invariant
                        pos <= names@.len(),
                        names@.len() == prev.len(),
                        forall|j: int| 0 <= j < names@.len() ==> (#[trigger] names@[j])@ == prev[j],
                        category_position(prev, c@) == category_position(prev.take(pos as int), c@),
                    decreases pos,
                {
                    assert(prev.take(pos as int).drop_last() =~= prev.take(pos - 1));
                    pos = pos - 1;
                }
                proof {
                    lemma_category_position(prev, c@);
                    lemma_members_absent(cs@, c@, idx as int);
                }
                assert(cur == prev.insert(pos as int, c@));
                names.insert(pos, c.clone());
                let mut first: Vec<usize> = Vec::new();
                first.push(idx);
                groups.insert(pos, first);
                assert forall|j: int| 0 <= j < groups@.len() implies as_ints((#[trigger] groups@[j])@) == members_upto(
                    cs@,
                    cur[j],
                    idx + 1,
                ) by {
                    if j == pos {
                        assert(as_ints(groups@[j]@) =~= seq![idx as int]);
                        assert(members_upto(cs@, c@, idx as int) == Seq::<int>::empty());
                    } else if j < pos {
                        assert(prev[j] != c@);
                    } else {
                        assert(prev[j - 1] != c@);
                    }
                }
            },
        }
    }
    proof {
        lemma_categories(cs@, n as int);
    }
    (names, groups)
}

/// Searching from a member's own position finds a file with its path, and
/// the file found is one of the members.
proof fn lemma_first_with_path(cs: Seq<ClassifiedFile>, m: Seq<int>, x: int, k: int)
    requires
        0 <= k <= x < m.len(),
        forall|j: int| 0 <= j < m.len() ==> 0 <= #[trigger] m[j],
    ensures
        first_with_path(cs, m, cs[m[x]].entry.path@, k) >= 0,
        m.contains(first_with_path(cs, m, cs[m[x]].entry.path@, k)),
    decreases x - k,
{
    if cs[m[k]].entry.path@ == cs[m[x]].entry.path@ {
        assert(m[k] == first_with_path(cs, m, cs[m[x]].entry.path@, k));
        assert(0 <= m[k]);
        assert(m.contains(m[k]));
    } else {
        lemma_first_with_path(cs, m, x, k + 1);
    }
}

/// The leaf of file `idx`.
fn file_node(cs: &[ClassifiedFile], idx: usize) -> (n: TreeNode)
    requires
        idx < cs@.len(),
    ensures
        is_file_node(n, cs@, idx as int),
{
    let cf = &cs[idx];
    TreeNode {
        label: cf.entry.filename.clone(),
        kind: TreeNodeKind::File,
        children: Vec::new(),
        file_index: Some(idx),
        file_count: 1,
        total_bytes: cf.entry.file_size,
    }
}

/// The leaves of the files at positions `idxs`.
fn file_nodes(cs: &[ClassifiedFile], idxs: &Vec<usize>) -> (v: Vec<TreeNode>)
    requires
        forall|j: int| 0 <= j < idxs@.len() ==> (#[trigger] idxs@[j]) < cs@.len(),
    ensures
        file_nodes_for(v@, cs@, as_ints(idxs@)),
{
    let mut v: Vec<TreeNode> = Vec::new();
    for j in 0..idxs.len()
        invariant
            forall|j: int| 0 <= j < idxs@.len() ==> (#[trigger] idxs@[j]) < cs@.len(),
            v@.len() == j,
            forall|t: int| 0 <= t < j ==> is_file_node(#[trigger] v@[t], cs@, idxs@[t] as int),
    {
        v.push(file_node(cs, idxs[j]));
    }
    v
}

/// The total size of the files at positions `idxs`, wrapped to 64 bits.
fn sum_sizes(cs: &[ClassifiedFile], idxs: &Vec<usize>) -> (total: u64)
    requires
        forall|j: int| 0 <= j < idxs@.len() ==> (#[trigger] idxs@[j]) < cs@.len(),
    ensures
        total == size_sum(cs@, as_ints(idxs@)),
{
    let mut total: u64 = 0;
    for j in 0..idxs.len()
        invariant
            forall|j: int| 0 <= j < idxs@.len() ==> (#[trigger] idxs@[j]) < cs@.len(),
            total == size_sum(cs@, as_ints(idxs@.take(j as int))),
    {
        assert(as_ints(idxs@.take(j + 1)).drop_last() =~= as_ints(idxs@.take(j as int)));
        total = total.wrapping_add(cs[idxs[j]].entry.file_size);
    }
    assert(idxs@.take(idxs@.len() as int) =~= idxs@);
    total
}

/// File count and total size of leaves `nodes` of the files `idxs`.
fn aggregate(nodes: &Vec<TreeNode>, Ghost(cs): Ghost<Seq<ClassifiedFile>>, Ghost(idxs): Ghost<Seq<int>>) -> (r: (
    usize,
    u64,
))
    requires
        file_nodes_for(nodes@, cs, idxs),
    ensures
        r.0 == idxs.len(),
        r.1 == size_sum(cs, idxs),
{
    let mut count: usize = 0;
    let mut bytes: u64 = 0;
    for j in 0..nodes.len()
        invariant
            file_nodes_for(nodes@, cs, idxs),
            count == j,
            bytes == size_sum(cs, idxs.take(j as int)),
    {
        assert(is_file_node(nodes@[j as int], cs, idxs[j as int]));
        assert(idxs.take(j + 1).drop_last() =~= idxs.take(j as int));
        count = count + nodes[j].file_count;
        bytes = bytes.wrapping_add(nodes[j].total_bytes);
    }
    assert(idxs.take(idxs.len() as int) =~= idxs);
    (count, bytes)
}

/// A node labelled `label` of kind `kind` over the leaves `children` of the
/// files `idxs`.
fn bucket(
    label: String,
    kind: TreeNodeKind,
    children: Vec<TreeNode>,
    Ghost(cs): Ghost<Seq<ClassifiedFile>>,
    Ghost(idxs): Ghost<Seq<int>>,
) -> (n: TreeNode)
    requires
        file_nodes_for(children@, cs, idxs),
    ensures
        is_bucket(n, label@, kind, cs, idxs),
{
    let (fc, tb) = aggregate(&children, Ghost(cs), Ghost(idxs));
    TreeNode { label, kind, children, file_index: None, file_count: fc, total_bytes: tb }
}

/// The first of the positions `idxs` whose file has path `p`.
fn first_path_index(cs: &[ClassifiedFile], idxs: &Vec<usize>, p: &String) -> (r: Option<usize>)
    requires
        forall|j: int| 0 <= j < idxs@.len() ==> (#[trigger] idxs@[j]) < cs@.len(),
    ensures
        match r {
            Some(i) => i as int == first_with_path(cs@, as_ints(idxs@), p@, 0),
            None => first_with_path(cs@, as_ints(idxs@), p@, 0) == -1,
        },
{
    let ghost m = as_ints(idxs@);
    for j in 0..idxs.len()
        invariant
            forall|j: int| 0 <= j < idxs@.len() ==> (#[trigger] idxs@[j]) < cs@.len(),
            m == as_ints(idxs@),
            first_with_path(cs@, m, p@, 0) == first_with_path(cs@, m, p@, j as int),
    {
        if cs[idxs[j]].entry.path == *p {
            return Some(idxs[j]);
        }
    }
    None
}

/// Label of the branch of a group with part key `part` and revision `rev`.
fn branch_label_exec(part: &String, rev: &Option<String>) -> (l: String)
    ensures
        l@ == match rev {
            Some(r) => part@ + "  ·  Rev "@ + r@,
            None => part@ + "  ·  (no rev)"@,
        },
{
    match rev {
        Some(r) => {
            let head = crate::text::concat(part.as_str(), "  ·  Rev ");
            crate::text::concat(head.as_str(), r.as_str())
        },
        None => crate::text::concat(part.as_str(), "  ·  (no rev)"),
    }
}

/// Whether file `i` is a leaf of one of the branch nodes `branches`.
fn shown_in(branches: &Vec<TreeNode>, i: usize) -> (b: bool)
    ensures
        b == exists|j: int, t: int|
            0 <= j < branches@.len() && 0 <= t < branches@[j].children@.len()
                && #[trigger] branches@[j].children@[t].file_index == Some(i),
{
    for j in 0..branches.len()
        invariant
            forall|a: int, t: int|
                0 <= a < j && 0 <= t < branches@[a].children@.len() ==> #[trigger] branches@[a].children@[t].file_index
                    != Some(i),
    {
        let kids = &branches[j].children;
        for t in 0..kids.len()
            invariant
                j < branches@.len(),
                kids@ == branches@[j as int].children@,
                forall|a: int, t: int|
                    0 <= a < j && 0 <= t < branches@[a].children@.len() ==> #[trigger] branches@[a].children@[t].file_index
                        != Some(i),
                forall|u: int| 0 <= u < t ==> #[trigger] kids@[u].file_index != Some(i),
        {
            let hit = match kids[t].file_index {
                Some(fi) => fi == i,
                None => false,
            };
            if hit {
                assert(branches@[j as int].children@[t as int].file_index == Some(i));
                return true;
            }
        }
    }
    false
}

/// The children of a grouping category whose files are at `indices`; see
/// `grouped_children`.
fn grouped_children_exec(cs: &[ClassifiedFile], indices: &Vec<usize>) -> (v: Vec<TreeNode>)
    requires
        forall|j: int| 0 <= j < indices@.len() ==> (#[trigger] indices@[j]) < cs@.len(),
    ensures
        grouped_children(v@, cs@, as_ints(indices@)),
{
    let ghost m = as_ints(indices@);
    let total = cs.len();
    assert(total == cs@.len());
    assert forall|j: int| 0 <= j < m.len() implies 0 <= #[trigger] m[j] by {
        assert(m[j] == indices@[j] as int);
    }
    let mut subset_files: Vec<ClassifiedFile> = Vec::new();
    for j in 0..indices.len()
        invariant
            forall|j: int| 0 <= j < indices@.len() ==> (#[trigger] indices@[j]) < cs@.len(),
            m == as_ints(indices@),
            subset_files@.len() == j,
            forall|t: int| 0 <= t < j ==> (#[trigger] subset_files@[t]).entry == cs@[m[t]].entry,
    {
        subset_files.push(copy_classified(&cs[indices[j]]));
    }
    assert(file_names(subset_files@) =~= file_names(subset(cs@, m)));
    let groups = group_by_part_revision(subset_files.as_slice());
    let ghost gs = member_groups(cs@, m);
    let mut children: Vec<TreeNode> = Vec::new();
    for g in 0..groups.len()
        invariant
            forall|j: int| 0 <= j < indices@.len() ==> (#[trigger] indices@[j]) < cs@.len(),
            m == as_ints(indices@),
            forall|j: int| 0 <= j < m.len() ==> 0 <= #[trigger] m[j],
            subset_files@.len() == m.len(),
            forall|t: int| 0 <= t < m.len() ==> (#[trigger] subset_files@[t]).entry == cs@[m[t]].entry,
            gs == member_groups(cs@, m),
            groups@.len() == gs.len(),
            forall|i: int| 0 <= i < groups@.len() ==> (#[trigger] groups@[i]).is(gs[i], subset_files@),
            children@.len() == qualifying_upto(gs, g as int).len(),
            forall|j: int|
                0 <= j < children@.len() ==> is_bucket(
                    #[trigger] children@[j],
                    branch_label(gs[qualifying_upto(gs, g as int)[j]]),
                    TreeNodeKind::PartBranch,
                    cs@,
                    branch_files(cs@, m, gs[qualifying_upto(gs, g as int)[j]]),
                ),
    {
        let group = &groups[g];
        assert(group.is(gs[g as int], subset_files@));
        if !(group.files.len() <= 1 && group.revision.is_none()) {
            let ghost gg = gs[g as int];
            let ghost bf = branch_files(cs@, m, gg);
            let mut nodes: Vec<TreeNode> = Vec::new();
            for t in 0..group.files.len()
                invariant
                    forall|j: int| 0 <= j < indices@.len() ==> (#[trigger] indices@[j]) < cs@.len(),
                    m == as_ints(indices@),
                    forall|j: int| 0 <= j < m.len() ==> 0 <= #[trigger] m[j],
                    subset_files@.len() == m.len(),
                    forall|t: int| 0 <= t < m.len() ==> (#[trigger] subset_files@[t]).entry == cs@[m[t]].entry,
                    group.is(gg, subset_files@),
                    bf == branch_files(cs@, m, gg),
                    nodes@.len() == t,
                    forall|u: int| 0 <= u < t ==> is_file_node(#[trigger] nodes@[u], cs@, bf[u]),
            {
                assert(crate::classify::grouping::member_matches(group.files@, gg, subset_files@, t as int));
                let ghost x = gg.members[t as int];
                proof {
                    lemma_first_with_path(cs@, m, x, 0);
                }
                match first_path_index(cs, indices, &group.files[t].entry.path) {
                    Some(i) => {
                        assert(i as int == bf[t as int]);
                        assert(m.contains(i as int));
                        nodes.push(file_node(cs, i));
                    },
                    None => {
                        assert(false);
                    },
                }
            }
            let label = branch_label_exec(&group.part_key, &group.revision);
            assert(label@ == branch_label(gg));
            let node = bucket(label, TreeNodeKind::PartBranch, nodes, Ghost(cs@), Ghost(bf));
            children.push(node);
        }
        assert(qualifying_upto(gs, g + 1) == if qualifies(gs[g as int]) {
            qualifying_upto(gs, g as int).push(g as int)
        } else {
            qualifying_upto(gs, g as int)
        });
    }
    let ghost q = qualifying_upto(gs, gs.len() as int);
    let ghost branches = children@;
    let mut loose: Vec<usize> = Vec::new();
    for j in 0..indices.len()
        invariant
            forall|j: int| 0 <= j < indices@.len() ==> (#[trigger] indices@[j]) < cs@.len(),
            m == as_ints(indices@),
            total == cs@.len(),
            children@ == branches,
            branches.len() == q.len(),
            forall|a: int|
                0 <= a < branches.len() ==> is_bucket(
                    #[trigger] branches[a],
                    branch_label(gs[q[a]]),
                    TreeNodeKind::PartBranch,
                    cs@,
                    branch_files(cs@, m, gs[q[a]]),
                ),
            as_ints(loose@) == loose_upto(cs@, m, gs, q, j as int),
            forall|u: int| 0 <= u < loose@.len() ==> (#[trigger] loose@[u]) < cs@.len(),
    {
        let i = indices[j];
        let shown = shown_in(&children, i);
        assert(shown == in_branches(cs@, m, gs, q, i as int)) by {
            if shown {
                let (a, t) = choose|a: int, t: int|
                    0 <= a < branches.len() && 0 <= t < branches[a].children@.len()
                        && #[trigger] branches[a].children@[t].file_index == Some(i);
                assert(is_file_node(branches[a].children@[t], cs@, branch_files(cs@, m, gs[q[a]])[t]));
                let x = branch_files(cs@, m, gs[q[a]])[t];
                assert(0 <= x < cs@.len());
                assert(x as usize == i);
                assert(x == i);
            }
            if in_branches(cs@, m, gs, q, i as int) {
                let (a, t) = choose|a: int, t: int|
                    0 <= a < q.len() && 0 <= t < gs[q[a]].members.len() && #[trigger] branch_files(
                        cs@,
                        m,
                        gs[q[a]],
                    )[t] == i;
                assert(is_file_node(branches[a].children@[t], cs@, branch_files(cs@, m, gs[q[a]])[t]));
                assert(branches[a].children@[t].file_index == Some(i));
            }
        }
        if !shown {
            loose.push(i);
        }
        assert(as_ints(loose@) =~= loose_upto(cs@, m, gs, q, j + 1));
    }
    if loose.len() > 0 {
        let nodes = file_nodes(cs, &loose);
        let node = bucket("Other files".to_owned(), TreeNodeKind::LooseBucket, nodes, Ghost(cs@), Ghost(as_ints(loose@)));
        children.push(node);
    }
    children
}

/// Label of a category node.
fn category_label_exec(c: &String, n: usize) -> (l: String)
    ensures
        l@ == category_label(c@, n as nat),
{
    let head = crate::text::concat(c.as_str(), "  (");
    let count = decimal_string(n as u64);
    let body = crate::text::concat(head.as_str(), count.as_str());
    crate::text::concat(body.as_str(), ")")
}

/// Builds the branch tree of classified files: one node per category in
/// display order; for the categories that group by part, branch nodes per
/// part/revision group and a bucket for the remaining files; leaves for
/// files. Sizes add up wrapping at 64 bits.
pub fn build_branch_tree(classified: &[ClassifiedFile]) -> (t: BranchTree)
    ensures
        t.roots@.len() == tree_categories(classified@).len(),
        forall|k: int|
            0 <= k < t.roots@.len() ==> is_category_node(#[trigger] t.roots@[k], classified@, tree_categories(classified@)[k]),
{
    let (names, groups) = collect_categories(classified);
    let ghost cats = tree_categories(classified@);
    let mut roots: Vec<TreeNode> = Vec::new();
    for k in 0..names.len()
        invariant
            names@.len() == cats.len(),
            groups@.len() == names@.len(),
            cats == tree_categories(classified@),
            forall|k: int| 0 <= k < names@.len() ==> (#[trigger] names@[k])@ == cats[k],
            forall|k: int| 0 <= k < groups@.len() ==> as_ints((#[trigger] groups@[k])@) == members(classified@, cats[k]),
            roots@.len() == k,
            forall|j: int| 0 <= j < k ==> is_category_node(#[trigger] roots@[j], classified@, cats[j]),
    {
        let cat = &names[k];
        let indices = &groups[k];
        let ghost m = members(classified@, cats[k as int]);
        assert(as_ints(indices@) == m);
        proof {
            lemma_members_bounded(classified@, cats[k as int], classified@.len() as int);
        }
        assert forall|j: int| 0 <= j < indices@.len() implies (#[trigger] indices@[j]) < classified@.len() by {
            assert(m[j] == indices@[j] as int);
        }
        let cat_bytes = sum_sizes(classified, indices);
        let children = if is_groupable(cat) {
            grouped_children_exec(classified, indices)
        } else {
            file_nodes(classified, indices)
        };
        let label = category_label_exec(cat, indices.len());
        roots.push(TreeNode {
            label,
            kind: TreeNodeKind::Category,
            children,
            file_index: None,
            file_count: indices.len(),
            total_bytes: cat_bytes,
        });
    }
    BranchTree { roots }
}

/// Member positions are positions of files.
proof fn lemma_members_bounded(cs: Seq<ClassifiedFile>, c: Seq<char>, k: int)
    requires
        0 <= k <= cs.len(),
    ensures
        forall|j: int| 0 <= j < members_upto(cs, c, k).len() ==> 0 <= #[trigger] members_upto(cs, c, k)[j] < k,
    decreases k,
{
    if k > 0 {
        lemma_members_bounded(cs, c, k - 1);
        let prev = members_upto(cs, c, k - 1);
        assert forall|j: int| 0 <= j < members_upto(cs, c, k).len() implies 0 <= #[trigger] members_upto(cs, c, k)[j] < k by {
            if j < prev.len() {
                assert(members_upto(cs, c, k)[j] == prev[j]);
            }
        }
    }
}

/// Number of part-branch nodes in the tree under `n`, `n` included.
pub open spec fn node_branches(n: TreeNode) -> nat
    decreases n, 1int,
{
    (if n.kind == TreeNodeKind::PartBranch {
        1nat
    } else {
        0nat
    }) + nodes_branches(n.children@, n.children@.len() as int)
}

/// Number of part-branch nodes in the trees under the first `k` of `ns`.
pub open spec fn nodes_branches(ns: Seq<TreeNode>, k: int) -> nat
    decreases ns, k,
{
    if k <= 0 || k > ns.len() {
        0
    } else {
        nodes_branches(ns, k - 1) + node_branches(ns[k - 1])
    }
}

/// `n` wrapped to the width of `usize`.
pub open spec fn wrap_usize(n: nat) -> nat {
    n % (usize::MAX as nat + 1)
}

/// Adding wrapped numbers with wrapping gives the wrapped sum.
proof fn lemma_wrapping_sum(a: nat, b: nat)
    ensures
        wrap_usize(a + b) as int == (if wrap_usize(a) + wrap_usize(b) > usize::MAX {
            wrap_usize(a) + wrap_usize(b) - (usize::MAX as nat + 1)
        } else {
            (wrap_usize(a) + wrap_usize(b)) as int
        }),
{
    let m = usize::MAX as int + 1;
    vstd::arithmetic::div_mod::lemma_add_mod_noop(a as int, b as int, m);
    let x = (a as int) % m;
    let y = (b as int) % m;
    vstd::arithmetic::div_mod::lemma_mod_bound(a as int, m);
    vstd::arithmetic::div_mod::lemma_mod_bound(b as int, m);
    if x + y >= m {
        vstd::arithmetic::div_mod::lemma_mod_sub_multiples_vanish(x + y, m);
        vstd::arithmetic::div_mod::lemma_small_mod((x + y - m) as nat, m as nat);
        assert(-m + (x + y) == x + y - m);
    } else {
        vstd::arithmetic::div_mod::lemma_small_mod((x + y) as nat, m as nat);
    }
}

/// Counts the part-branch nodes under `nodes`, wrapping at the width of
/// `usize`.
fn count_nodes(nodes: &Vec<TreeNode>) -> (r: usize)
    ensures
        r == wrap_usize(nodes_branches(nodes@, nodes@.len() as int)),
    decreases nodes@,
{
    let mut total: usize = 0;
    proof {
        vstd::arithmetic::div_mod::lemma_small_mod(0, usize::MAX as nat + 1);
    }
    for i in 0..nodes.len()
        invariant
            total == wrap_usize(nodes_branches(nodes@, i as int)),
    {
        let node = &nodes[i];
        let here: usize = if node.kind == TreeNodeKind::PartBranch {
            1
        } else {
            0
        };
        let below = count_nodes(&node.children);
        let ghost a = nodes_branches(nodes@, i as int);
        let ghost b = nodes_branches(node.children@, node.children@.len() as int);
        assert(node_branches(*node) == here + b);
        proof {
            lemma_wrapping_sum(a, here as nat);
            vstd::arithmetic::div_mod::lemma_small_mod(here as nat, usize::MAX as nat + 1);
            lemma_wrapping_sum((a + here) as nat, b);
        }
        total = total.wrapping_add(here).wrapping_add(below);
    }
    total
}

impl BranchTree {
    /// Number of part-branch nodes in the tree.
    pub open spec fn branch_count(&self) -> nat {
        nodes_branches(self.roots@, self.roots@.len() as int)
    }

    /// The number of part-branch nodes in the tree, wrapping at the width
    /// of `usize`.
    pub fn count_branches(&self) -> (n: usize)
        ensures
            n == wrap_usize(self.branch_count()),
    {
        count_nodes(&self.roots)
    }
}

/// Total number of members of the categories `cats` among the first `k`
/// files.
pub open spec fn member_total(cs: Seq<ClassifiedFile>, cats: Seq<Seq<char>>, k: int) -> nat
    decreases cats.len(),
{
    if cats.len() == 0 {
        0
    } else {
        member_total(cs, cats.drop_last(), k) + members_upto(cs, cats.last(), k).len()
    }
}

/// Number of positions of `cats` holding `c`.
pub open spec fn occurrences(cats: Seq<Seq<char>>, c: Seq<char>) -> nat
    decreases cats.len(),
{
    if cats.len() == 0 {
        0
    } else {
        occurrences(cats.drop_last(), c) + if cats.last() == c {
            1nat
        } else {
            0nat
        }
    }
}

/// Adding file `k - 1` adds one member to each position holding its
/// category.
proof fn lemma_member_total_step(cs: Seq<ClassifiedFile>, cats: Seq<Seq<char>>, k: int)
    requires
        0 < k <= cs.len(),
    ensures
        member_total(cs, cats, k) == member_total(cs, cats, k - 1) + occurrences(
            cats,
            cs[k - 1].result.category@,
        ),
    decreases cats.len(),
{
    if cats.len() > 0 {
        lemma_member_total_step(cs, cats.drop_last(), k);
    }
}

/// In a list without repeats, a category occurs once if present and not
/// at all otherwise.
proof fn lemma_occurrences(cats: Seq<Seq<char>>, c: Seq<char>)
    requires
        forall|a: int, b: int| 0 <= a < b < cats.len() ==> cats[a] != cats[b],
    ensures
        occurrences(cats, c) == if cats.contains(c) {
            1nat
        } else {
            0nat
        },
    decreases cats.len(),
{
    if cats.len() > 0 {
        let init = cats.drop_last();
        lemma_occurrences(init, c);
        if cats.last() == c {
            assert(!init.contains(c)) by {
                if init.contains(c) {
                    let j = choose|j: int| 0 <= j < init.len() && init[j] == c;
                    assert(cats[j] == cats[cats.len() - 1]);
                }
            }
            assert(cats.contains(c)) by {
                assert(cats[cats.len() - 1] == c);
            }
        } else {
            if init.contains(c) {
                let j = choose|j: int| 0 <= j < init.len() && init[j] == c;
                assert(cats[j] == c);
            }
            if cats.contains(c) {
                let j = choose|j: int| 0 <= j < cats.len() && cats[j] == c;
                assert(init[j] == c);
            }
        }
    }
}

/// Inserting a category adds its members to the total.
proof fn lemma_member_total_insert(cs: Seq<ClassifiedFile>, cats: Seq<Seq<char>>, pos: int, c: Seq<char>, k: int)
    requires
        0 <= pos <= cats.len(),
    ensures
        member_total(cs, cats.insert(pos, c), k) == member_total(cs, cats, k) + members_upto(cs, c, k).len(),
    decreases cats.len(),
{
    let ins = cats.insert(pos, c);
    if pos == cats.len() {
        assert(ins.drop_last() =~= cats);
    } else {
        lemma_member_total_insert(cs, cats.drop_last(), pos, c, k);
        assert(ins.drop_last() =~= cats.drop_last().insert(pos, c));
        assert(ins.last() == cats.last());
    }
}

/// The categories of the first `k` files hold `k` members in total.
proof fn lemma_categories_partition(cs: Seq<ClassifiedFile>, k: int)
    requires
        0 <= k <= cs.len(),
    ensures
        member_total(cs, categories_upto(cs, k), k) == k,
    decreases k,
{
    if k > 0 {
        lemma_categories_partition(cs, k - 1);
        lemma_categories(cs, k - 1);
        let prev = categories_upto(cs, k - 1);
        let c = cs[k - 1].result.category@;
        lemma_member_total_step(cs, prev, k);
        lemma_occurrences(prev, c);
        if !prev.contains(c) {
            let pos = category_position(prev, c);
            lemma_category_position(prev, c);
            lemma_member_total_insert(cs, prev, pos, c, k);
            lemma_members_absent(cs, c, k - 1);
            assert forall|i: int| 0 <= i < k - 1 implies cs[i].result.category@ != c by {
                if cs[i].result.category@ == c {
                    assert(exists|j: int| 0 <= j < k - 1 && cs[j].result.category@ == c);
                }
            }
            lemma_members_absent(cs, c, k - 1);
            lemma_member_total_step(cs, prev, k);
            lemma_occurrences(prev, c);
        }
    }
}

/// The category nodes account for every file: the members of the tree's
/// categories add up to the number of files.
pub proof fn law_category_nodes_partition(cs: Seq<ClassifiedFile>)
    ensures
        member_total(cs, tree_categories(cs), cs.len() as int) == cs.len(),
{
    lemma_categories_partition(cs, cs.len() as int);
}

/// Category `a` is not displayed after category `b`.
pub open spec fn category_le(a: Seq<char>, b: Seq<char>) -> bool {
    !category_before(b, a)
}

/// Of two different categories exactly one is displayed first.
proof fn lemma_category_before_total(a: Seq<char>, b: Seq<char>)
    ensures
        a != b ==> (category_before(a, b) || category_before(b, a)),
        !(category_before(a, b) && category_before(b, a)),
{
    lemma_text_lt_total(a, b);
}

/// Display order is transitive.
proof fn lemma_category_before_transitive(a: Seq<char>, b: Seq<char>, c: Seq<char>)
    requires
        category_before(a, b),
        category_before(b, c),
    ensures
        category_before(a, c),
{
    if is_unclassified(a) == is_unclassified(b) && is_unclassified(b) == is_unclassified(c) {
        lemma_text_lt_transitive(a, b, c);
    }
}

/// "Not displayed after" is transitive.
proof fn lemma_category_le_transitive(a: Seq<char>, b: Seq<char>, c: Seq<char>)
    requires
        category_le(a, b),
        category_le(b, c),
    ensures
        category_le(a, c),
{
    lemma_category_before_total(a, b);
    lemma_category_before_total(b, c);
    lemma_category_before_total(a, c);
    if category_before(c, a) {
        if a != b && b != c {
            lemma_category_before_transitive(a, b, c);
        } else if a == b && b == c {
            lemma_text_lt_irreflexive(a);
        }
    }
}

/// Where `category_position` puts a category: after the last one it does
/// not come before, before the ones it comes before.
proof fn lemma_category_position_order(list: Seq<Seq<char>>, c: Seq<char>)
    ensures
        forall|j: int|
            category_position(list, c) <= j < list.len() ==> category_before(c, #[trigger] list[j]),
        category_position(list, c) > 0 ==> !category_before(c, list[category_position(list, c) - 1]),
    decreases list.len(),
{
    if list.len() > 0 && category_before(c, list.last()) {
        let init = list.drop_last();
        lemma_category_position_order(init, c);
        lemma_category_position(init, c);
        assert forall|j: int| category_position(list, c) <= j < list.len() implies category_before(
            c,
            #[trigger] list[j],
        ) by {
            if j < list.len() - 1 {
                assert(init[j] == list[j]);
            }
        }
    }
}

/// The categories of the first `k` files are in display order.
proof fn lemma_categories_sorted(cs: Seq<ClassifiedFile>, k: int)
    requires
        0 <= k <= cs.len(),
    ensures
        forall|i: int, j: int|
            0 <= i < j < categories_upto(cs, k).len() ==> category_le(
                #[trigger] categories_upto(cs, k)[i],
                #[trigger] categories_upto(cs, k)[j],
            ),
    decreases k,
{
    if k > 0 {
        lemma_categories_sorted(cs, k - 1);
        let prev = categories_upto(cs, k - 1);
        let c = cs[k - 1].result.category@;
        if !prev.contains(c) {
            let pos = category_position(prev, c);
            lemma_category_position(prev, c);
            lemma_category_position_order(prev, c);
            let cur = categories_upto(cs, k);
            assert forall|i: int, j: int| 0 <= i < j < cur.len() implies category_le(
                #[trigger] cur[i],
                #[trigger] cur[j],
            ) by {
                if j < pos {
                    assert(cur[i] == prev[i] && cur[j] == prev[j]);
                } else if j == pos {
                    assert(cur[i] == prev[i]);
                    if i < pos - 1 {
                        assert(category_le(prev[i], prev[pos - 1]));
                        lemma_category_le_transitive(prev[i], prev[pos - 1], c);
                    }
                } else if i == pos {
                    assert(cur[j] == prev[j - 1]);
                    lemma_category_before_total(c, prev[j - 1]);
                } else if i < pos {
                    assert(cur[i] == prev[i] && cur[j] == prev[j - 1]);
                } else {
                    assert(cur[i] == prev[i - 1] && cur[j] == prev[j - 1]);
                }
            }
        }
    }
}

/// Category nodes come in display order: every category without
/// `Unclassified` in its name before every one with it, each part in text
/// order.
pub proof fn law_categories_in_display_order(cs: Seq<ClassifiedFile>)
    ensures
        forall|i: int, j: int|
            0 <= i < j < tree_categories(cs).len() ==> category_le(
                #[trigger] tree_categories(cs)[i],
                #[trigger] tree_categories(cs)[j],
            ),
{
    lemma_categories_sorted(cs, cs.len() as int);
}

} // verus!
