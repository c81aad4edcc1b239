//! What the file browser shows: the files that a search keeps in view,
//! and the other files of the selected file's category.
use vstd::prelude::*;

use crate::classify::engine::ClassifiedFile;
use crate::text::{chars_equal, chars_of, contains, contains_exec, lower, lower_chars};

verus! {

/// How many files of the selected file's category are listed beside it.
pub const PEER_LIMIT: usize = 8;

/// A file labelled `label` stays in view under the search text `search`:
/// the search is empty, or the label contains it, ignoring ASCII case.
pub open spec fn search_keeps(label: Seq<char>, search: Seq<char>) -> bool {
    search.len() == 0 || contains(lower(label), lower(search))
}

/// Whether a file labelled `label` stays in view under `search`.
pub fn matches_search(label: &str, search: &str) -> (b: bool)
    ensures
        b == search_keeps(label@, search@),
{
    let query = chars_of(search);
    if query.len() == 0 {
        return true;
    }
    let hay = lower_chars(chars_of(label).as_slice());
    let needle = lower_chars(query.as_slice());
    contains_exec(hay.as_slice(), needle.as_slice())
}

/// File `j` is a peer of file `sel`: it has the same category and another
/// path.
pub open spec fn is_peer(cs: Seq<ClassifiedFile>, sel: int, j: int) -> bool {
    &&& cs[j].result.category@ == cs[sel].result.category@
    &&& cs[j].entry.path@ != cs[sel].entry.path@
}

/// The positions of the peers of file `sel` among the first `k` files, in
/// order.
pub open spec fn peer_positions(cs: Seq<ClassifiedFile>, sel: int, k: int) -> Seq<int>
    decreases k,
{
    if k <= 0 {
        Seq::empty()
    } else if is_peer(cs, sel, k - 1) {
        peer_positions(cs, sel, k - 1).push(k - 1)
    } else {
        peer_positions(cs, sel, k - 1)
    }
}

/// The positions of the first `PEER_LIMIT` peers of file `selected` (same
/// category, another path), in order.
pub fn recent_in_category(classified: &[ClassifiedFile], selected: usize) -> (v: Vec<usize>)
    requires
        selected < classified@.len(),
    ensures
        ({
            let peers = peer_positions(classified@, selected as int, classified@.len() as int);
            &&& v@.len() == if peers.len() < PEER_LIMIT {
                peers.len()
            } else {
                PEER_LIMIT as nat
            }
            &&& forall|k: int| 0 <= k < v@.len() ==> #[trigger] v@[k] as int == peers[k]
        }),
{
    let n = classified.len();
    let category = chars_of(classified[selected].result.category.as_str());
    let path = chars_of(classified[selected].entry.path.as_str());
    let mut v: Vec<usize> = Vec::new();
    for j in 0..n
        invariant
            n == classified@.len(),
            selected < n,
            category@ == classified@[selected as int].result.category@,
            path@ == classified@[selected as int].entry.path@,
            v@.len() == if peer_positions(classified@, selected as int, j as int).len() < PEER_LIMIT {
                peer_positions(classified@, selected as int, j as int).len()
            } else {
                PEER_LIMIT as nat
            },
            forall|k: int|
                0 <= k < v@.len() ==> #[trigger] v@[k] as int == peer_positions(
                    classified@,
                    selected as int,
                    j as int,
                )[k],
    {
        let ghost before = peer_positions(classified@, selected as int, j as int);
        let same_category = chars_equal(chars_of(classified[j].result.category.as_str()).as_slice(), category.as_slice());
        let same_path = chars_equal(chars_of(classified[j].entry.path.as_str()).as_slice(), path.as_slice());
        if same_category && !same_path {
            if v.len() < PEER_LIMIT {
                v.push(j);
            }
        }
        assert(peer_positions(classified@, selected as int, j + 1) == if is_peer(classified@, selected as int, j as int) {
            before.push(j as int)
        } else {
            before
        });
    }
    v
}

} // verus!
