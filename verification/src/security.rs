//! Fixed choices of the local-first application that the library needs.
use vstd::prelude::*;

verus! {

/// The categories whose files are grouped into part/revision branches.
pub open spec fn groupable_categories() -> Seq<Seq<char>> {
    seq!["Drawing"@, "CAD Model"@, "Quality"@]
}

/// Categories that participate in part/revision branch grouping.
pub fn part_group_categories() -> (r: &'static [&'static str])
    ensures
        r@.len() == 3,
        r@[0]@ == "Drawing"@,
        r@[1]@ == "CAD Model"@,
        r@[2]@ == "Quality"@,
{
    &["Drawing", "CAD Model", "Quality"]
}

} // verus!
