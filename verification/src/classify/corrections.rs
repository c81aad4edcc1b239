//! User corrections: explicit path-pattern rules that override the
//! classifier, and their bookkeeping.
use vstd::prelude::*;

use crate::text::{chars_of, string_from_chars};

verus! {

/// A user's relabelling of the paths matching `path_pattern`.
#[derive(Debug, Clone)]
pub struct UserCorrection {
    pub path_pattern: String,
    pub category: String,
    pub created_at: String,
}

/// All corrections, oldest first.
#[derive(Debug, Clone)]
pub struct CorrectionsFile {
    pub corrections: Vec<UserCorrection>,
}

/// A correction with its strings taken as character sequences.
pub struct CorrectionSpec {
    pub path_pattern: Seq<char>,
    pub category: Seq<char>,
    pub created_at: Seq<char>,
}

impl View for UserCorrection {
    type V = CorrectionSpec;

    open spec fn view(&self) -> CorrectionSpec {
        CorrectionSpec {
            path_pattern: self.path_pattern@,
            category: self.category@,
            created_at: self.created_at@,
        }
    }
}

impl View for CorrectionsFile {
    type V = Seq<CorrectionSpec>;

    open spec fn view(&self) -> Seq<CorrectionSpec> {
        self.corrections@.map_values(|c: UserCorrection| c@)
    }
}

impl Default for CorrectionsFile {
    /// No corrections.
    fn default() -> (r: Self)
        ensures
            r@.len() == 0,
    {
        CorrectionsFile { corrections: Vec::new() }
    }
}

/// The corrections whose pattern is not `pattern`, in their order.
pub open spec fn without_pattern(cs: Seq<CorrectionSpec>, pattern: Seq<char>) -> Seq<CorrectionSpec>
    decreases cs.len(),
{
    if cs.len() == 0 {
        Seq::empty()
    } else {
        let rest = without_pattern(cs.drop_last(), pattern);
        if cs.last().path_pattern == pattern {
            rest
        } else {
            rest.push(cs.last())
        }
    }
}

/// The corrections after recording (`pattern`, `category`) at `created_at`:
/// any correction with the same pattern is dropped and the new one goes
/// last.
pub open spec fn with_correction(
    cs: Seq<CorrectionSpec>,
    pattern: Seq<char>,
    category: Seq<char>,
    created_at: Seq<char>,
) -> Seq<CorrectionSpec> {
    without_pattern(cs, pattern).push(
        CorrectionSpec { path_pattern: pattern, category, created_at },
    )
}

/// `without_pattern` drops exactly the corrections with the pattern.
proof fn lemma_without_pattern(cs: Seq<CorrectionSpec>, pattern: Seq<char>)
    ensures
        forall|i: int|
            0 <= i < without_pattern(cs, pattern).len() ==> (#[trigger] without_pattern(cs, pattern)[i]).path_pattern
                != pattern,
        forall|i: int|
            0 <= i < cs.len() && (#[trigger] cs[i]).path_pattern != pattern ==> without_pattern(cs, pattern).contains(
                cs[i],
            ),
    decreases cs.len(),
{
    if cs.len() > 0 {
        let init = cs.drop_last();
        lemma_without_pattern(init, pattern);
        let rest = without_pattern(init, pattern);
        let r = without_pattern(cs, pattern);
        assert forall|i: int| 0 <= i < cs.len() && (#[trigger] cs[i]).path_pattern != pattern implies r.contains(cs[i]) by {
            if i < cs.len() - 1 {
                assert(init[i] == cs[i]);
                let j = choose|j: int| 0 <= j < rest.len() && rest[j] == cs[i];
                assert(r[j] == cs[i]);
            } else {
                assert(r[r.len() - 1] == cs[i]);
            }
        }
    }
}

/// Recording a correction leaves exactly one correction for its pattern,
/// the new one, last, and keeps every correction for another pattern.
pub proof fn law_one_correction_per_pattern(
    cs: Seq<CorrectionSpec>,
    pattern: Seq<char>,
    category: Seq<char>,
    created_at: Seq<char>,
)
    ensures
        ({
            let r = with_correction(cs, pattern, category, created_at);
            &&& r.last() == (CorrectionSpec { path_pattern: pattern, category, created_at })
            &&& forall|i: int| 0 <= i < r.len() - 1 ==> (#[trigger] r[i]).path_pattern != pattern
            &&& forall|i: int| 0 <= i < cs.len() && (#[trigger] cs[i]).path_pattern != pattern ==> r.contains(cs[i])
        }),
{
    lemma_without_pattern(cs, pattern);
    let w = without_pattern(cs, pattern);
    let r = with_correction(cs, pattern, category, created_at);
    assert forall|i: int| 0 <= i < r.len() - 1 implies (#[trigger] r[i]).path_pattern != pattern by {
        assert(r[i] == w[i]);
    }
    assert forall|i: int| 0 <= i < cs.len() && (#[trigger] cs[i]).path_pattern != pattern implies r.contains(cs[i]) by {
        let j = choose|j: int| 0 <= j < w.len() && w[j] == cs[i];
        assert(r[j] == cs[i]);
    }
}

fn copy_string(s: &String) -> (r: String)
    ensures
        r@ == s@,
{
    s.clone()
}

/// Records the correction `path_pattern` → `category`, made at
/// `created_at`, replacing any earlier correction for the same pattern.
pub fn apply_correction(file: &mut CorrectionsFile, path_pattern: &str, category: &str, created_at: &str)
    ensures
        final(file)@ == with_correction(old(file)@, path_pattern@, category@, created_at@),
{
    let ghost cs = file@;
    let pattern = path_pattern.to_owned();
    let mut kept: Vec<UserCorrection> = Vec::new();
    let n = file.corrections.len();
    for i in 0..n
        invariant
            n == file.corrections@.len(),
            cs == file@,
            pattern@ == path_pattern@,
            kept@.map_values(|c: UserCorrection| c@) == without_pattern(cs.take(i as int), path_pattern@),
    {
        let c = &file.corrections[i];
        let same = c.path_pattern == pattern;
        assert(cs.take(i + 1).drop_last() =~= cs.take(i as int));
        if !same {
            kept.push(UserCorrection {
                path_pattern: copy_string(&c.path_pattern),
                category: copy_string(&c.category),
                created_at: copy_string(&c.created_at),
            });
        }
        assert(kept@.map_values(|c: UserCorrection| c@) =~= without_pattern(cs.take(i + 1), path_pattern@));
    }
    assert(cs.take(n as int) =~= cs);
    kept.push(UserCorrection {
        path_pattern: path_pattern.to_owned(),
        category: category.to_owned(),
        created_at: created_at.to_owned(),
    });
    file.corrections = kept;
    assert(file@ =~= with_correction(cs, path_pattern@, category@, created_at@));
}

/// The decimal digit character for `d` (0 to 9).
pub open spec fn digit_char(d: nat) -> char {
    if d == 0 {
        '0'
    } else if d == 1 {
        '1'
    } else if d == 2 {
        '2'
    } else if d == 3 {
        '3'
    } else if d == 4 {
        '4'
    } else if d == 5 {
        '5'
    } else if d == 6 {
        '6'
    } else if d == 7 {
        '7'
    } else if d == 8 {
        '8'
    } else {
        '9'
    }
}

/// The decimal representation of `n`, without leading zeros.
pub open spec fn decimal(n: nat) -> Seq<char>
    decreases n,
{
    if n < 10 {
        seq![digit_char(n)]
    } else {
        decimal(n / 10).push(digit_char(n % 10))
    }
}

fn digit(d: u64) -> (c: char)
    requires
        d < 10,
    ensures
        c == digit_char(d as nat),
{
    if d == 0 {
        '0'
    } else if d == 1 {
        '1'
    } else if d == 2 {
        '2'
    } else if d == 3 {
        '3'
    } else if d == 4 {
        '4'
    } else if d == 5 {
        '5'
    } else if d == 6 {
        '6'
    } else if d == 7 {
        '7'
    } else if d == 8 {
        '8'
    } else {
        '9'
    }
}

fn push_decimal(out: &mut Vec<char>, n: u64)
    ensures
        final(out)@ == old(out)@ + decimal(n as nat),
    decreases n,
{
    if n >= 10 {
        push_decimal(out, n / 10);
    }
    out.push(digit(n % 10));
    if n >= 10 {
        assert(final(out)@ =~= old(out)@ + decimal(n as nat));
    } else {
        assert(final(out)@ =~= old(out)@ + decimal(n as nat));
    }
}

/// The decimal text of `n`.
pub fn decimal_string(n: u64) -> (s: String)
    ensures
        s@ == decimal(n as nat),
{
    let mut out: Vec<char> = Vec::new();
    push_decimal(&mut out, n);
    assert(out@ =~= decimal(n as nat));
    string_from_chars(out.as_slice())
}

/// The timestamp recorded with a correction: `unix:` and the seconds since
/// the Unix epoch in decimal.
pub fn unix_timestamp_label(secs: u64) -> (s: String)
    ensures
        s@ == "unix:"@ + decimal(secs as nat),
{
    let mut out = chars_of("unix:");
    push_decimal(&mut out, secs);
    string_from_chars(out.as_slice())
}

} // verus!
