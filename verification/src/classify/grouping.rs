//! Grouping of classified files by the part number and revision written in
//! their file names.
use vstd::prelude::*;

use crate::catalog::clone_entry;
use crate::classify::engine::{ClassificationResult, ClassifiedFile};
use crate::text::{chars_equal, chars_of, occurs_at, occurs_at_exec, string_from_chars};

verus! {

/// The files that share one part key and revision.
#[derive(Debug, Clone)]
pub struct PartRevisionGroup {
    pub part_key: String,
    pub revision: Option<String>,
    pub files: Vec<ClassifiedFile>,
}

/// A group as the positions of its files in the input, with its grouping
/// key (`part|revision`, the revision empty when absent).
pub struct GroupSpec {
    pub key: Seq<char>,
    pub part_key: Seq<char>,
    pub revision: Option<Seq<char>>,
    pub members: Seq<int>,
}

/// ASCII uppercase of one character.
pub open spec fn upper_char(c: char) -> char {
    if 'a' <= c && c <= 'z' {
        ((c as u32) - 32) as char
    } else {
        c
    }
}

/// ASCII uppercase of a string.
pub open spec fn upper(s: Seq<char>) -> Seq<char> {
    s.map_values(|c: char| upper_char(c))
}

/// Position of the last `.` in `s`, or -1.
pub open spec fn last_dot(s: Seq<char>) -> int
    decreases s.len(),
{
    if s.len() == 0 {
        -1
    } else if s.last() == '.' {
        s.len() - 1
    } else {
        last_dot(s.drop_last())
    }
}

/// The file name without the text from its last `.` on.
pub open spec fn stem_of(name: Seq<char>) -> Seq<char> {
    if last_dot(name) >= 0 {
        name.take(last_dot(name))
    } else {
        name
    }
}

/// The first position at or after `k` where `needle` occurs in `hay`, or -1.
pub open spec fn first_occurrence(hay: Seq<char>, needle: Seq<char>, k: int) -> int
    decreases hay.len() + 1 - k,
{
    if k < 0 || k + needle.len() > hay.len() {
        -1
    } else if occurs_at(hay, needle, k) {
        k
    } else {
        first_occurrence(hay, needle, k + 1)
    }
}

/// Split of a stem at the first (case-insensitive) occurrence of `marker`:
/// the text before it and the text after it.
pub open spec fn split_at_marker(stem: Seq<char>, marker: Seq<char>) -> Option<(Seq<char>, Seq<char>)> {
    let p = first_occurrence(upper(stem), marker, 0);
    if p >= 0 {
        Some((stem.take(p), stem.skip(p + marker.len())))
    } else {
        None
    }
}

/// A separator that may stand between a revision marker and the revision.
pub open spec fn is_revision_separator(c: char) -> bool {
    c == '-' || c == '_' || c == ' '
}

/// The revision written after a marker: the text after it, without one
/// leading `-`, `_` or space.
pub open spec fn revision_text(after: Seq<char>) -> Seq<char> {
    if after.len() > 0 && is_revision_separator(after[0]) {
        after.drop_first()
    } else {
        after
    }
}

/// Part number and revision of a file name: the stem (name without its
/// last extension) is split at the first `_REV`, else at the first `-REV`
/// (ignoring case), and the revision is the text after the marker without
/// one leading separator; without either marker the stem is the part and
/// there is no revision.
pub open spec fn part_revision(name: Seq<char>) -> (Seq<char>, Option<Seq<char>>) {
    let stem = stem_of(name);
    match split_at_marker(stem, "_REV"@) {
        Some(s) => (s.0, Some(revision_text(s.1))),
        None => match split_at_marker(stem, "-REV"@) {
            Some(s) => (s.0, Some(revision_text(s.1))),
            None => (stem, None),
        },
    }
}

/// The grouping key of a part and revision: `part|revision`, with an empty
/// revision when there is none.
pub open spec fn group_key(part: Seq<char>, rev: Option<Seq<char>>) -> Seq<char> {
    part + "|"@ + match rev {
        Some(r) => r,
        None => Seq::empty(),
    }
}

/// Lexicographic order on texts by character code.
pub open spec fn text_lt(a: Seq<char>, b: Seq<char>) -> bool
    decreases a.len(),
{
    if a.len() == 0 {
        b.len() > 0
    } else if b.len() == 0 {
        false
    } else if (a[0] as u32) < (b[0] as u32) {
        true
    } else if (a[0] as u32) > (b[0] as u32) {
        false
    } else {
        text_lt(a.drop_first(), b.drop_first())
    }
}

/// Position of the group with key `key`, or -1.
pub open spec fn group_index(groups: Seq<GroupSpec>, key: Seq<char>) -> int
    decreases groups.len(),
{
    if groups.len() == 0 {
        -1
    } else if groups.last().key == key {
        groups.len() - 1
    } else {
        group_index(groups.drop_last(), key)
    }
}

/// Where a new group with part key `part` goes: after every group whose
/// part key is not greater.
pub open spec fn insert_position(groups: Seq<GroupSpec>, part: Seq<char>) -> int
    decreases groups.len(),
{
    if groups.len() == 0 {
        0
    } else if text_lt(part, groups.last().part_key) {
        insert_position(groups.drop_last(), part)
    } else {
        groups.len() as int
    }
}

/// The groups of the first `k` file names, ordered by part key: each file
/// joins the group with its key, or starts a new group placed after every
/// group whose part key is not greater than its own.
pub open spec fn groups_upto(names: Seq<Seq<char>>, k: int) -> Seq<GroupSpec>
    decreases k,
{
    if k <= 0 {
        Seq::empty()
    } else {
        let prev = groups_upto(names, k - 1);
        let pr = part_revision(names[k - 1]);
        let key = group_key(pr.0, pr.1);
        let g = group_index(prev, key);
        if g >= 0 {
            prev.update(g, GroupSpec { members: prev[g].members.push(k - 1), ..prev[g] })
        } else {
            prev.insert(
                insert_position(prev, pr.0),
                GroupSpec { key, part_key: pr.0, revision: pr.1, members: seq![k - 1] },
            )
        }
    }
}

/// The file names of classified files.
pub open spec fn file_names(files: Seq<ClassifiedFile>) -> Seq<Seq<char>> {
    files.map_values(|f: ClassifiedFile| f.entry.filename@)
}

impl PartRevisionGroup {
    /// This group is `g`, over the input `files`.
    pub open spec fn is(&self, g: GroupSpec, files: Seq<ClassifiedFile>) -> bool {
        &&& self.part_key@ == g.part_key
        &&& match self.revision {
            Some(r) => g.revision == Some(r@),
            None => g.revision is None,
        }
        &&& self.files@.len() == g.members.len()
        &&& forall|m: int| 0 <= m < g.members.len() ==> #[trigger] member_matches(self.files@, g, files, m)
    }
}

/// ASCII uppercase of `c`.
fn upper_char_exec(c: char) -> (d: char)
    ensures
        d == upper_char(c),
{
    if 'a' <= c && c <= 'z' {
        let v = (c as u32) - 32;
        assert(vstd::utf8::is_scalar(v));
        match crate::text::char_from_u32(v) {
            Some(d) => {
                proof {
                    vstd::utf8::char_u32_cast(d, v);
                }
                d
            },
            None => c,
        }
    } else {
        c
    }
}

/// The first position where `needle` occurs in `hay`.
fn find(hay: &[char], needle: &[char]) -> (r: Option<usize>)
    ensures
        match r {
            Some(p) => p as int == first_occurrence(hay@, needle@, 0) && p + needle@.len() <= hay@.len(),
            None => first_occurrence(hay@, needle@, 0) == -1,
        },
{
    if needle.len() > hay.len() {
        return None;
    }
    let last = hay.len() - needle.len();
    let mut i: usize = 0;
    while i <= last
        invariant
            last == hay.len() - needle.len(),
            i <= last + 1,
            first_occurrence(hay@, needle@, 0) == first_occurrence(hay@, needle@, i as int),
        decreases last + 1 - i,
    {
        if occurs_at_exec(hay, needle, i) {
            return Some(i);
        }
        if i == last {
            assert(first_occurrence(hay@, needle@, i + 1) == -1);
            return None;
        }
        i = i + 1;
    }
    None
}

/// The text of `s` from `a` to `b`.
fn slice_string(s: &[char], a: usize, b: usize) -> (r: String)
    requires
        a <= b <= s@.len(),
    ensures
        r@ == s@.subrange(a as int, b as int),
{
    let mut v: Vec<char> = Vec::new();
    let mut k = a;
    while k < b
        invariant
            a <= k <= b <= s@.len(),
            v@ == s@.subrange(a as int, k as int),
        decreases b - k,
    {
        v.push(s[k]);
        k = k + 1;
        assert(v@ =~= s@.subrange(a as int, k as int));
    }
    string_from_chars(v.as_slice())
}

/// Where the revision begins when the marker ends at `q`: one separator
/// right after the marker is passed over.
fn revision_start(name: &Vec<char>, q: usize, stem_len: usize) -> (r: usize)
    requires
        q <= stem_len <= name@.len(),
    ensures
        q <= r <= stem_len,
        name@.take(stem_len as int).skip(r as int) == revision_text(
            name@.take(stem_len as int).skip(q as int),
        ),
{
    let ghost after = name@.take(stem_len as int).skip(q as int);
    if q < stem_len && (name[q] == '-' || name[q] == '_' || name[q] == ' ') {
        assert(after[0] == name@[q as int]);
        assert(after.drop_first() =~= name@.take(stem_len as int).skip(q + 1));
        q + 1
    } else {
        proof {
            if after.len() > 0 {
                assert(after[0] == name@[q as int]);
            }
        }
        q
    }
}

/// Part number and revision of `filename`; see `part_revision`.
pub fn extract_part_revision(filename: &str) -> (r: (String, Option<String>))
    ensures
        r.0@ == part_revision(filename@).0,
        match r.1 {
            Some(rev) => part_revision(filename@).1 == Some(rev@),
            None => part_revision(filename@).1 is None,
        },
{
    let name = chars_of(filename);
    let mut end = name.len();
    assert(name@.take(end as int) =~= name@);
    while end > 0 && name[end - 1] != '.'
        invariant
            end <= name@.len(),
            last_dot(name@) == last_dot(name@.take(end as int)),
        decreases end,
    {
        assert(name@.take(end as int).drop_last() =~= name@.take(end - 1));
        end = end - 1;
    }
    let stem_len = if end > 0 {
        assert(name@.take(end as int).drop_last() =~= name@.take(end - 1));
        end - 1
    } else {
        assert(name@.take(0) =~= Seq::<char>::empty());
        name.len()
    };
    let ghost stem = stem_of(name@);
    assert(stem == name@.take(stem_len as int)) by {
        assert(name@.take(name@.len() as int) =~= name@);
    }
    let mut up: Vec<char> = Vec::new();
    let mut k: usize = 0;
    while k < stem_len
        invariant
            k <= stem_len <= name@.len(),
            up@ == upper(name@.take(k as int)),
        decreases stem_len - k,
    {
        up.push(upper_char_exec(name[k]));
        k = k + 1;
        assert(up@ =~= upper(name@.take(k as int)));
    }
    let underscore = chars_of("_REV");
    let dash = chars_of("-REV");
    match find(up.as_slice(), underscore.as_slice()) {
        Some(p) => {
            let part = slice_string(name.as_slice(), 0, p);
            let start = revision_start(&name, p + underscore.len(), stem_len);
            let rev = slice_string(name.as_slice(), start, stem_len);
            assert(part@ =~= stem.take(p as int));
            assert(rev@ =~= revision_text(stem.skip(p + underscore@.len())));
            return (part, Some(rev));
        },
        None => {},
    }
    match find(up.as_slice(), dash.as_slice()) {
        Some(p) => {
            let part = slice_string(name.as_slice(), 0, p);
            let start = revision_start(&name, p + dash.len(), stem_len);
            let rev = slice_string(name.as_slice(), start, stem_len);
            assert(part@ =~= stem.take(p as int));
            assert(rev@ =~= revision_text(stem.skip(p + dash@.len())));
            (part, Some(rev))
        },
        None => {
            let part = slice_string(name.as_slice(), 0, stem_len);
            assert(part@ =~= stem);
            (part, None)
        },
    }
}

/// Whether `a` sorts before `b`; see `text_lt`.
pub(crate) fn text_less(a: &[char], b: &[char]) -> (r: bool)
    ensures
        r == text_lt(a@, b@),
{
    let mut i: usize = 0;
    assert(a@.skip(0) =~= a@);
    assert(b@.skip(0) =~= b@);
    while i < a.len() && i < b.len()
        invariant
            i <= a@.len(),
            i <= b@.len(),
            text_lt(a@, b@) == text_lt(a@.skip(i as int), b@.skip(i as int)),
        decreases a@.len() - i,
    {
        assert(a@.skip(i as int).drop_first() =~= a@.skip(i + 1));
        assert(b@.skip(i as int).drop_first() =~= b@.skip(i + 1));
        let x = a[i] as u32;
        let y = b[i] as u32;
        if x < y {
            return true;
        }
        if x > y {
            return false;
        }
        i = i + 1;
    }
    i == a.len() && i < b.len()
}

fn copy_strings(v: &Vec<String>) -> (r: Vec<String>)
    ensures
        r@ == v@,
{
    let mut r: Vec<String> = Vec::new();
    for i in 0..v.len()
        invariant
            r@ == v@.take(i as int),
    {
        r.push(v[i].clone());
        assert(r@ =~= v@.take(i + 1));
    }
    assert(r@ =~= v@);
    r
}

/// A copy of a classified file.
pub(crate) fn copy_classified(f: &ClassifiedFile) -> (r: ClassifiedFile)
    ensures
        r.entry == f.entry,
        r.result.outcome() == f.result.outcome(),
{
    ClassifiedFile {
        entry: clone_entry(&f.entry),
        result: ClassificationResult {
            category: f.result.category.clone(),
            confidence: f.result.confidence,
            matched_layers: copy_strings(&f.result.matched_layers),
        },
    }
}

/// The grouping key `part|rev`.
fn key_of(part: &String, rev: &Option<String>) -> (k: Vec<char>)
    ensures
        k@ == group_key(
            part@,
            match rev {
                Some(r) => Some(r@),
                None => None,
            },
        ),
{
    let mut k = chars_of(part.as_str());
    k.push('|');
    proof {
        reveal_strlit("|");
    }
    let tail = match rev {
        Some(r) => chars_of(r.as_str()),
        None => Vec::new(),
    };
    let ghost head = k@;
    let mut i: usize = 0;
    while i < tail.len()
        invariant
            i <= tail@.len(),
            k@ == head + tail@.take(i as int),
        decreases tail@.len() - i,
    {
        k.push(tail[i]);
        i = i + 1;
        assert(k@ =~= head + tail@.take(i as int));
    }
    assert(tail@.take(tail@.len() as int) =~= tail@);
    assert(k@ =~= group_key(
        part@,
        match rev {
            Some(r) => Some(r@),
            None => None,
        },
    ));
    k
}

/// The characters of a part key.
fn part_chars(s: &String) -> (v: Vec<char>)
    ensures
        v@ == s@,
{
    chars_of(s.as_str())
}

/// Member `m` of a group's files is the input file it names.
pub open spec fn member_matches(fs: Seq<ClassifiedFile>, g: GroupSpec, files: Seq<ClassifiedFile>, m: int) -> bool {
    let f = fs[m];
    let i = g.members[m];
    &&& 0 <= i < files.len()
    &&& f.entry == files[i].entry
    &&& f.result.outcome() == files[i].result.outcome()
}

/// Position of the group whose key is `key`, among groups with keys `keys`.
fn find_group(keys: &Vec<Vec<char>>, key: &[char], Ghost(prev): Ghost<Seq<GroupSpec>>) -> (r: Option<usize>)
    requires
        keys@.len() == prev.len(),
        forall|i: int| 0 <= i < keys@.len() ==> keys@[i]@ == prev[i].key,
    ensures
        match r {
            Some(g) => g as int == group_index(prev, key@) && g < prev.len(),
            None => group_index(prev, key@) == -1,
        },
{
    let mut j = keys.len();
    assert(prev.take(j as int) =~= prev);
    while j > 0
        invariant
            j <= keys@.len(),
            keys@.len() == prev.len(),
            forall|i: int| 0 <= i < keys@.len() ==> keys@[i]@ == prev[i].key,
            group_index(prev, key@) == group_index(prev.take(j as int), key@),
        decreases j,
    {
        assert(prev.take(j as int).drop_last() =~= prev.take(j - 1));
        if chars_equal(keys[j - 1].as_slice(), key) {
            return Some(j - 1);
        }
        j = j - 1;
    }
    None
}

/// Groups classified files by the part number and revision in their file
/// names (see `groups_upto`), ordered by part key; files keep their input
/// order within a group.
pub fn group_by_part_revision(files: &[ClassifiedFile]) -> (groups: Vec<PartRevisionGroup>)
    ensures
        groups@.len() == groups_upto(file_names(files@), files@.len() as int).len(),
        forall|i: int|
            0 <= i < groups@.len() ==> (#[trigger] groups@[i]).is(
                groups_upto(file_names(files@), files@.len() as int)[i],
                files@,
            ),
{
    let ghost names = file_names(files@);
    let mut groups: Vec<PartRevisionGroup> = Vec::new();
    let mut keys: Vec<Vec<char>> = Vec::new();
    let n = files.len();
    for idx in 0..n
        invariant
            n == files@.len(),
            names == file_names(files@),
            groups@.len() == groups_upto(names, idx as int).len(),
            keys@.len() == groups@.len(),
            forall|i: int|
                0 <= i < groups@.len() ==> (#[trigger] groups@[i]).is(groups_upto(names, idx as int)[i], files@),
            forall|i: int|
                0 <= i < keys@.len() ==> (#[trigger] keys@[i])@ == groups_upto(names, idx as int)[i].key,
    {
        let ghost prev = groups_upto(names, idx as int);
        let f = &files[idx];
        assert(names[idx as int] == f.entry.filename@);
        let (part, rev) = extract_part_revision(f.entry.filename.as_str());
        let key = key_of(&part, &rev);
        match find_group(&keys, key.as_slice(), Ghost(prev)) {
            Some(g) => {
                assert(groups@[g as int].is(prev[g as int], files@));
                let ghost before = groups@[g as int].files@;
                assert forall|m: int| 0 <= m < before.len() implies member_matches(before, prev[g as int], files@, m) by {
                    assert(groups@[g as int].files@[m] == before[m]);
                }
                let mut grp = groups.remove(g);
                grp.files.push(copy_classified(f));
                let ghost ng = GroupSpec {
                    key: prev[g as int].key,
                    part_key: prev[g as int].part_key,
                    revision: prev[g as int].revision,
                    members: prev[g as int].members.push(idx as int),
                };
                assert forall|m: int| 0 <= m < ng.members.len() implies #[trigger] member_matches(grp.files@, ng, files@, m) by {
                    if m < prev[g as int].members.len() {
                        assert(member_matches(before, prev[g as int], files@, m));
                        assert(grp.files@[m] == before[m]);
                    }
                }
                assert(grp.is(ng, files@));
                assert(ng == GroupSpec { members: prev[g as int].members.push(idx as int), ..prev[g as int] });
                groups.insert(g, grp);
            },
            None => {
                let mut pos = groups.len();
                assert(prev.take(pos as int) =~= prev);
                while pos > 0 && text_less(part_chars(&part).as_slice(), part_chars(&groups[pos - 1].part_key).as_slice())
                    invariant
                        pos <= groups@.len(),
                        groups@.len() == prev.len(),
                        forall|i: int| 0 <= i < groups@.len() ==> (#[trigger] groups@[i]).part_key@ == prev[i].part_key,
                        insert_position(prev, part@) == insert_position(prev.take(pos as int), part@),
                    decreases pos,
                {
                    assert(prev.take(pos as int).drop_last() =~= prev.take(pos - 1));
                    pos = pos - 1;
                }
                let mut members: Vec<ClassifiedFile> = Vec::new();
                members.push(copy_classified(f));
                let grp = PartRevisionGroup { part_key: part, revision: rev, files: members };
                groups.insert(pos, grp);
                keys.insert(pos, key);
            },
        }
        assert(groups_upto(names, idx + 1) == if group_index(prev, key@) >= 0 {
            prev.update(group_index(prev, key@), GroupSpec { members: prev[group_index(prev, key@)].members.push(idx as int), ..prev[group_index(prev, key@)] })
        } else {
            prev.insert(
                insert_position(prev, part@),
                GroupSpec { key: key@, part_key: part@, revision: match rev { Some(r) => Some(r@), None => None }, members: seq![idx as int] },
            )
        });
    }
    groups
}


/// No text is before itself.
pub(crate) proof fn lemma_text_lt_irreflexive(a: Seq<char>)
    ensures
        !text_lt(a, a),
    decreases a.len(),
{
    if a.len() > 0 {
        lemma_text_lt_irreflexive(a.drop_first());
    }
}

/// Of two different texts, exactly one is before the other.
pub(crate) proof fn lemma_text_lt_total(a: Seq<char>, b: Seq<char>)
    ensures
        a != b ==> (text_lt(a, b) || text_lt(b, a)),
        !(text_lt(a, b) && text_lt(b, a)),
    decreases a.len(),
{
    if a.len() > 0 && b.len() > 0 {
        lemma_text_lt_total(a.drop_first(), b.drop_first());
        if a[0] as u32 == b[0] as u32 {
            vstd::utf8::char_u32_cast(a[0], a[0] as u32);
            vstd::utf8::char_u32_cast(b[0], b[0] as u32);
            assert(a[0] == b[0]);
            if a.drop_first() == b.drop_first() {
                assert(a =~= seq![a[0]] + a.drop_first());
                assert(b =~= seq![b[0]] + b.drop_first());
            }
        }
    } else if a.len() == 0 && b.len() == 0 {
        assert(a =~= b);
    }
}

/// Text order is transitive.
pub(crate) proof fn lemma_text_lt_transitive(a: Seq<char>, b: Seq<char>, c: Seq<char>)
    requires
        text_lt(a, b),
        text_lt(b, c),
    ensures
        text_lt(a, c),
    decreases a.len(),
{
    if a.len() > 0 && b.len() > 0 && c.len() > 0 {
        if a[0] as u32 == b[0] as u32 && b[0] as u32 == c[0] as u32 {
            lemma_text_lt_transitive(a.drop_first(), b.drop_first(), c.drop_first());
        }
    }
}

/// `a` is not after `b`.
pub open spec fn text_le(a: Seq<char>, b: Seq<char>) -> bool {
    !text_lt(b, a)
}

/// "Not after" is transitive.
proof fn lemma_text_le_transitive(a: Seq<char>, b: Seq<char>, c: Seq<char>)
    requires
        text_le(a, b),
        text_le(b, c),
    ensures
        text_le(a, c),
{
    lemma_text_lt_total(a, b);
    lemma_text_lt_total(b, c);
    lemma_text_lt_total(a, c);
    if text_lt(c, a) {
        if a != b && b != c {
            lemma_text_lt_transitive(a, b, c);
        } else if a == b && b != c {
        } else if a != b && b == c {
        } else {
            lemma_text_lt_irreflexive(a);
        }
    }
}

/// Groups are ordered by part key.
pub open spec fn sorted_by_part(gs: Seq<GroupSpec>) -> bool {
    forall|i: int, j: int| 0 <= i < j < gs.len() ==> text_le(#[trigger] gs[i].part_key, #[trigger] gs[j].part_key)
}

/// Where `insert_position` puts a part key: after the last group not after
/// it, before the groups after it.
proof fn lemma_insert_position(gs: Seq<GroupSpec>, part: Seq<char>)
    ensures
        0 <= insert_position(gs, part) <= gs.len(),
        forall|j: int|
            insert_position(gs, part) <= j < gs.len() ==> text_lt(part, #[trigger] gs[j].part_key),
        insert_position(gs, part) > 0 ==> !text_lt(part, gs[insert_position(gs, part) - 1].part_key),
    decreases gs.len(),
{
    if gs.len() > 0 && text_lt(part, gs.last().part_key) {
        let init = gs.drop_last();
        lemma_insert_position(init, part);
        assert forall|j: int| insert_position(gs, part) <= j < gs.len() implies text_lt(
            part,
            #[trigger] gs[j].part_key,
        ) by {
            if j < gs.len() - 1 {
                assert(init[j] == gs[j]);
            }
        }
    }
}

/// The groups of the first `k` names are ordered by part key.
proof fn lemma_groups_sorted(names: Seq<Seq<char>>, k: int)
    requires
        0 <= k <= names.len(),
    ensures
        sorted_by_part(groups_upto(names, k)),
    decreases k,
{
    if k > 0 {
        lemma_groups_sorted(names, k - 1);
        let prev = groups_upto(names, k - 1);
        let pr = part_revision(names[k - 1]);
        let key = group_key(pr.0, pr.1);
        let g = group_index(prev, key);
        lemma_group_index(prev, key);
        let cur = groups_upto(names, k);
        if g >= 0 {
            assert forall|i: int, j: int| 0 <= i < j < cur.len() implies text_le(
                #[trigger] cur[i].part_key,
                #[trigger] cur[j].part_key,
            ) by {
                assert(cur[i].part_key == prev[i].part_key);
                assert(cur[j].part_key == prev[j].part_key);
            }
        } else {
            let pos = insert_position(prev, pr.0);
            lemma_insert_position(prev, pr.0);
            assert forall|i: int, j: int| 0 <= i < j < cur.len() implies text_le(
                #[trigger] cur[i].part_key,
                #[trigger] cur[j].part_key,
            ) by {
                if j < pos {
                    assert(cur[i] == prev[i] && cur[j] == prev[j]);
                } else if j == pos {
                    assert(cur[i] == prev[i]);
                    assert(text_le(prev[pos - 1].part_key, pr.0));
                    if i < pos - 1 {
                        assert(text_le(prev[i].part_key, prev[pos - 1].part_key));
                        lemma_text_le_transitive(prev[i].part_key, prev[pos - 1].part_key, pr.0);
                    }
                } else if i == pos {
                    assert(cur[j] == prev[j - 1]);
                    assert(text_lt(pr.0, prev[j - 1].part_key));
                    lemma_text_lt_total(pr.0, prev[j - 1].part_key);
                } else if i < pos {
                    assert(cur[i] == prev[i] && cur[j] == prev[j - 1]);
                } else {
                    assert(cur[i] == prev[i - 1] && cur[j] == prev[j - 1]);
                }
            }
        }
    }
}

/// Where `group_index` points: a group with the key, or none has it.
proof fn lemma_group_index(gs: Seq<GroupSpec>, key: Seq<char>)
    ensures
        -1 <= group_index(gs, key) < gs.len(),
        group_index(gs, key) >= 0 ==> gs[group_index(gs, key)].key == key,
        group_index(gs, key) < 0 ==> forall|j: int| 0 <= j < gs.len() ==> #[trigger] gs[j].key != key,
    decreases gs.len(),
{
    if gs.len() > 0 && gs.last().key != key {
        lemma_group_index(gs.drop_last(), key);
        if group_index(gs, key) < 0 {
            assert forall|j: int| 0 <= j < gs.len() implies #[trigger] gs[j].key != key by {
                if j < gs.len() - 1 {
                    assert(gs.drop_last()[j] == gs[j]);
                }
            }
        }
    }
}

/// The key of a file name.
pub open spec fn name_key(name: Seq<char>) -> Seq<char> {
    group_key(part_revision(name).0, part_revision(name).1)
}

/// Every group of the first `k` names is non-empty; its members are
/// positions below `k` whose names have the group's key; and every position
/// below `k` is a member of some group.
pub open spec fn groups_cover(names: Seq<Seq<char>>, gs: Seq<GroupSpec>, k: int) -> bool {
    &&& forall|g: int| 0 <= g < gs.len() ==> (#[trigger] gs[g]).members.len() > 0
    &&& forall|g: int, m: int|
        0 <= g < gs.len() && 0 <= m < gs[g].members.len() ==> {
            let i = #[trigger] gs[g].members[m];
            &&& 0 <= i < k
            &&& name_key(names[i]) == gs[g].key
        }
    &&& forall|i: int| 0 <= i < k ==> #[trigger] is_member(gs, i)
}

/// Position `i` is a member of one of the groups.
pub open spec fn is_member(gs: Seq<GroupSpec>, i: int) -> bool {
    exists|g: int, m: int| 0 <= g < gs.len() && 0 <= m < gs[g].members.len() && #[trigger] gs[g].members[m] == i
}

/// The groups of the first `k` names cover them; see `groups_cover`.
proof fn lemma_groups_cover(names: Seq<Seq<char>>, k: int)
    requires
        0 <= k <= names.len(),
    ensures
        groups_cover(names, groups_upto(names, k), k),
    decreases k,
{
    if k > 0 {
        lemma_groups_cover(names, k - 1);
        let prev = groups_upto(names, k - 1);
        let pr = part_revision(names[k - 1]);
        let key = group_key(pr.0, pr.1);
        let g = group_index(prev, key);
        lemma_group_index(prev, key);
        let cur = groups_upto(names, k);
        if g >= 0 {
            assert forall|h: int, m: int| 0 <= h < cur.len() && 0 <= m < cur[h].members.len() implies {
                let i = #[trigger] cur[h].members[m];
                &&& 0 <= i < k
                &&& name_key(names[i]) == cur[h].key
            } by {
                if h != g || m < prev[h].members.len() {
                    assert(cur[h].members[m] == prev[h].members[m]);
                }
            }
            assert forall|i: int| 0 <= i < k implies #[trigger] is_member(cur, i) by {
                if i < k - 1 {
                    assert(is_member(prev, i));
                    let (h, m) = choose|h: int, m: int|
                        0 <= h < prev.len() && 0 <= m < prev[h].members.len() && #[trigger] prev[h].members[m] == i;
                    assert(cur[h].members[m] == i);
                } else {
                    let m = prev[g].members.len() as int;
                    assert(cur[g].members[m] == i);
                }
            }
        } else {
            let pos = insert_position(prev, pr.0);
            lemma_insert_position(prev, pr.0);
            assert forall|h: int, m: int| 0 <= h < cur.len() && 0 <= m < cur[h].members.len() implies {
                let i = #[trigger] cur[h].members[m];
                &&& 0 <= i < k
                &&& name_key(names[i]) == cur[h].key
            } by {
                if h < pos {
                    assert(cur[h] == prev[h]);
                    assert(prev[h].members[m] == cur[h].members[m]);
                } else if h > pos {
                    assert(cur[h] == prev[h - 1]);
                    assert(prev[h - 1].members[m] == cur[h].members[m]);
                }
            }
            assert forall|h: int| 0 <= h < cur.len() implies (#[trigger] cur[h]).members.len() > 0 by {
                if h < pos {
                    assert(cur[h] == prev[h]);
                } else if h > pos {
                    assert(cur[h] == prev[h - 1]);
                }
            }
            assert forall|i: int| 0 <= i < k implies #[trigger] is_member(cur, i) by {
                if i < k - 1 {
                    assert(is_member(prev, i));
                    let (h, m) = choose|h: int, m: int|
                        0 <= h < prev.len() && 0 <= m < prev[h].members.len() && #[trigger] prev[h].members[m] == i;
                    if h < pos {
                        assert(cur[h] == prev[h]);
                        assert(cur[h].members[m] == i);
                    } else {
                        assert(cur[h + 1] == prev[h]);
                        assert(cur[h + 1].members[m] == i);
                    }
                } else {
                    assert(cur[pos].members[0] == i);
                }
            }
        }
    }
}

/// Grouping sorts and covers: the groups of `names` are ordered by part key
/// and non-empty, every member is a position of a name with the group's
/// key, and every name is a member of some group.
pub proof fn law_grouping(names: Seq<Seq<char>>)
    ensures
        sorted_by_part(groups_upto(names, names.len() as int)),
        groups_cover(names, groups_upto(names, names.len() as int), names.len() as int),
{
    lemma_groups_sorted(names, names.len() as int);
    lemma_groups_cover(names, names.len() as int);
}

/// No position is a member twice, in one group or in two.
pub open spec fn members_distinct(gs: Seq<GroupSpec>) -> bool {
    forall|g1: int, m1: int, g2: int, m2: int|
        0 <= g1 < gs.len() && 0 <= m1 < gs[g1].members.len() && 0 <= g2 < gs.len() && 0 <= m2
            < gs[g2].members.len() && #[trigger] gs[g1].members[m1] == #[trigger] gs[g2].members[m2] ==> g1
            == g2 && m1 == m2
}

/// The groups of the first `k` names never hold a position twice.
proof fn lemma_members_distinct(names: Seq<Seq<char>>, k: int)
    requires
        0 <= k <= names.len(),
    ensures
        members_distinct(groups_upto(names, k)),
    decreases k,
{
    if k > 0 {
        lemma_members_distinct(names, k - 1);
        lemma_groups_cover(names, k - 1);
        let prev = groups_upto(names, k - 1);
        let pr = part_revision(names[k - 1]);
        let key = group_key(pr.0, pr.1);
        let g = group_index(prev, key);
        lemma_group_index(prev, key);
        let cur = groups_upto(names, k);
        if g >= 0 {
            assert forall|g1: int, m1: int, g2: int, m2: int|
                0 <= g1 < cur.len() && 0 <= m1 < cur[g1].members.len() && 0 <= g2 < cur.len() && 0 <= m2
                    < cur[g2].members.len() && #[trigger] cur[g1].members[m1] == #[trigger] cur[g2].members[m2]
                implies g1 == g2 && m1 == m2 by {
                let new1 = g1 == g && m1 == prev[g].members.len();
                let new2 = g2 == g && m2 == prev[g].members.len();
                if !new1 {
                    assert(cur[g1].members[m1] == prev[g1].members[m1]);
                }
                if !new2 {
                    assert(cur[g2].members[m2] == prev[g2].members[m2]);
                }
            }
        } else {
            let pos = insert_position(prev, pr.0);
            lemma_insert_position(prev, pr.0);
            assert forall|g1: int, m1: int, g2: int, m2: int|
                0 <= g1 < cur.len() && 0 <= m1 < cur[g1].members.len() && 0 <= g2 < cur.len() && 0 <= m2
                    < cur[g2].members.len() && #[trigger] cur[g1].members[m1] == #[trigger] cur[g2].members[m2]
                implies g1 == g2 && m1 == m2 by {
                let p1 = if g1 < pos { g1 } else { g1 - 1 };
                let p2 = if g2 < pos { g2 } else { g2 - 1 };
                if g1 != pos {
                    assert(cur[g1] == prev[p1]);
                    assert(cur[g1].members[m1] == prev[p1].members[m1]);
                }
                if g2 != pos {
                    assert(cur[g2] == prev[p2]);
                    assert(cur[g2].members[m2] == prev[p2].members[m2]);
                }
            }
        }
    }
}

/// Grouping partitions the names: no position is a member of two groups,
/// nor twice of one.
pub proof fn law_grouping_disjoint(names: Seq<Seq<char>>)
    ensures
        members_distinct(groups_upto(names, names.len() as int)),
{
    lemma_members_distinct(names, names.len() as int);
}

} // verus!
