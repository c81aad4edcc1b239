//! The computations behind the command-line commands: the networking
//! import check of a binary and the per-category summary.
use vstd::prelude::*;

use crate::classify::engine::ClassifiedFile;
use crate::dashboard::{category_counts, count_index};

verus! {

/// ASCII lowercase of a byte.
pub open spec fn lower_byte(b: u8) -> u8 {
    if 65 <= b <= 90 {
        (b + 32) as u8
    } else {
        b
    }
}

/// `needle` occurs at `i` in `hay`, ignoring ASCII case.
pub open spec fn matches_at(hay: Seq<u8>, needle: Seq<u8>, i: int) -> bool {
    0 <= i && i + needle.len() <= hay.len() && forall|j: int|
        0 <= j < needle.len() ==> lower_byte(#[trigger] hay[i + j]) == lower_byte(needle[j])
}

/// A non-empty `needle` occurs in `hay`, ignoring ASCII case.
pub open spec fn contains_ignoring_case(hay: Seq<u8>, needle: Seq<u8>) -> bool {
    needle.len() > 0 && exists|i: int| #[trigger] matches_at(hay, needle, i)
}

fn lower_byte_exec(b: u8) -> (r: u8)
    ensures
        r == lower_byte(b),
{
    if 65 <= b && b <= 90 {
        b + 32
    } else {
        b
    }
}

/// Whether the non-empty `needle` occurs in `haystack`, ignoring ASCII
/// case.
pub fn contains_ignore_case(haystack: &[u8], needle: &[u8]) -> (b: bool)
    ensures
        b == contains_ignoring_case(haystack@, needle@),
{
    if needle.len() == 0 {
        return false;
    }
    if haystack.len() < needle.len() {
        assert forall|i: int| !matches_at(haystack@, needle@, i) by {}
        return false;
    }
    let last = haystack.len() - needle.len();
    let mut i: usize = 0;
    while i <= last
        invariant
            last == haystack.len() - needle.len(),
            needle.len() > 0,
            i <= last + 1,
            forall|p: int| 0 <= p < i ==> !matches_at(haystack@, needle@, p),
        decreases last + 1 - i,
    {
        let mut k: usize = 0;
        let mut same = true;
        while k < needle.len()
            invariant
                k <= needle@.len(),
                i + needle.len() <= haystack.len(),
                same == forall|j: int| 0 <= j < k ==> lower_byte(haystack@[i + j]) == lower_byte(needle@[j]),
            decreases needle@.len() - k,
        {
            if lower_byte_exec(haystack[i + k]) != lower_byte_exec(needle[k]) {
                same = false;
            }
            k = k + 1;
        }
        if same {
            assert(matches_at(haystack@, needle@, i as int));
            return true;
        }
        assert(!matches_at(haystack@, needle@, i as int));
        i = i + 1;
    }
    assert forall|p: int| !matches_at(haystack@, needle@, p) by {
        if 0 <= p && p < i {
        }
    }
    false
}

/// The networking DLLs whose import a local-only binary must not show.
pub open spec fn forbidden_dlls() -> Seq<Seq<char>> {
    seq!["WS2_32.dll"@, "WINHTTP.dll"@, "WININET.dll"@]
}

/// The forbidden DLL names that occur in `data` (ignoring case), in the
/// order of `forbidden_dlls`.
pub open spec fn found_dlls(data: Seq<u8>, k: int) -> Seq<Seq<char>>
    decreases k,
{
    if k <= 0 {
        Seq::empty()
    } else if contains_ignoring_case(data, forbidden_dll_bytes(k - 1)) {
        found_dlls(data, k - 1).push(forbidden_dlls()[k - 1])
    } else {
        found_dlls(data, k - 1)
    }
}

/// The bytes of the `k`-th forbidden DLL name (ASCII).
pub open spec fn forbidden_dll_bytes(k: int) -> Seq<u8> {
    if k == 0 {
        seq![87u8, 83, 50, 95, 51, 50, 46, 100, 108, 108]
    } else if k == 1 {
        seq![87u8, 73, 78, 72, 84, 84, 80, 46, 100, 108, 108]
    } else {
        seq![87u8, 73, 78, 73, 78, 69, 84, 46, 100, 108, 108]
    }
}

/// The `k`-th forbidden DLL name and its bytes.
fn forbidden_dll(k: usize) -> (r: (&'static str, Vec<u8>))
    requires
        k < 3,
    ensures
        r.0@ == forbidden_dlls()[k as int],
        r.1@ == forbidden_dll_bytes(k as int),
{
    if k == 0 {
        ("WS2_32.dll", vec![87u8, 83, 50, 95, 51, 50, 46, 100, 108, 108])
    } else if k == 1 {
        ("WINHTTP.dll", vec![87u8, 73, 78, 72, 84, 84, 80, 46, 100, 108, 108])
    } else {
        ("WININET.dll", vec![87u8, 73, 78, 73, 78, 69, 84, 46, 100, 108, 108])
    }
}

/// The networking DLLs whose names occur in the binary `data`.
pub fn network_imports(data: &[u8]) -> (found: Vec<&'static str>)
    ensures
        found@.len() == found_dlls(data@, 3).len(),
        forall|i: int| 0 <= i < found@.len() ==> (#[trigger] found@[i])@ == found_dlls(data@, 3)[i],
{
    let mut found: Vec<&'static str> = Vec::new();
    for k in 0..3usize
        invariant
            found@.len() == found_dlls(data@, k as int).len(),
            forall|i: int| 0 <= i < found@.len() ==> (#[trigger] found@[i])@ == found_dlls(data@, k as int)[i],
    {
        let (name, bytes) = forbidden_dll(k);
        if contains_ignore_case(data, bytes.as_slice()) {
            found.push(name);
        }
    }
    found
}

/// The text whose characters are the bytes of `b`, one byte per
/// character (ASCII and Latin-1 read byte for byte).
pub open spec fn byte_text(b: Seq<u8>) -> Seq<char> {
    b.map_values(|x: u8| x as char)
}

/// Texts read byte for byte determine their bytes.
proof fn lemma_byte_text_injective(a: Seq<u8>, b: Seq<u8>)
    requires
        byte_text(a) == byte_text(b),
    ensures
        a == b,
{
    assert(a.len() == byte_text(a).len());
    assert forall|j: int| 0 <= j < a.len() implies a[j] == b[j] by {
        assert(byte_text(a)[j] == byte_text(b)[j]);
        assert(byte_text(a)[j] == a[j] as char);
        assert(byte_text(b)[j] == b[j] as char);
        assert((a[j] as char) as u32 == a[j]);
        assert((b[j] as char) as u32 == b[j]);
    }
    assert(a =~= b);
}

/// The import check reports a forbidden DLL exactly when the DLL's name,
/// as bytes, occurs in the binary ignoring ASCII case: for every name of
/// `forbidden_dlls` and any bytes spelling it, the found list holds the
/// name if and only if those bytes occur in `data`.
pub proof fn law_network_imports_find_their_names(data: Seq<u8>, k: int, name_bytes: Seq<u8>)
    requires
        0 <= k < forbidden_dlls().len(),
        byte_text(name_bytes) == forbidden_dlls()[k],
    ensures
        found_dlls(data, 3).contains(forbidden_dlls()[k]) <==> contains_ignoring_case(data, name_bytes),
{
    reveal_strlit("WS2_32.dll");
    reveal_strlit("WINHTTP.dll");
    reveal_strlit("WININET.dll");
    let names = forbidden_dlls();
    assert(byte_text(forbidden_dll_bytes(0)) =~= names[0]);
    assert(byte_text(forbidden_dll_bytes(1)) =~= names[1]);
    assert(byte_text(forbidden_dll_bytes(2)) =~= names[2]);
    lemma_byte_text_injective(name_bytes, forbidden_dll_bytes(k));
    assert(names[0] != names[1]) by {
        assert(names[0][1] != names[1][1]);
    }
    assert(names[0] != names[2]) by {
        assert(names[0][1] != names[2][1]);
    }
    assert(names[1] != names[2]) by {
        assert(names[1][3] != names[2][3]);
    }
    let f0 = found_dlls(data, 0);
    let f1 = found_dlls(data, 1);
    let f2 = found_dlls(data, 2);
    let f3 = found_dlls(data, 3);
    assert(f0 =~= Seq::<Seq<char>>::empty());
    assert forall|x: Seq<char>| #[trigger] f3.contains(x) <==> (exists|j: int|
        0 <= j < 3 && names[j] == x && contains_ignoring_case(data, forbidden_dll_bytes(j))) by {
        if f3.contains(x) {
            let m = choose|m: int| 0 <= m < f3.len() && f3[m] == x;
            if m < f2.len() {
                assert(f2[m] == x);
                if m < f1.len() {
                    assert(f1[m] == x);
                    assert(contains_ignoring_case(data, forbidden_dll_bytes(0)));
                } else {
                    assert(contains_ignoring_case(data, forbidden_dll_bytes(1)));
                }
            } else {
                assert(contains_ignoring_case(data, forbidden_dll_bytes(2)));
            }
        }
        if exists|j: int| 0 <= j < 3 && names[j] == x && contains_ignoring_case(data, forbidden_dll_bytes(j)) {
            let j = choose|j: int| 0 <= j < 3 && names[j] == x && contains_ignoring_case(data, forbidden_dll_bytes(j));
            if j == 0 {
                assert(f1[f1.len() - 1] == x);
                assert(f3[f1.len() - 1] == x);
            } else if j == 1 {
                assert(f2[f2.len() - 1] == x);
                assert(f3[f2.len() - 1] == x);
            } else {
                assert(f3[f3.len() - 1] == x);
            }
        }
    }
}

/// Where an entry with count `n` goes in a list ordered by decreasing
/// count: after every entry whose count is not smaller.
pub open spec fn count_position(list: Seq<(Seq<char>, nat)>, n: nat) -> int
    decreases list.len(),
{
    if list.len() == 0 {
        0
    } else if list.last().1 < n {
        count_position(list.drop_last(), n)
    } else {
        list.len() as int
    }
}

/// The first `k` category counts ordered by decreasing count, ties in
/// their original order.
pub open spec fn by_count_upto(counts: Seq<(Seq<char>, nat)>, k: int) -> Seq<(Seq<char>, nat)>
    decreases k,
{
    if k <= 0 {
        Seq::empty()
    } else {
        let prev = by_count_upto(counts, k - 1);
        prev.insert(count_position(prev, counts[k - 1].1), counts[k - 1])
    }
}

/// Files per category, most frequent first; categories with equal counts
/// keep the order in which they first appear.
pub fn category_summary(classified: &[ClassifiedFile]) -> (v: Vec<(String, usize)>)
    ensures
        ({
            let counts = category_counts(classified@, classified@.len() as int);
            let sorted = by_count_upto(counts, counts.len() as int);
            &&& v@.len() == sorted.len()
            &&& forall|i: int|
                0 <= i < v@.len() ==> (#[trigger] v@[i]).0@ == sorted[i].0 && v@[i].1 == sorted[i].1
        }),
{
    let stats = crate::dashboard::count_categories(classified);
    let ghost counts = category_counts(classified@, classified@.len() as int);
    let mut out: Vec<(String, usize)> = Vec::new();
    let n = stats.len();
    for k in 0..n
        invariant
            n == stats@.len(),
            n == counts.len(),
            forall|i: int| 0 <= i < n ==> (#[trigger] stats@[i]).0@ == counts[i].0 && stats@[i].1 == counts[i].1,
            out@.len() == by_count_upto(counts, k as int).len(),
            forall|i: int|
                0 <= i < out@.len() ==> (#[trigger] out@[i]).0@ == by_count_upto(counts, k as int)[i].0
                    && out@[i].1 == by_count_upto(counts, k as int)[i].1,
    {
        let ghost prev = by_count_upto(counts, k as int);
        let c = stats[k].1;
        let mut pos = out.len();
        assert(prev.take(pos as int) =~= prev);
        while pos > 0 && out[pos - 1].1 < c
            invariant
                pos <= out@.len(),
                out@.len() == prev.len(),
                forall|i: int| 0 <= i < out@.len() ==> (#[trigger] out@[i]).1 == prev[i].1,
                c == counts[k as int].1,
                count_position(prev, counts[k as int].1) == count_position(prev.take(pos as int), counts[k as int].1),
            decreases pos,
        {
            assert(prev.take(pos as int).drop_last() =~= prev.take(pos - 1));
            pos = pos - 1;
        }
        proof {
            lemma_count_position(prev, counts[k as int].1);
        }
        out.insert(pos, (stats[k].0.clone(), c));
    }
    out
}

/// `count_position` is a position inside the list.
proof fn lemma_count_position(list: Seq<(Seq<char>, nat)>, n: nat)
    ensures
        0 <= count_position(list, n) <= list.len(),
    decreases list.len(),
{
    if list.len() > 0 {
        lemma_count_position(list.drop_last(), n);
    }
}

} // verus!
