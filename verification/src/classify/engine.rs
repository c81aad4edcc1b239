//! The classifier: user corrections first, then the best-scoring category
//! rule, then the threshold.
use vstd::prelude::*;

use crate::catalog::{clone_entry, FileEntry};
use crate::classify::grouping::last_dot;
use crate::classify::corrections::{with_correction, without_pattern, CorrectionSpec, CorrectionsFile};
use crate::classify::rules::{rule_views, CategoryRule, RuleSpec, RulesConfig};
use crate::text::{
    chars_equal, chars_of, contains, contains_exec, lower, lower_chars, string_from_chars,
};

verus! {

/// The category given to a file, its score in hundredths, and the kinds of
/// evidence that produced it.
#[derive(Debug, Clone)]
pub struct ClassificationResult {
    pub category: String,
    pub confidence: u32,
    pub matched_layers: Vec<String>,
}

/// A catalog entry with its classification.
#[derive(Debug, Clone)]
pub struct ClassifiedFile {
    pub entry: FileEntry,
    pub result: ClassificationResult,
}

/// Classifies paths by the configured rules, after the user's corrections.
pub struct ClassificationEngine {
    config: RulesConfig,
    correction_patterns: Vec<(String, String)>,
}

/// A classification result with its strings taken as character sequences.
pub struct Outcome {
    pub category: Seq<char>,
    pub confidence: nat,
    pub layers: Seq<Seq<char>>,
}

/// What an engine classifies by: its rules, the least passing score, the
/// unclassified label, and the correction patterns (lowercased) with their
/// categories, in order.
pub struct EngineSpec {
    pub rules: Seq<RuleSpec>,
    pub min_score: nat,
    pub unclassified_label: Seq<char>,
    pub patterns: Seq<(Seq<char>, Seq<char>)>,
}

impl ClassificationResult {
    pub open spec fn outcome(&self) -> Outcome {
        Outcome {
            category: self.category@,
            confidence: self.confidence as nat,
            layers: self.matched_layers@.map_values(|s: String| s@),
        }
    }
}

impl View for ClassificationEngine {
    type V = EngineSpec;

    closed spec fn view(&self) -> EngineSpec {
        EngineSpec {
            rules: rule_views(self.config.categories@),
            min_score: self.config.settings.min_score as nat,
            unclassified_label: self.config.settings.unclassified_label@,
            patterns: self.correction_patterns@.map_values(|p: (String, String)| (p.0@, p.1@)),
        }
    }
}

/// Some extension of the rule, lowercased, equals the (non-empty) file
/// extension `ext`.
pub open spec fn extension_matches(r: RuleSpec, ext: Seq<char>) -> bool {
    ext.len() > 0 && exists|k: int| 0 <= k < r.extensions.len() && lower(#[trigger] r.extensions[k]) == ext
}

/// Index of the first token at or after `k` whose lowercase occurs in
/// `hay`, or -1.
pub open spec fn first_contained(tokens: Seq<Seq<char>>, hay: Seq<char>, k: int) -> int
    decreases tokens.len() - k,
{
    if k < 0 || k >= tokens.len() {
        -1
    } else if contains(hay, lower(tokens[k])) {
        k
    } else {
        first_contained(tokens, hay, k + 1)
    }
}

/// A rule's score in hundredths for a file with (lowercased) extension
/// `ext`, path `path_lower` and name `name_lower`: 45 for a matching
/// extension, 30 for a folder token in the path, 25 for a keyword in the
/// name, at most 100.
pub open spec fn rule_score(r: RuleSpec, ext: Seq<char>, path_lower: Seq<char>, name_lower: Seq<char>) -> nat {
    let total = (if extension_matches(r, ext) { 45nat } else { 0nat }) + (if first_contained(
        r.folder_tokens,
        path_lower,
        0,
    ) >= 0 {
        30nat
    } else {
        0nat
    }) + (if first_contained(r.filename_keywords, name_lower, 0) >= 0 {
        25nat
    } else {
        0nat
    });
    if total > 100 {
        100
    } else {
        total
    }
}

/// The evidence behind `rule_score`, in order: `extension`, then
/// `folder:` and the first matching token, then `keyword:` and the first
/// matching keyword (each as written in the rule).
pub open spec fn rule_layers(r: RuleSpec, ext: Seq<char>, path_lower: Seq<char>, name_lower: Seq<char>) -> Seq<Seq<char>> {
    let f = first_contained(r.folder_tokens, path_lower, 0);
    let w = first_contained(r.filename_keywords, name_lower, 0);
    let a: Seq<Seq<char>> = if extension_matches(r, ext) {
        seq!["extension"@]
    } else {
        Seq::empty()
    };
    let b: Seq<Seq<char>> = if f >= 0 {
        a.push("folder:"@ + r.folder_tokens[f])
    } else {
        a
    };
    if w >= 0 {
        b.push("keyword:"@ + r.filename_keywords[w])
    } else {
        b
    }
}

/// Index of the best rule among the first `k`: the first with the highest
/// non-zero score, or -1 when every score is zero.
pub open spec fn best_rule(rules: Seq<RuleSpec>, ext: Seq<char>, path_lower: Seq<char>, name_lower: Seq<char>, k: int) -> int
    decreases k,
{
    if k <= 0 {
        -1
    } else {
        let prev = best_rule(rules, ext, path_lower, name_lower, k - 1);
        let s = rule_score(rules[k - 1], ext, path_lower, name_lower);
        if s == 0 {
            prev
        } else if prev < 0 || s > rule_score(rules[prev], ext, path_lower, name_lower) {
            k - 1
        } else {
            prev
        }
    }
}

/// Whether correction pattern `pattern` applies to the lowercased path:
/// either occurs in the other.
pub open spec fn pattern_applies(pattern: Seq<char>, path_lower: Seq<char>) -> bool {
    contains(path_lower, pattern) || contains(pattern, path_lower)
}

/// Index of the first correction at or after `k` that applies, or -1.
pub open spec fn first_correction(patterns: Seq<(Seq<char>, Seq<char>)>, path_lower: Seq<char>, k: int) -> int
    decreases patterns.len() - k,
{
    if k < 0 || k >= patterns.len() {
        -1
    } else if pattern_applies(patterns[k].0, path_lower) {
        k
    } else {
        first_correction(patterns, path_lower, k + 1)
    }
}

/// The classification of a file with path `path`, name `name` and
/// lowercased extension `ext` (empty when it has none).
///
/// The first applicable user correction decides, with score 100. Otherwise
/// the best rule decides when its score reaches the least passing score;
/// when it does not, or no rule scores, the file gets the unclassified
/// label with the best score and evidence found (zero and none).
pub open spec fn classify_spec(e: EngineSpec, path: Seq<char>, name: Seq<char>, ext: Seq<char>) -> Outcome {
    let pl = lower(path);
    let nl = lower(name);
    let c = first_correction(e.patterns, pl, 0);
    let b = best_rule(e.rules, ext, pl, nl, e.rules.len() as int);
    if c >= 0 {
        Outcome { category: e.patterns[c].1, confidence: 100, layers: seq!["user_correction"@] }
    } else if b < 0 {
        Outcome { category: e.unclassified_label, confidence: 0, layers: Seq::empty() }
    } else {
        let s = rule_score(e.rules[b], ext, pl, nl);
        Outcome {
            category: if s >= e.min_score {
                e.rules[b].name
            } else {
                e.unclassified_label
            },
            confidence: s,
            layers: rule_layers(e.rules[b], ext, pl, nl),
        }
    }
}

/// The correction patterns an engine matches: each correction's pattern
/// in lowercase, with its category, in order.
pub open spec fn correction_patterns(cs: Seq<CorrectionSpec>) -> Seq<(Seq<char>, Seq<char>)> {
    cs.map_values(|c: CorrectionSpec| (lower(c.path_pattern), c.category))
}

/// When a user correction applies to the path, it decides the result with
/// full confidence, whatever the rules say.
pub proof fn law_correction_precedence(e: EngineSpec, path: Seq<char>, name: Seq<char>, ext: Seq<char>)
    requires
        first_correction(e.patterns, lower(path), 0) >= 0,
    ensures
        classify_spec(e, path, name, ext) == (Outcome {
            category: e.patterns[first_correction(e.patterns, lower(path), 0)].1,
            confidence: 100,
            layers: seq!["user_correction"@],
        }),
{
}

/// A score never exceeds 100 hundredths.
pub proof fn law_score_bounded(e: EngineSpec, path: Seq<char>, name: Seq<char>, ext: Seq<char>)
    ensures
        classify_spec(e, path, name, ext).confidence <= 100,
{
}

/// Without an applicable correction, a file is given a rule's category only
/// with a score at or above the least passing score, and the unclassified
/// label whenever its score is below it.
pub proof fn law_threshold(e: EngineSpec, path: Seq<char>, name: Seq<char>, ext: Seq<char>)
    requires
        first_correction(e.patterns, lower(path), 0) < 0,
    ensures
        ({
            let o = classify_spec(e, path, name, ext);
            &&& o.confidence < e.min_score ==> o.category == e.unclassified_label
            &&& o.category != e.unclassified_label ==> o.confidence >= e.min_score
        }),
{
}

/// Matching ignores ASCII case: paths and names that agree in lowercase are
/// classified alike.
pub proof fn law_case_insensitive(
    e: EngineSpec,
    path_a: Seq<char>,
    name_a: Seq<char>,
    path_b: Seq<char>,
    name_b: Seq<char>,
    ext: Seq<char>,
)
    requires
        lower(path_a) == lower(path_b),
        lower(name_a) == lower(name_b),
    ensures
        classify_spec(e, path_a, name_a, ext) == classify_spec(e, path_b, name_b, ext),
{
}

/// `first_correction` picks the first applicable correction from `k` on.
proof fn lemma_first_correction_last(patterns: Seq<(Seq<char>, Seq<char>)>, path_lower: Seq<char>, k: int)
    requires
        0 <= k < patterns.len(),
        forall|i: int| k <= i < patterns.len() - 1 ==> !pattern_applies(#[trigger] patterns[i].0, path_lower),
        pattern_applies(patterns.last().0, path_lower),
    ensures
        first_correction(patterns, path_lower, k) == patterns.len() - 1,
    decreases patterns.len() - k,
{
    if k < patterns.len() - 1 {
        lemma_first_correction_last(patterns, path_lower, k + 1);
    }
}

/// A recorded correction is honoured: after recording pattern `pattern` for
/// `category`, a path that contains the pattern (ignoring ASCII case) is
/// classified as `category` with full confidence, unless one of the other
/// corrections already applies to it.
pub proof fn law_correction_honoured(
    rules: Seq<RuleSpec>,
    min_score: nat,
    unclassified_label: Seq<char>,
    corrections: Seq<CorrectionSpec>,
    pattern: Seq<char>,
    category: Seq<char>,
    created_at: Seq<char>,
    path: Seq<char>,
    name: Seq<char>,
    ext: Seq<char>,
)
    requires
        contains(lower(path), lower(pattern)),
        forall|i: int|
            0 <= i < without_pattern(corrections, pattern).len() ==> !pattern_applies(
                lower(#[trigger] without_pattern(corrections, pattern)[i].path_pattern),
                lower(path),
            ),
    ensures
        ({
            let e = EngineSpec {
                rules,
                min_score,
                unclassified_label,
                patterns: correction_patterns(with_correction(corrections, pattern, category, created_at)),
            };
            let o = classify_spec(e, path, name, ext);
            o.category == category && o.confidence == 100
        }),
{
    let cs2 = with_correction(corrections, pattern, category, created_at);
    let ps = correction_patterns(cs2);
    let kept = without_pattern(corrections, pattern);
    assert(ps.last().0 == lower(pattern));
    assert forall|i: int| 0 <= i < ps.len() - 1 implies !pattern_applies(#[trigger] ps[i].0, lower(path)) by {
        assert(ps[i].0 == lower(kept[i].path_pattern));
    }
    lemma_first_correction_last(ps, lower(path), 0);
}

/// What `std::path::Path::extension` yields for a path written as `name`.
pub uninterp spec fn file_extension(name: Seq<char>) -> Option<Seq<char>>;

/// The lowercased extension of `name`, or empty when it has none.
pub open spec fn extension_text(name: Seq<char>) -> Seq<char> {
    match file_extension(name) {
        Some(e) => lower(e),
        None => Seq::empty(),
    }
}

/// A name that is a single path component on every platform: not empty,
/// not `.` or `..`, and holding no `/`, `\` or `:`.
pub open spec fn is_plain_file_name(name: Seq<char>) -> bool {
    &&& name.len() > 0
    &&& name != seq!['.']
    &&& name != seq!['.', '.']
    &&& !name.contains('/')
    &&& !name.contains('\\')
    &&& !name.contains(':')
}

/// The extension of a plain file name as std documents it: the text after
/// the final `.`, or none when there is no `.` or the only `.` begins the
/// name.
pub open spec fn plain_extension(name: Seq<char>) -> Option<Seq<char>> {
    if last_dot(name) > 0 {
        Some(name.skip(last_dot(name) + 1))
    } else {
        None
    }
}

/// Trusted: `std::path::Path::extension` on `name`, converted to a `String`
/// (an extension of a `&str` path is valid UTF-8). The result is named
/// `file_extension`. std documents the extension as the part of the file
/// name after its final `.`, none when the file name holds no `.` or begins
/// with its only `.`; so it holds no `.`, and there is none when the path
/// holds no `.` at all. For a plain file name (one component, see
/// `is_plain_file_name`) the file name is the name itself, and the result
/// is stated exactly. How a longer path is split into components is left
/// unsaid.
#[verifier::external_body]
fn path_extension(name: &str) -> (r: Option<String>)
    ensures
        match r {
            Some(e) => file_extension(name@) == Some(e@) && !e@.contains('.'),
            None => file_extension(name@) is None,
        },
        !name@.contains('.') ==> r is None,
        is_plain_file_name(name@) ==> match r {
            Some(e) => plain_extension(name@) == Some(e@),
            None => plain_extension(name@) is None,
        },
{
    match std::path::Path::new(name).extension() {
        Some(e) => match e.to_str() {
            Some(t) => Some(t.to_owned()),
            None => None,
        },
        None => None,
    }
}

fn owned(s: &String) -> (r: String)
    ensures
        r@ == s@,
{
    s.clone()
}

/// Whether some extension of `rule`, lowercased, equals `ext`.
fn any_extension(rule: &CategoryRule, ext: &[char]) -> (b: bool)
    ensures
        b == (exists|k: int| 0 <= k < rule@.extensions.len() && lower(#[trigger] rule@.extensions[k]) == ext@),
{
    let n = rule.extensions.len();
    for k in 0..n
        invariant
            n == rule.extensions@.len(),
            forall|j: int| 0 <= j < k ==> lower(#[trigger] rule@.extensions[j]) != ext@,
    {
        let e = lower_chars(chars_of(rule.extensions[k].as_str()).as_slice());
        if chars_equal(e.as_slice(), ext) {
            assert(lower(rule@.extensions[k as int]) == ext@);
            return true;
        }
    }
    false
}

/// Index of the first of `tokens` whose lowercase occurs in `hay`.
fn first_token(tokens: &Vec<String>, hay: &[char]) -> (r: Option<usize>)
    ensures
        match r {
            Some(k) => k as int == first_contained(tokens@.map_values(|s: String| s@), hay@, 0)
                && k < tokens@.len(),
            None => first_contained(tokens@.map_values(|s: String| s@), hay@, 0) == -1,
        },
{
    let ghost ts = tokens@.map_values(|s: String| s@);
    let n = tokens.len();
    for k in 0..n
        invariant
            n == tokens@.len(),
            ts == tokens@.map_values(|s: String| s@),
            first_contained(ts, hay@, 0) == first_contained(ts, hay@, k as int),
    {
        let t = lower_chars(chars_of(tokens[k].as_str()).as_slice());
        if contains_exec(hay, t.as_slice()) {
            return Some(k);
        }
    }
    None
}

/// The layer text `prefix` followed by `s`.
fn layer(prefix: &str, s: &String) -> (r: String)
    ensures
        r@ == prefix@ + s@,
{
    let mut v = chars_of(prefix);
    let t = chars_of(s.as_str());
    let mut i: usize = 0;
    while i < t.len()
        invariant
            i <= t@.len(),
            v@ == prefix@ + t@.take(i as int),
        decreases t@.len() - i,
    {
        v.push(t[i]);
        i = i + 1;
        assert(v@ =~= prefix@ + t@.take(i as int));
    }
    assert(t@.take(t@.len() as int) =~= t@);
    string_from_chars(v.as_slice())
}

/// Scores `rule` for a file with lowercased extension `ext`, path
/// `path_lower` and name `filename_lower`; see `rule_score`.
fn score_rule(rule: &CategoryRule, ext: &[char], path_lower: &[char], filename_lower: &[char]) -> (r: (
    u32,
    Vec<String>,
))
    ensures
        r.0 as nat == rule_score(rule@, ext@, path_lower@, filename_lower@),
        r.1@.map_values(|s: String| s@) == rule_layers(rule@, ext@, path_lower@, filename_lower@),
{
    let mut score: u32 = 0;
    let mut layers: Vec<String> = Vec::new();
    let ghost r = rule@;
    if ext.len() > 0 && any_extension(rule, ext) {
        score = score + 45;
        layers.push("extension".to_owned());
    }
    assert(score == (if extension_matches(r, ext@) { 45nat } else { 0nat }));
    let ghost a = layers@.map_values(|s: String| s@);
    match first_token(&rule.folder_tokens, path_lower) {
        Some(k) => {
            score = score + 30;
            layers.push(layer("folder:", &rule.folder_tokens[k]));
        },
        None => {},
    }
    let ghost b = layers@.map_values(|s: String| s@);
    match first_token(&rule.filename_keywords, filename_lower) {
        Some(k) => {
            score = score + 25;
            layers.push(layer("keyword:", &rule.filename_keywords[k]));
        },
        None => {},
    }
    assert(layers@.map_values(|s: String| s@) =~= rule_layers(r, ext@, path_lower@, filename_lower@));
    if score > 100 {
        score = 100;
    }
    (score, layers)
}

impl ClassificationEngine {
    /// An engine for `config` that applies `corrections` first; correction
    /// patterns are matched in lowercase.
    pub fn new(config: RulesConfig, corrections: CorrectionsFile) -> (e: ClassificationEngine)
        ensures
            e@.rules == rule_views(config.categories@),
            e@.min_score == config.settings.min_score,
            e@.unclassified_label == config.settings.unclassified_label@,
            e@.patterns == correction_patterns(corrections@),
    {
        let mut patterns: Vec<(String, String)> = Vec::new();
        let n = corrections.corrections.len();
        for i in 0..n
            invariant
                n == corrections@.len(),
                patterns@.len() == i,
                forall|j: int|
                    0 <= j < i ==> (#[trigger] patterns@[j]).0@ == lower(corrections@[j].path_pattern)
                        && patterns@[j].1@ == corrections@[j].category,
        {
            let c = &corrections.corrections[i];
            let p = string_from_chars(lower_chars(chars_of(c.path_pattern.as_str()).as_slice()).as_slice());
            patterns.push((p, owned(&c.category)));
        }
        let e = ClassificationEngine { config, correction_patterns: patterns };
        assert(e@.patterns =~= correction_patterns(corrections@));
        e
    }

    /// The index of the first correction that applies to `path_lower`.
    fn find_correction(&self, path_lower: &[char]) -> (r: Option<usize>)
        ensures
            match r {
                Some(k) => k as int == first_correction(self@.patterns, path_lower@, 0) && k
                    < self@.patterns.len(),
                None => first_correction(self@.patterns, path_lower@, 0) == -1,
            },
    {
        let n = self.correction_patterns.len();
        for k in 0..n
            invariant
                n == self@.patterns.len(),
                first_correction(self@.patterns, path_lower@, 0) == first_correction(
                    self@.patterns,
                    path_lower@,
                    k as int,
                ),
        {
            let pattern = chars_of(self.correction_patterns[k].0.as_str());
            assert(pattern@ == self@.patterns[k as int].0);
            if contains_exec(path_lower, pattern.as_slice()) || contains_exec(pattern.as_slice(), path_lower) {
                return Some(k);
            }
        }
        None
    }

    /// Classifies a file with path `path`, name `filename` and lowercased
    /// extension `ext` (empty when it has none); see `classify_spec`.
    pub fn classify_with_extension(&self, path: &str, filename: &str, ext: &str) -> (r: ClassificationResult)
        ensures
            r.outcome() == classify_spec(self@, path@, filename@, ext@),
    {
        let path_lower = lower_chars(chars_of(path).as_slice());
        let filename_lower = lower_chars(chars_of(filename).as_slice());
        let ext_chars = chars_of(ext);
        let ghost spec = classify_spec(self@, path@, filename@, ext@);
        match self.find_correction(path_lower.as_slice()) {
            Some(k) => {
                let mut layers: Vec<String> = Vec::new();
                layers.push("user_correction".to_owned());
                let r = ClassificationResult {
                    category: owned(&self.correction_patterns[k].1),
                    confidence: 100,
                    matched_layers: layers,
                };
                assert(r.outcome().layers =~= spec.layers);
                return r;
            },
            None => {},
        }
        let rules = &self.config.categories;
        let n = rules.len();
        let mut best: Option<(usize, u32, Vec<String>)> = None;
        for k in 0..n
            invariant
                n == self@.rules.len(),
                rules@ == self.config.categories@,
                self@.rules == rule_views(rules@),
                ext_chars@ == ext@,
                match best {
                    Some(b) => b.0 as int == best_rule(self@.rules, ext@, path_lower@, filename_lower@, k as int)
                        && b.0 < k && b.1 as nat == rule_score(self@.rules[b.0 as int], ext@, path_lower@, filename_lower@)
                        && b.2@.map_values(|s: String| s@) == rule_layers(self@.rules[b.0 as int], ext@, path_lower@, filename_lower@),
                    None => best_rule(self@.rules, ext@, path_lower@, filename_lower@, k as int) == -1,
                },
        {
            let (score, layers) = score_rule(&rules[k], ext_chars.as_slice(), path_lower.as_slice(), filename_lower.as_slice());
            assert(rules@[k as int]@ == self@.rules[k as int]);
            let ghost prev = best_rule(self@.rules, ext@, path_lower@, filename_lower@, k as int);
            assert(best_rule(self@.rules, ext@, path_lower@, filename_lower@, k + 1) == if score == 0 {
                prev
            } else if prev < 0 || score > rule_score(self@.rules[prev], ext@, path_lower@, filename_lower@) {
                k as int
            } else {
                prev
            });
            if score > 0 {
                let replace = match &best {
                    Some(b) => score > b.1,
                    None => true,
                };
                if replace {
                    best = Some((k, score, layers));
                }
            }
        }
        match best {
            Some(b) => {
                let (idx, score, layers) = b;
                let category = if score >= self.config.settings.min_score {
                    owned(&rules[idx].name)
                } else {
                    owned(&self.config.settings.unclassified_label)
                };
                ClassificationResult { category, confidence: score, matched_layers: layers }
            },
            None => {
                let r = ClassificationResult {
                    category: owned(&self.config.settings.unclassified_label),
                    confidence: 0,
                    matched_layers: Vec::new(),
                };
                assert(r.outcome().layers =~= Seq::<Seq<char>>::empty());
                r
            },
        }
    }

    /// Classifies a file by its path and name; the extension is taken from
    /// the name by `std::path::Path::extension` and lowercased.
    pub fn classify_path(&self, path: &str, filename: &str) -> (r: ClassificationResult)
        ensures
            r.outcome() == classify_spec(self@, path@, filename@, extension_text(filename@)),
            is_plain_file_name(filename@) ==> extension_text(filename@) == match plain_extension(filename@) {
                Some(e) => lower(e),
                None => Seq::empty(),
            },
    {
        let ext = match path_extension(filename) {
            Some(e) => string_from_chars(lower_chars(chars_of(e.as_str()).as_slice()).as_slice()),
            None => String::new(),
        };
        self.classify_with_extension(path, filename, ext.as_str())
    }

    /// Classifies a catalog entry by its path and name.
    pub fn classify_entry(&self, entry: &FileEntry) -> (r: ClassificationResult)
        ensures
            r.outcome() == classify_spec(self@, entry.path@, entry.filename@, extension_text(entry.filename@)),
    {
        self.classify_path(entry.path.as_str(), entry.filename.as_str())
    }

    /// Classifies every entry, keeping the order.
    pub fn classify_all(&self, entries: &[FileEntry]) -> (v: Vec<ClassifiedFile>)
        ensures
            v@.len() == entries@.len(),
            forall|i: int|
                0 <= i < v@.len() ==> (#[trigger] v@[i]).entry == entries@[i] && v@[i].result.outcome()
                    == classify_spec(
                    self@,
                    entries@[i].path@,
                    entries@[i].filename@,
                    extension_text(entries@[i].filename@),
                ),
    {
        let mut v: Vec<ClassifiedFile> = Vec::new();
        let n = entries.len();
        for i in 0..n
            invariant
                n == entries@.len(),
                v@.len() == i,
                forall|j: int|
                    0 <= j < i ==> (#[trigger] v@[j]).entry == entries@[j] && v@[j].result.outcome()
                        == classify_spec(
                        self@,
                        entries@[j].path@,
                        entries@[j].filename@,
                        extension_text(entries@[j].filename@),
                    ),
        {
            let e = &entries[i];
            v.push(ClassifiedFile { result: self.classify_entry(e), entry: clone_entry(e) });
        }
        v
    }
}

} // verus!
