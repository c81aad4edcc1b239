//! Classification rules: per-category extensions, folder tokens and
//! filename keywords, and the settings that decide when a score passes.
use vstd::prelude::*;

verus! {

/// One category and the evidence that points to it.
#[derive(Debug, Clone)]
pub struct CategoryRule {
    pub name: String,
    pub extensions: Vec<String>,
    pub folder_tokens: Vec<String>,
    pub filename_keywords: Vec<String>,
}

/// Scores are in hundredths (a full match scores 100). A best score at or
/// above `min_score` classifies the file; otherwise it gets
/// `unclassified_label`.
#[derive(Debug, Clone)]
pub struct ClassificationSettings {
    pub min_score: u32,
    pub unclassified_label: String,
}

/// The whole rule set.
#[derive(Debug, Clone)]
pub struct RulesConfig {
    pub settings: ClassificationSettings,
    pub categories: Vec<CategoryRule>,
}

/// A category rule with its strings taken as character sequences.
pub struct RuleSpec {
    pub name: Seq<char>,
    pub extensions: Seq<Seq<char>>,
    pub folder_tokens: Seq<Seq<char>>,
    pub filename_keywords: Seq<Seq<char>>,
}

/// The character sequences of a list of strings.
pub open spec fn views(v: Seq<String>) -> Seq<Seq<char>> {
    v.map_values(|s: String| s@)
}

impl View for CategoryRule {
    type V = RuleSpec;

    open spec fn view(&self) -> RuleSpec {
        RuleSpec {
            name: self.name@,
            extensions: views(self.extensions@),
            folder_tokens: views(self.folder_tokens@),
            filename_keywords: views(self.filename_keywords@),
        }
    }
}

/// The rules of a configuration, in order.
pub open spec fn rule_views(v: Seq<CategoryRule>) -> Seq<RuleSpec> {
    v.map_values(|r: CategoryRule| r@)
}

/// The label given to files that no rule classifies, by default.
pub open spec fn default_unclassified_label() -> Seq<char> {
    "Unclassified — Needs Review"@
}

impl Default for RulesConfig {
    /// No categories; a score passes from 55 hundredths on; unclassified
    /// files are labelled `Unclassified — Needs Review`.
    fn default() -> (r: Self)
        ensures
            r.settings.min_score == 55,
            r.settings.unclassified_label@ == default_unclassified_label(),
            r.categories@.len() == 0,
    {
        RulesConfig {
            settings: ClassificationSettings {
                min_score: 55,
                unclassified_label: "Unclassified — Needs Review".to_owned(),
            },
            categories: Vec::new(),
        }
    }
}

/// Where the rules file is looked for by default, relative to the working
/// directory.
pub fn default_rules_path() -> (p: String)
    ensures
        p@ == "rules/classification.toml"@,
{
    "rules/classification.toml".to_owned()
}

} // verus!
