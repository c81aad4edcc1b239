//! Rule-based classification of catalog entries, user corrections and
//! part/revision grouping.
pub mod corrections;
pub mod engine;
pub mod grouping;
pub mod rules;

pub use corrections::{apply_correction, CorrectionsFile, UserCorrection};
pub use grouping::{group_by_part_revision, PartRevisionGroup};
pub use engine::{ClassificationEngine, ClassificationResult, ClassifiedFile};


pub use rules::{default_rules_path, CategoryRule, ClassificationSettings, RulesConfig};
