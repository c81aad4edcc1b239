use ntfs_catalog::catalog::FileEntry;
use ntfs_catalog::classify::corrections::{decimal_string, unix_timestamp_label};
use ntfs_catalog::classify::engine::ClassificationResult;
use ntfs_catalog::classify::grouping::extract_part_revision;
use ntfs_catalog::classify::{
    apply_correction, default_rules_path, group_by_part_revision, CategoryRule,
    ClassificationEngine, ClassificationSettings, ClassifiedFile, CorrectionsFile, RulesConfig,
};
use ntfs_catalog::mft::FileTimestamps;

fn test_config() -> RulesConfig {
    RulesConfig {
        settings: ClassificationSettings {
            min_score: 55,
            unclassified_label: "Unclassified — Needs Review".to_string(),
        },
        categories: vec![
            CategoryRule {
                name: "Drawing".to_string(),
                extensions: vec!["pdf".to_string(), "dwg".to_string()],
                folder_tokens: vec!["drawings".to_string()],
                filename_keywords: vec!["DRW".to_string()],
            },
            CategoryRule {
                name: "Quality".to_string(),
                extensions: vec!["xlsx".to_string()],
                folder_tokens: vec!["quality".to_string(), "fmea".to_string()],
                filename_keywords: vec!["FMEA".to_string()],
            },
        ],
    }
}

#[test]
fn extension_and_folder_scoring() {
    let engine = ClassificationEngine::new(test_config(), CorrectionsFile::default());
    let result = engine.classify_path(r"\projects\drawings\part001.pdf", "part001.pdf");
    assert_eq!(result.category, "Drawing");
    assert!(result.confidence >= 55);
    assert!(result.matched_layers.iter().any(|l| l == "extension"));
}

#[test]
fn keyword_match_boosts_quality() {
    let engine = ClassificationEngine::new(test_config(), CorrectionsFile::default());
    let result = engine.classify_path(r"\docs\report-FMEA.xlsx", "report-FMEA.xlsx");
    assert_eq!(result.category, "Quality");
    assert!(result.confidence >= 55);
}

#[test]
fn below_threshold_goes_unclassified() {
    let engine = ClassificationEngine::new(test_config(), CorrectionsFile::default());
    let result = engine.classify_path(r"\temp\data.bin", "data.bin");
    assert_eq!(result.category, "Unclassified — Needs Review");
    assert!(result.confidence < 55);
}

#[test]
fn scores_add_up_per_layer() {
    let engine = ClassificationEngine::new(test_config(), CorrectionsFile::default());
    let r = engine.classify_path(r"\projects\drawings\part001.pdf", "part001.pdf");
    assert_eq!(r.confidence, 75);
    assert_eq!(r.matched_layers, vec!["extension".to_string(), "folder:drawings".to_string()]);
    let q = engine.classify_path(r"\docs\report-FMEA.xlsx", "report-FMEA.xlsx");
    assert_eq!(q.confidence, 100);
    assert_eq!(
        q.matched_layers,
        vec!["extension".to_string(), "folder:fmea".to_string(), "keyword:FMEA".to_string()]
    );
}

#[test]
fn weak_match_keeps_score_but_stays_unclassified() {
    let engine = ClassificationEngine::new(test_config(), CorrectionsFile::default());
    let r = engine.classify_path(r"\misc\notes.pdf", "notes.pdf");
    assert_eq!(r.category, "Unclassified — Needs Review");
    assert_eq!(r.confidence, 45);
    assert_eq!(r.matched_layers, vec!["extension".to_string()]);
}

#[test]
fn extension_matching_ignores_case() {
    let engine = ClassificationEngine::new(test_config(), CorrectionsFile::default());
    let r = engine.classify_with_extension(r"\Drawings\A.PDF", "A.PDF", "pdf");
    assert_eq!(r.category, "Drawing");
    let r2 = engine.classify_path(r"\Drawings\A.PDF", "A.PDF");
    assert_eq!(r2.category, "Drawing");
    assert_eq!(r2.confidence, 75);
}

#[test]
fn user_correction_overrides_rules() {
    let mut corrections = CorrectionsFile::default();
    apply_correction(&mut corrections, r"\Projects\Drawings", "Quality", "unix:1");
    let engine = ClassificationEngine::new(test_config(), corrections);
    let r = engine.classify_path(r"\projects\drawings\part001.pdf", "part001.pdf");
    assert_eq!(r.category, "Quality");
    assert_eq!(r.confidence, 100);
    assert_eq!(r.matched_layers, vec!["user_correction".to_string()]);
}

#[test]
fn correction_replaces_same_pattern() {
    let mut file = CorrectionsFile::default();
    apply_correction(&mut file, "a", "X", "unix:1");
    apply_correction(&mut file, "b", "Y", "unix:2");
    apply_correction(&mut file, "a", "Z", "unix:3");
    assert_eq!(file.corrections.len(), 2);
    assert_eq!(file.corrections[0].path_pattern, "b");
    assert_eq!(file.corrections[1].path_pattern, "a");
    assert_eq!(file.corrections[1].category, "Z");
    assert_eq!(file.corrections[1].created_at, "unix:3");
}

#[test]
fn timestamps_are_decimal() {
    assert_eq!(decimal_string(0), "0");
    assert_eq!(decimal_string(1_700_000_123), "1700000123");
    assert_eq!(unix_timestamp_label(42), "unix:42");
    assert_eq!(decimal_string(u64::MAX), "18446744073709551615");
}

#[test]
fn default_rules_and_path() {
    let cfg = RulesConfig::default();
    assert_eq!(cfg.settings.min_score, 55);
    assert_eq!(cfg.settings.unclassified_label, "Unclassified — Needs Review");
    assert!(cfg.categories.is_empty());
    assert_eq!(default_rules_path(), "rules/classification.toml");
}

fn make_classified(name: &str) -> ClassifiedFile {
    ClassifiedFile {
        entry: FileEntry {
            record_number: 1,
            sequence_number: 1,
            parent_record: 5,
            parent_sequence: 1,
            filename: name.to_string(),
            path: format!(r"\x\{}", name),
            file_size: 0,
            timestamps: FileTimestamps::default(),
            parent_valid: true,
            is_active: true,
        },
        result: ClassificationResult {
            category: "Drawing".to_string(),
            confidence: 80,
            matched_layers: vec![],
        },
    }
}

#[test]
fn groups_by_part_and_revision() {
    let files = vec![
        make_classified("ABC-100_REV-A.pdf"),
        make_classified("ABC-100_REV-B.pdf"),
        make_classified("ABC-100_REV-A.dwg"),
    ];
    let groups = group_by_part_revision(&files);
    assert_eq!(groups.len(), 2);
}

#[test]
fn groups_are_ordered_by_part_and_keep_file_order() {
    let files = vec![
        make_classified("ZZZ-1.pdf"),
        make_classified("ABC-100_REV-B.pdf"),
        make_classified("ABC-100_REV-A.pdf"),
        make_classified("ABC-100_REV-A.dwg"),
    ];
    let groups = group_by_part_revision(&files);
    assert_eq!(groups.len(), 3);
    assert_eq!(groups[0].part_key, "ABC-100");
    assert_eq!(groups[0].revision.as_deref(), Some("B"));
    assert_eq!(groups[1].revision.as_deref(), Some("A"));
    assert_eq!(groups[1].files.len(), 2);
    assert_eq!(groups[1].files[0].entry.filename, "ABC-100_REV-A.pdf");
    assert_eq!(groups[1].files[1].entry.filename, "ABC-100_REV-A.dwg");
    assert_eq!(groups[2].part_key, "ZZZ-1");
    assert_eq!(groups[2].revision, None);
}

#[test]
fn part_and_revision_are_extracted() {
    assert_eq!(extract_part_revision("ABC-100_REV-A.pdf"), ("ABC-100".to_string(), Some("A".to_string())));
    assert_eq!(extract_part_revision("ABC-100-rev2"), ("ABC-100".to_string(), Some("2".to_string())));
    assert_eq!(extract_part_revision("P7_REV C.doc"), ("P7".to_string(), Some("C".to_string())));
    assert_eq!(extract_part_revision("P8_REV__D.doc"), ("P8".to_string(), Some("_D".to_string())));
    assert_eq!(extract_part_revision("P9_REV-"), ("P9".to_string(), Some("".to_string())));
    assert_eq!(extract_part_revision("xyz-rev3.tar.gz"), ("xyz".to_string(), Some("3.tar".to_string())));
    assert_eq!(extract_part_revision("NoRevision"), ("NoRevision".to_string(), None));
    assert_eq!(extract_part_revision("a_rev_b-REV-c"), ("a".to_string(), Some("b-REV-c".to_string())));
}

#[test]
fn extension_of_plain_names_follows_the_last_dot() {
    let engine = ClassificationEngine::new(test_config(), CorrectionsFile::default());
    let r = engine.classify_path(r"\x\sheet.backup.PDF", "sheet.backup.PDF");
    assert_eq!(r.matched_layers, vec!["extension".to_string()]);
    let hidden = engine.classify_path(r"\x\.pdf", ".pdf");
    assert!(hidden.matched_layers.is_empty());
    let trailing = engine.classify_path(r"\x\pdf.", "pdf.");
    assert!(trailing.matched_layers.is_empty());
}
