use ntfs_catalog::catalog::FileEntry;
use ntfs_catalog::classify::engine::ClassificationResult;
use ntfs_catalog::classify::ClassifiedFile;
use ntfs_catalog::commands::{category_summary, contains_ignore_case, network_imports};
use ntfs_catalog::dashboard::{build_branch_tree, compute_stats, format_filetime, BranchTree, TreeNodeKind};
use ntfs_catalog::dashboard::browse::{matches_search, recent_in_category};
use ntfs_catalog::demo::build_demo_catalog;
use ntfs_catalog::mft::FileTimestamps;
use ntfs_catalog::security::part_group_categories;

fn classified(name: &str, path: &str, category: &str) -> ClassifiedFile {
    ClassifiedFile {
        entry: FileEntry {
            record_number: 1,
            sequence_number: 1,
            parent_record: 5,
            parent_sequence: 1,
            filename: name.to_string(),
            path: path.to_string(),
            file_size: 1024,
            timestamps: FileTimestamps::default(),
            parent_valid: true,
            is_active: true,
        },
        result: ClassificationResult {
            category: category.to_string(),
            confidence: 90,
            matched_layers: vec![],
        },
    }
}

#[test]
fn branch_tree_has_part_branches_for_drawings() {
    let files = vec![
        classified("ABC-100_REV-A.pdf", r"\d\ABC-100_REV-A.pdf", "Drawing"),
        classified("ABC-100_REV-A.dwg", r"\d\ABC-100_REV-A.dwg", "Drawing"),
        classified("ABC-100_REV-B.pdf", r"\d\ABC-100_REV-B.pdf", "Drawing"),
    ];
    let tree = build_branch_tree(&files);
    assert!(!tree.roots.is_empty());
    assert!(tree.count_branches() >= 2);
}

#[test]
fn drawing_branches_follow_part_and_revision() {
    let files = vec![
        classified("ABC-100_REV-A.pdf", r"\d\ABC-100_REV-A.pdf", "Drawing"),
        classified("ABC-100_REV-A.dwg", r"\d\ABC-100_REV-A.dwg", "Drawing"),
        classified("ABC-100_REV-B.pdf", r"\d\ABC-100_REV-B.pdf", "Drawing"),
    ];
    let tree = build_branch_tree(&files);
    assert_eq!(tree.roots.len(), 1);
    let drawing = &tree.roots[0];
    assert_eq!(drawing.kind, TreeNodeKind::Category);
    assert_eq!(drawing.file_count, 3);
    assert_eq!(drawing.children.len(), 2);
    assert_eq!(drawing.children[0].kind, TreeNodeKind::PartBranch);
    assert_eq!(drawing.children[0].label, "ABC-100  ·  Rev A");
    assert_eq!(drawing.children[0].file_count, 2);
    assert_eq!(drawing.children[0].children[0].label, "ABC-100_REV-A.pdf");
    assert_eq!(drawing.children[0].children[1].label, "ABC-100_REV-A.dwg");
    assert_eq!(drawing.children[1].kind, TreeNodeKind::PartBranch);
    assert_eq!(drawing.children[1].label, "ABC-100  ·  Rev B");
    assert_eq!(drawing.children[1].file_count, 1);
}

#[test]
fn tree_orders_categories_and_labels_nodes() {
    let files = vec![
        classified("x.bin", r"\t\x.bin", "Unclassified — Needs Review"),
        classified("ABC-100_REV-A.pdf", r"\d\ABC-100_REV-A.pdf", "Drawing"),
        classified("note.txt", r"\n\note.txt", "Correspondence"),
        classified("XYZ.pdf", r"\d\XYZ.pdf", "Drawing"),
    ];
    let tree = build_branch_tree(&files);
    assert_eq!(tree.roots.len(), 3);
    assert_eq!(tree.roots[0].label, "Correspondence  (1)");
    assert_eq!(tree.roots[1].label, "Drawing  (2)");
    assert_eq!(tree.roots[2].label, "Unclassified — Needs Review  (1)");
    let drawing = &tree.roots[1];
    assert_eq!(drawing.kind, TreeNodeKind::Category);
    assert_eq!(drawing.file_count, 2);
    assert_eq!(drawing.total_bytes, 2048);
    assert_eq!(drawing.children.len(), 2);
    assert_eq!(drawing.children[0].label, "ABC-100  ·  Rev A");
    assert_eq!(drawing.children[0].kind, TreeNodeKind::PartBranch);
    assert_eq!(drawing.children[0].children[0].file_index, Some(1));
    assert_eq!(drawing.children[1].label, "Other files");
    assert_eq!(drawing.children[1].kind, TreeNodeKind::LooseBucket);
    assert_eq!(drawing.children[1].children[0].label, "XYZ.pdf");
    assert_eq!(tree.roots[0].children[0].kind, TreeNodeKind::File);
    assert_eq!(tree.count_branches(), 1);
}

#[test]
fn single_file_without_revision_is_no_branch() {
    let files = vec![
        classified("P1.pdf", r"\a\P1.pdf", "Quality"),
        classified("P2.pdf", r"\a\P2.pdf", "Quality"),
        classified("P2.dwg", r"\a\P2.dwg", "Quality"),
    ];
    let tree = build_branch_tree(&files);
    let q = &tree.roots[0];
    assert_eq!(q.children.len(), 2);
    assert_eq!(q.children[0].label, "P2  ·  (no rev)");
    assert_eq!(q.children[0].file_count, 2);
    assert_eq!(q.children[1].label, "Other files");
    assert_eq!(q.children[1].children[0].file_index, Some(0));
}

#[test]
fn stats_count_files_bytes_and_orphans() {
    let mut files = vec![
        classified("a.pdf", r"\a.pdf", "Drawing"),
        classified("b.bin", r"\b.bin", "Unclassified — Needs Review"),
        classified("c.pdf", r"\c.pdf", "Drawing"),
    ];
    files[2].entry.parent_valid = false;
    files[1].entry.file_size = 10;
    let tree = build_branch_tree(&files);
    let stats = compute_stats(&files, &tree);
    assert_eq!(stats.total_files, 3);
    assert_eq!(stats.total_bytes, 2058);
    assert_eq!(stats.unclassified, 1);
    assert_eq!(stats.orphan_paths, 1);
    assert_eq!(stats.part_branches, tree.count_branches());
    assert_eq!(stats.by_category, vec![("Drawing".to_string(), 2), ("Unclassified — Needs Review".to_string(), 1)]);
    let empty = BranchTree::default();
    assert_eq!(empty.count_branches(), 0);
}

#[test]
fn summary_orders_categories_by_count() {
    let files = vec![
        classified("a", r"\a", "B"),
        classified("b", r"\b", "A"),
        classified("c", r"\c", "A"),
        classified("d", r"\d", "C"),
    ];
    let summary = category_summary(&files);
    assert_eq!(
        summary,
        vec![("A".to_string(), 2), ("B".to_string(), 1), ("C".to_string(), 1)]
    );
}

#[test]
fn demo_catalog_has_root_and_sixteen_files() {
    let cat = build_demo_catalog();
    assert_eq!(cat.len(), 17);
    assert_eq!(cat.drive_letter(), 'C');
    let first = cat.get(100).unwrap();
    assert_eq!(first.filename, "ABC-100_REV-A.pdf");
    assert_eq!(first.path, r"\Projects\Drawings\ABC-100_REV-A.pdf");
    assert_eq!(first.file_size, 245_760);
    assert_eq!(first.timestamps.modified, 1_700_000_000);
    let last = cat.get(115).unwrap();
    assert_eq!(last.filename, "unknown-file.dat");
    assert_eq!(last.timestamps.modified, 1_700_000_015);
    assert_eq!(cat.get(5).unwrap().path, "\\");
}

#[test]
fn groupable_categories_are_fixed() {
    assert_eq!(part_group_categories(), &["Drawing", "CAD Model", "Quality"]);
}

#[test]
fn ignore_case_search_finds_dll_names() {
    assert!(contains_ignore_case(b"xxws2_32.DLLyy", b"WS2_32.dll"));
    assert!(!contains_ignore_case(b"abc", b""));
    assert!(!contains_ignore_case(b"ab", b"abc"));
    let data = b"...winhttp.dll...KERNEL32.dll";
    assert_eq!(network_imports(data), vec!["WINHTTP.dll"]);
    assert!(network_imports(b"clean binary").is_empty());
}

#[test]
fn filetimes_display_as_unix_seconds() {
    assert_eq!(format_filetime(0), "—");
    assert_eq!(format_filetime(116_444_736_050_000_000), "5 (unix)");
    assert_eq!(format_filetime(1), "0 (unix)");
}

#[test]
fn search_keeps_labels_ignoring_ascii_case() {
    assert!(matches_search("ABC-100_REV-A.pdf", ""));
    assert!(matches_search("ABC-100_REV-A.pdf", "rev-a"));
    assert!(matches_search("ABC-100_REV-A.pdf", "ABC"));
    assert!(!matches_search("ABC-100_REV-A.pdf", "rev-b"));
    assert!(!matches_search("ÄBC.pdf", "äbc"));
}

#[test]
fn recent_in_category_lists_first_eight_other_paths() {
    let mut files = Vec::new();
    for i in 0..12 {
        let name = format!("f{}.pdf", i);
        let path = format!(r"\d\{}", name);
        let category = if i % 3 == 2 { "Quality" } else { "Drawing" };
        files.push(classified(&name, &path, category));
    }
    files.push(classified("f0.pdf", r"\d\f0.pdf", "Drawing"));
    let peers = recent_in_category(&files, 0);
    assert_eq!(peers, vec![1, 3, 4, 6, 7, 9, 10]);
    let quality = recent_in_category(&files, 2);
    assert_eq!(quality, vec![5, 8, 11]);
    let mut many = Vec::new();
    for i in 0..11 {
        many.push(classified("x", &format!(r"\p{}", i), "Drawing"));
    }
    assert_eq!(recent_in_category(&many, 4), vec![0, 1, 2, 3, 5, 6, 7, 8]);
}
