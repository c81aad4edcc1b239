//! A synthetic engineering catalog for previewing the dashboard without
//! reading a volume.
use vstd::prelude::*;

use crate::catalog::{lemma_last_slot, Catalog, CatalogView};
use crate::mft::{FileTimestamps, ROOT_RECORD};

verus! {

/// The demo files: path, file name and size.
pub open spec fn demo_files() -> Seq<(Seq<char>, Seq<char>, u64)> {
    seq![
        ("\\Projects\\Drawings\\ABC-100_REV-A.pdf"@, "ABC-100_REV-A.pdf"@, 245_760u64),
        ("\\Projects\\Drawings\\ABC-100_REV-A.dwg"@, "ABC-100_REV-A.dwg"@, 512_000u64),
        ("\\Projects\\Drawings\\ABC-100_REV-B.pdf"@, "ABC-100_REV-B.pdf"@, 248_000u64),
        ("\\Projects\\Drawings\\XYZ-200.pdf"@, "XYZ-200.pdf"@, 180_000u64),
        ("\\CAD\\Models\\ABC-100_REV-A.sldprt"@, "ABC-100_REV-A.sldprt"@, 2_400_000u64),
        ("\\CAD\\Models\\ABC-100_REV-A.step"@, "ABC-100_REV-A.step"@, 1_800_000u64),
        ("\\CAD\\Models\\XYZ-200.stp"@, "XYZ-200.stp"@, 900_000u64),
        ("\\Quality\\FMEA\\Widget-FMEA-2024.xlsx"@, "Widget-FMEA-2024.xlsx"@, 89_000u64),
        ("\\Quality\\RCA\\Line3-RCA-8D.xlsx"@, "Line3-RCA-8D.xlsx"@, 120_000u64),
        ("\\Quality\\NCR\\NCR-1042.pdf"@, "NCR-1042.pdf"@, 45_000u64),
        ("\\Test\\FEA\\Bracket-SIM-report.csv"@, "Bracket-SIM-report.csv"@, 34_000u64),
        ("\\Suppliers\\Quotes\\QTN-8842.pdf"@, "QTN-8842.pdf"@, 210_000u64),
        ("\\Mfg\\Production\\BOM-Widget-v3.xlsx"@, "BOM-Widget-v3.xlsx"@, 55_000u64),
        ("\\Correspondence\\PO-confirm-8842.pdf"@, "PO-confirm-8842.pdf"@, 32_000u64),
        ("\\Temp\\misc-data.bin"@, "misc-data.bin"@, 4096u64),
        ("\\Temp\\unknown-file.dat"@, "unknown-file.dat"@, 8192u64),
    ]
}

/// The timestamps of demo file `i`: modified at 1 700 000 000 + `i`
/// seconds, the others zero.
pub open spec fn demo_timestamps(i: int) -> FileTimestamps {
    FileTimestamps { modified: (1_700_000_000 + i) as u64, ..FileTimestamps::zero() }
}

/// The root directory record of the demo catalog.
pub open spec fn demo_root() -> CatalogView {
    CatalogView { rows: Seq::empty(), pool: Seq::empty(), drive_letter: 'C' }.upsert(
        ROOT_RECORD,
        1,
        ROOT_RECORD,
        1,
        ""@,
        "\\"@,
        0,
        FileTimestamps::zero(),
        true,
        true,
    )
}

/// The demo catalog after its root and the first `k` files: file `i` is
/// record 100 + `i`, sequence 1, under the root, active and valid.
pub open spec fn demo_upto(k: int) -> CatalogView
    decreases k,
{
    if k <= 0 {
        demo_root()
    } else {
        let f = demo_files()[k - 1];
        demo_upto(k - 1).upsert(
            (100 + k - 1) as u64,
            1,
            ROOT_RECORD,
            1,
            f.1,
            f.0,
            f.2,
            demo_timestamps(k - 1),
            true,
            true,
        )
    }
}

/// Demo file `i`: path, file name and size.
fn demo_file(i: usize) -> (r: (&'static str, &'static str, u64))
    requires
        i < 16,
    ensures
        r.0@ == demo_files()[i as int].0,
        r.1@ == demo_files()[i as int].1,
        r.2 == demo_files()[i as int].2,
{
    if i == 0 {
        ("\\Projects\\Drawings\\ABC-100_REV-A.pdf", "ABC-100_REV-A.pdf", 245_760)
    } else if i == 1 {
        ("\\Projects\\Drawings\\ABC-100_REV-A.dwg", "ABC-100_REV-A.dwg", 512_000)
    } else if i == 2 {
        ("\\Projects\\Drawings\\ABC-100_REV-B.pdf", "ABC-100_REV-B.pdf", 248_000)
    } else if i == 3 {
        ("\\Projects\\Drawings\\XYZ-200.pdf", "XYZ-200.pdf", 180_000)
    } else if i == 4 {
        ("\\CAD\\Models\\ABC-100_REV-A.sldprt", "ABC-100_REV-A.sldprt", 2_400_000)
    } else if i == 5 {
        ("\\CAD\\Models\\ABC-100_REV-A.step", "ABC-100_REV-A.step", 1_800_000)
    } else if i == 6 {
        ("\\CAD\\Models\\XYZ-200.stp", "XYZ-200.stp", 900_000)
    } else if i == 7 {
        ("\\Quality\\FMEA\\Widget-FMEA-2024.xlsx", "Widget-FMEA-2024.xlsx", 89_000)
    } else if i == 8 {
        ("\\Quality\\RCA\\Line3-RCA-8D.xlsx", "Line3-RCA-8D.xlsx", 120_000)
    } else if i == 9 {
        ("\\Quality\\NCR\\NCR-1042.pdf", "NCR-1042.pdf", 45_000)
    } else if i == 10 {
        ("\\Test\\FEA\\Bracket-SIM-report.csv", "Bracket-SIM-report.csv", 34_000)
    } else if i == 11 {
        ("\\Suppliers\\Quotes\\QTN-8842.pdf", "QTN-8842.pdf", 210_000)
    } else if i == 12 {
        ("\\Mfg\\Production\\BOM-Widget-v3.xlsx", "BOM-Widget-v3.xlsx", 55_000)
    } else if i == 13 {
        ("\\Correspondence\\PO-confirm-8842.pdf", "PO-confirm-8842.pdf", 32_000)
    } else if i == 14 {
        ("\\Temp\\misc-data.bin", "misc-data.bin", 4096)
    } else {
        ("\\Temp\\unknown-file.dat", "unknown-file.dat", 8192)
    }
}

/// A catalog of drive C with a root directory and sixteen engineering files
/// (drawings, CAD models, quality records and others), for previewing the
/// dashboard.
pub fn build_demo_catalog() -> (c: Catalog)
    ensures
        c.wf(),
        c@ == demo_upto(16),
{
    let mut cat = Catalog::new('C');
    assert(cat@.rows =~= Seq::empty());
    assert(cat@.pool =~= Seq::empty());
    assert(cat@ == CatalogView { rows: Seq::empty(), pool: Seq::empty(), drive_letter: 'C' });
    cat.upsert_entry(ROOT_RECORD, 1, ROOT_RECORD, 1, "", "\\", 0, FileTimestamps::default(), true, true);
    for idx in 0..16usize
        invariant
            cat.wf(),
            cat@ == demo_upto(idx as int),
            cat@.rows.len() <= idx + 1,
    {
        let (path, name, size) = demo_file(idx);
        let rec = 100 + idx as u64;
        let ts = FileTimestamps { modified: 1_700_000_000 + idx as u64, ..FileTimestamps::default() };
        proof {
            lemma_last_slot(cat@.rows, rec);
        }
        cat.upsert_entry(rec, 1, ROOT_RECORD, 1, name, path, size, ts, true, true);
    }
    cat
}

} // verus!
