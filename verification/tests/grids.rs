use xleak::cell::CellValue;
use xleak::grid::FormulaRange;
use xleak::grid::SheetData;
use xleak::grid::ValueRange;
use xleak::lazy::LazySheetData;
use xleak::workbook::CsvData;

fn t(s: &str) -> CellValue {
    CellValue::Text(s.to_string())
}

fn n(i: i64) -> CellValue {
    CellValue::Int(i)
}

fn sample_range() -> ValueRange {
    ValueRange {
        cells: vec![
            vec![t("Name"), t("Age"), t("Score")],
            vec![t("Alice"), n(30), n(10)],
            vec![t("Bob"), n(25), n(20)],
            vec![t("Cara"), n(41), n(30)],
            vec![t("Dan"), n(19), n(40)],
        ],
    }
}

fn sample_formulas() -> Option<FormulaRange> {
    // Origin (2, 1) in header-inclusive coordinates: the block's first
    // row serves grid-local data row 1, its first column serves column 1.
    Some(FormulaRange {
        start: Some((2, 1)),
        cells: vec![
            vec!["=A2*2".to_string(), "".to_string()],
            vec!["".to_string(), "=B3+1".to_string()],
        ],
    })
}

#[test]
fn test_sheet_data_structure() {
    let sheet = SheetData {
        headers: vec!["Name".to_string(), "Age".to_string()],
        rows: vec![
            vec![CellValue::Text("Alice".to_string()), CellValue::Int(30)],
            vec![CellValue::Text("Bob".to_string()), CellValue::Int(25)],
        ],
        formulas: vec![vec![None, None], vec![None, None]],
        width: 2,
        height: 2,
    };

    assert_eq!(sheet.width, 2);
    assert_eq!(sheet.height, 2);
    assert_eq!(sheet.headers.len(), 2);
    assert_eq!(sheet.rows.len(), 2);
}

#[test]
fn eager_grid_shape_and_contents() {
    let g = SheetData::from_range_with_formulas(&sample_range(), &None);
    assert_eq!(g.width, 3);
    assert_eq!(g.height, 4);
    assert_eq!(g.headers, vec!["Name", "Age", "Score"]);
    assert_eq!(g.rows[0], vec![t("Alice"), n(30), n(10)]);
    assert_eq!(g.rows[3], vec![t("Dan"), n(19), n(40)]);
}

#[test]
fn formula_overlay_translated_by_origin() {
    let g = SheetData::from_range_with_formulas(&sample_range(), &sample_formulas());
    for i in 0..g.height {
        for j in 0..g.width {
            let expect = if (i, j) == (1, 1) {
                Some("=A2*2".to_string())
            } else if (i, j) == (2, 2) {
                Some("=B3+1".to_string())
            } else {
                None
            };
            assert_eq!(g.formulas[i][j], expect, "cell ({i}, {j})");
        }
    }
}

#[test]
fn formula_overlay_absent_without_range() {
    let g = SheetData::from_range_with_formulas(&sample_range(), &None);
    for row in &g.formulas {
        assert!(row.iter().all(|f| f.is_none()));
    }
}

#[test]
fn formula_on_header_row_or_outside_grid_is_dropped() {
    // Origin (0, 0): the block's first row sits on the header row and is
    // skipped; a column beyond the width is skipped too.
    let fr = Some(FormulaRange {
        start: Some((0, 0)),
        cells: vec![
            vec!["=HDR".to_string(), "".to_string(), "".to_string(), "=WIDE".to_string()],
            vec!["=A2".to_string(), "".to_string(), "".to_string(), "=WIDE".to_string()],
        ],
    });
    let g = SheetData::from_range_with_formulas(&sample_range(), &fr);
    assert_eq!(g.formulas[0][0], Some("=A2".to_string()));
    for i in 0..g.height {
        for j in 0..g.width {
            if (i, j) != (0, 0) {
                assert_eq!(g.formulas[i][j], None, "cell ({i}, {j})");
            }
        }
    }
}

#[test]
fn unknown_formula_origin_defaults_to_zero() {
    let fr = Some(FormulaRange {
        start: None,
        cells: vec![
            vec!["=HDR".to_string()],
            vec!["=A2".to_string()],
        ],
    });
    let g = SheetData::from_range_with_formulas(&sample_range(), &fr);
    assert_eq!(g.formulas[0][0], Some("=A2".to_string()));
    assert_eq!(g.formulas[1][0], None);
}

#[test]
fn empty_range_gives_empty_grid() {
    let g = SheetData::from_range_with_formulas(&ValueRange { cells: vec![] }, &None);
    assert_eq!(g.width, 0);
    assert_eq!(g.height, 0);
    assert!(g.headers.is_empty());
    assert!(g.rows.is_empty());
}

#[test]
fn windowed_rows_match_full_grid() {
    let lazy = LazySheetData::from_excel(sample_range(), sample_formulas());
    let full = SheetData::from_range_with_formulas(&sample_range(), &sample_formulas());
    let (vals, fols) = lazy.get_rows(1, 2);
    assert_eq!(vals, full.rows[1..3].to_vec());
    assert_eq!(fols, full.formulas[1..3].to_vec());
}

#[test]
fn window_truncates_at_height() {
    let lazy = LazySheetData::from_excel(sample_range(), None);
    let (vals, fols) = lazy.get_rows(3, 100);
    assert_eq!(vals.len(), 1);
    assert_eq!(fols.len(), 1);
    assert_eq!(vals[0], vec![t("Dan"), n(19), n(40)]);
    let (empty_vals, empty_fols) = lazy.get_rows(4, 5);
    assert!(empty_vals.is_empty());
    assert!(empty_fols.is_empty());
}

#[test]
fn round_trip_direct_vs_windowed() {
    let direct = SheetData::from_range_with_formulas(&sample_range(), &sample_formulas());
    let converted = LazySheetData::from_excel(sample_range(), sample_formulas()).to_sheet_data();
    assert_eq!(direct, converted);
}

#[test]
fn lazy_header_metadata_matches_grid() {
    let lazy = LazySheetData::from_excel(sample_range(), None);
    assert_eq!(lazy.width, 3);
    assert_eq!(lazy.height, 4);
    assert_eq!(lazy.headers, vec!["Name", "Age", "Score"]);
}

#[test]
fn csv_lazy_round_trip() {
    let csv = CsvData::from_records(
        "data".to_string(),
        vec!["a".to_string(), "b".to_string()],
        vec![
            vec!["1".to_string(), "x".to_string()],
            vec!["2.5".to_string(), "".to_string()],
        ],
    );
    let direct = csv.data.clone();
    let windowed = LazySheetData::from_csv(csv.data);
    let (vals, fols) = windowed.get_rows(0, 2);
    assert_eq!(vals, direct.rows);
    assert_eq!(fols, direct.formulas);
    assert_eq!(windowed.to_sheet_data(), direct);
}

#[test]
fn csv_fields_coerce_cell_locally() {
    let csv = CsvData::from_records(
        "data".to_string(),
        vec!["a".to_string(), "b".to_string()],
        vec![
            vec!["42".to_string(), "3.14".to_string()],
            vec!["".to_string(), "abc".to_string()],
        ],
    );
    assert_eq!(csv.data.rows[0][0], CellValue::Int(42));
    assert!(csv.data.rows[0][1].is_numeric());
    assert_eq!(csv.data.rows[1][0], CellValue::Empty);
    assert_eq!(csv.data.rows[1][1], t("abc"));
    assert!(csv.data.formulas.iter().all(|r| r.iter().all(|f| f.is_none())));
}

#[test]
fn every_window_matches_full_grid() {
    let lazy = LazySheetData::from_excel(sample_range(), sample_formulas());
    let full = SheetData::from_range_with_formulas(&sample_range(), &sample_formulas());
    for start in 0..=4usize {
        for count in 0..=5usize {
            let (vals, fols) = lazy.get_rows(start, count);
            let end = (start + count).min(4);
            assert_eq!(vals, full.rows[start..end].to_vec(), "window ({start}, {count})");
            assert_eq!(fols, full.formulas[start..end].to_vec(), "window ({start}, {count})");
        }
    }
}
