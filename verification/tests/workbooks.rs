use xleak::cell::CellValue;
use xleak::grid::ValueRange;
use xleak::workbook::CsvData;
use xleak::workbook::DataSource;
use xleak::workbook::ExcelData;
use xleak::workbook::ExcelFormat;
use xleak::workbook::SheetEntry;
use xleak::workbook::TableEntry;
use xleak::workbook::Workbook;
use xleak::workbook::WorkbookError;

fn t(s: &str) -> CellValue {
    CellValue::Text(s.to_string())
}

fn n(i: i64) -> CellValue {
    CellValue::Int(i)
}

fn sheet(name: &str) -> SheetEntry {
    SheetEntry {
        name: name.to_string(),
        range: ValueRange {
            cells: vec![
                vec![t("Name"), t("Age")],
                vec![t("Alice"), n(30)],
                vec![t("Bob"), n(25)],
            ],
        },
        formulas: None,
    }
}

fn structured(format: ExcelFormat) -> Workbook {
    Workbook {
        source: DataSource::Excel(ExcelData {
            format,
            sheets: vec![sheet("Sheet1"), sheet("Sheet2")],
            tables: vec![TableEntry {
                name: "Inventory".to_string(),
                sheet_name: "Sheet1".to_string(),
                columns: vec!["Item".to_string(), "Count".to_string()],
                data: ValueRange {
                    cells: vec![
                        vec![t("Apple"), n(12)],
                        vec![t("Pear"), n(7)],
                    ],
                },
            }],
            tables_loaded: false,
        }),
    }
}

fn text_source() -> Workbook {
    Workbook {
        source: DataSource::Csv(CsvData::from_records(
            "data".to_string(),
            vec!["a".to_string(), "b".to_string()],
            vec![vec!["1".to_string(), "2".to_string()]],
        )),
    }
}

#[test]
fn sheet_names_ordered() {
    let wb = structured(ExcelFormat::Xlsx);
    assert_eq!(wb.sheet_names(), vec!["Sheet1", "Sheet2"]);
    assert_eq!(text_source().sheet_names(), vec!["data"]);
}

#[test]
fn load_sheet_returns_the_grid() {
    let mut wb = structured(ExcelFormat::Xlsx);
    let g = wb.load_sheet("Sheet2").unwrap();
    assert_eq!(g.headers, vec!["Name", "Age"]);
    assert_eq!(g.height, 2);
    assert_eq!(g.rows[1], vec![t("Bob"), n(25)]);
}

#[test]
fn load_sheet_missing_names_the_request() {
    let mut wb = structured(ExcelFormat::Xlsx);
    match wb.load_sheet("Missing") {
        Err(WorkbookError::SheetNotFound(name)) => assert_eq!(name, "Missing"),
        other => panic!("expected SheetNotFound, got {other:?}"),
    }
}

#[test]
fn text_source_has_one_synthetic_sheet() {
    let mut wb = text_source();
    assert!(wb.load_sheet("data").is_ok());
    match wb.load_sheet("other") {
        Err(WorkbookError::SheetNotFound(name)) => assert_eq!(name, "other"),
        other => panic!("expected SheetNotFound, got {other:?}"),
    }
}

#[test]
fn lazy_and_eager_loads_agree() {
    let mut wb = structured(ExcelFormat::Xlsx);
    let eager = wb.load_sheet("Sheet1").unwrap();
    let lazy = wb.load_sheet_lazy("Sheet1").unwrap();
    assert_eq!(lazy.headers, eager.headers);
    assert_eq!(lazy.width, eager.width);
    assert_eq!(lazy.height, eager.height);
    assert_eq!(lazy.to_sheet_data(), eager);
}

#[test]
fn lazy_load_missing_names_the_request() {
    let mut wb = structured(ExcelFormat::Xlsx);
    match wb.load_sheet_lazy("Nope") {
        Err(WorkbookError::SheetNotFound(name)) => assert_eq!(name, "Nope"),
        other => panic!("expected SheetNotFound, got {other:?}"),
    }
}

#[test]
fn tables_unsupported_on_text_source() {
    let mut wb = text_source();
    assert_eq!(wb.load_tables(), Err(WorkbookError::TablesUnsupported));
    assert_eq!(wb.table_names().unwrap_err(), WorkbookError::TablesUnsupported);
    assert_eq!(
        wb.table_names_in_sheet("data").unwrap_err(),
        WorkbookError::TablesUnsupported
    );
    assert_eq!(
        wb.table_by_name("Inventory").unwrap_err(),
        WorkbookError::TablesUnsupported
    );
}

#[test]
fn tables_unsupported_on_other_structured_formats() {
    let mut wb = structured(ExcelFormat::Xls);
    assert_eq!(wb.load_tables(), Err(WorkbookError::TablesUnsupported));
    let mut wb = structured(ExcelFormat::Ods);
    assert_eq!(wb.load_tables(), Err(WorkbookError::TablesUnsupported));
}

#[test]
fn table_api_on_xlsx() {
    let mut wb = structured(ExcelFormat::Xlsx);
    wb.load_tables().unwrap();
    assert_eq!(wb.table_names().unwrap(), vec!["Inventory"]);
    assert_eq!(wb.table_names_in_sheet("Sheet1").unwrap(), vec!["Inventory"]);
    assert!(wb.table_names_in_sheet("Sheet2").unwrap().is_empty());

    let table = wb.table_by_name("Inventory").unwrap();
    assert_eq!(table.name, "Inventory");
    assert_eq!(table.sheet_name, "Sheet1");
    assert_eq!(table.headers, vec!["Item", "Count"]);
    assert_eq!(table.rows.len(), 2);
    assert_eq!(table.rows[0], vec![t("Apple"), n(12)]);
}

#[test]
fn table_by_name_missing_names_the_request() {
    let mut wb = structured(ExcelFormat::Xlsx);
    wb.load_tables().unwrap();
    match wb.table_by_name("Nope") {
        Err(WorkbookError::TableNotFound(name)) => assert_eq!(name, "Nope"),
        other => panic!("expected TableNotFound, got {other:?}"),
    }
}

#[test]
fn duplicate_sheet_names_resolve_to_the_first() {
    let mut first = sheet("Twin");
    first.range.cells[1][0] = t("FromFirst");
    let mut wb = Workbook {
        source: DataSource::Excel(ExcelData {
            format: ExcelFormat::Xlsx,
            sheets: vec![first, sheet("Twin")],
            tables: vec![],
            tables_loaded: false,
        }),
    };
    let g = wb.load_sheet("Twin").unwrap();
    assert_eq!(g.rows[0][0], t("FromFirst"));
}
