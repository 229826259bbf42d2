//! Workbook dispatch: one uniform access surface over two source
//! adapters — a structured workbook of decoded sheets (optionally with
//! named tables, for the one sub-format that carries them) and a text
//! source exposing a single synthetic sheet.

use vstd::prelude::*;

use crate::cell::coerces_to;
use crate::cell::parse_string_to_cellvalue;
use crate::cell::CellValue;
use crate::grid::clone_cells_row;
use crate::grid::clone_string_row;
use crate::grid::formula_at;
use crate::grid::formulas_for_window;
use crate::grid::FormulaRange;
use crate::grid::SheetData;
use crate::grid::ValueRange;
use crate::lazy::LazySheetData;

verus! {

// ===== Errors =====

/// The failures a workbook operation can return: lookups that miss and
/// capabilities a source does not have.  Open failures belong to the I/O
/// layer; field coercion never fails (it degrades to text).
#[derive(Debug, Clone, PartialEq)]
pub enum WorkbookError {
    /// No sheet of the requested name exists on this source.
    SheetNotFound(String),
    /// Named tables are not supported by this source or sub-format.
    TablesUnsupported,
    /// No table of the requested name exists.
    TableNotFound(String),
}

// ===== Helpers =====

/// Character-wise string equality, reflected into the views.
fn str_eq(a: &str, b: &str) -> (r: bool)
    ensures
        r == (a@ == b@),
{
    let n = a.unicode_len();
    if n != b.unicode_len() {
        return false;
    }
    let mut i: usize = 0;
    while i < n
        invariant
            i <= n,
            n == a@.len(),
            n == b@.len(),
            forall|q: int| 0 <= q < i ==> a@[q] == b@[q],
        decreases n - i,
    {
        if a.get_char(i) != b.get_char(i) {
            return false;
        }
        i = i + 1;
    }
    proof {
        assert(a@ =~= b@);
    }
    true
}

/// Index of the first occurrence of `name`, or `-1` when absent.
pub open spec fn first_index(names: Seq<Seq<char>>, name: Seq<char>) -> int
    decreases names.len(),
{
    if names.len() == 0 {
        -1
    } else if names[0] == name {
        0
    } else {
        let r = first_index(names.drop_first(), name);
        if r < 0 {
            -1
        } else {
            r + 1
        }
    }
}

proof fn lemma_first_index(names: Seq<Seq<char>>, name: Seq<char>)
    ensures
        first_index(names, name) == -1 ==> forall|m: int| 0 <= m < names.len() ==> names[m] != name,
        first_index(names, name) >= 0 ==> 0 <= first_index(names, name) < names.len()
            && names[first_index(names, name)] == name && forall|m: int|
            0 <= m < first_index(names, name) ==> names[m] != name,
        (exists|m: int| 0 <= m < names.len() && names[m] == name) ==> first_index(names, name) >= 0,
    decreases names.len(),
{
    if names.len() > 0 && names[0] != name {
        let t = names.drop_first();
        lemma_first_index(t, name);
        assert(forall|m: int| 1 <= m < names.len() ==> names[m] == t[m - 1]);
        if exists|m: int| 0 <= m < names.len() && names[m] == name {
            let w = choose|m: int| 0 <= m < names.len() && names[m] == name;
            assert(t[w - 1] == name);
        }
        if first_index(t, name) >= 0 {
            assert(names[first_index(t, name) + 1] == t[first_index(t, name)]);
        }
    }
}

// ===== The text-source adapter =====

/// A text source: its single synthetic sheet name (the file's base name)
/// and the grid built once from its fields.
#[derive(Debug, Clone, PartialEq)]
pub struct CsvData {
    pub name: String,
    pub data: SheetData,
}

impl CsvData {
    pub open spec fn wf(self) -> bool {
        self.data.wf()
    }

    /// Builds the text-source grid from a decoded header row and its
    /// equal-width records: every field coerces cell-locally (numeric
    /// first, text as the fallback) and no cell carries a formula.
    pub fn from_records(name: String, headers: Vec<String>, records: Vec<Vec<String>>) -> (c:
        CsvData)
        requires
            records@.len() < usize::MAX,
            forall|i: int|
                0 <= i < records@.len() ==> (#[trigger] records@[i])@.len() == headers@.len(),
        ensures
            c.name == name,
            c.wf(),
            c.data.width == headers@.len(),
            c.data.height == records@.len(),
            c.data.headers@ == headers@,
            forall|i: int, j: int|
                0 <= i < records@.len() && 0 <= j < headers@.len() ==> coerces_to(
                    records@[i]@[j]@,
                    #[trigger] c.data.rows@[i]@[j],
                ) && c.data.rows@[i]@[j].wf(),
            forall|i: int, j: int|
                0 <= i < records@.len() && 0 <= j < headers@.len() ==> (
                #[trigger] c.data.formulas@[i]@[j]) is None,
    {
        let width = headers.len();
        let height = records.len();
        let mut rows: Vec<Vec<CellValue>> = Vec::new();
        let mut i: usize = 0;
        while i < height
            invariant
                i <= height,
                height == records@.len(),
                forall|p: int|
                    0 <= p < records@.len() ==> (#[trigger] records@[p])@.len() == width,
                rows@.len() == i,
                forall|p: int| 0 <= p < i ==> (#[trigger] rows@[p])@.len() == width,
                forall|p: int, q: int|
                    0 <= p < i && 0 <= q < width ==> coerces_to(
                        records@[p]@[q]@,
                        #[trigger] rows@[p]@[q],
                    ) && rows@[p]@[q].wf(),
            decreases height - i,
        {
            let record = &records[i];
            let mut row: Vec<CellValue> = Vec::new();
            let mut j: usize = 0;
            while j < width
                invariant
                    j <= width,
                    i < height,
                    height == records@.len(),
                    record == records@[i as int],
                    records@[i as int]@.len() == width,
                    row@.len() == j,
                    forall|q: int|
                        0 <= q < j ==> coerces_to(records@[i as int]@[q]@, #[trigger] row@[q])
                            && row@[q].wf(),
                decreases width - j,
            {
                row.push(parse_string_to_cellvalue(record[j].as_str()));
                j = j + 1;
            }
            rows.push(row);
            i = i + 1;
        }
        let formulas = formulas_for_window(width, 0, height, &None);
        let data = SheetData { headers, rows, formulas, width, height };
        CsvData { name, data }
    }
}

// ===== The structured-source adapter =====

/// The structured sub-formats a workbook file can decode from; only
/// `Xlsx`, the modern XML-based one, carries named-table metadata.
#[derive(Debug, Clone, Copy, PartialEq)]
pub enum ExcelFormat {
    Xlsx,
    Xlsb,
    Xls,
    Ods,
}

/// One decoded sheet of a structured source.
#[derive(Debug, Clone, PartialEq)]
pub struct SheetEntry {
    pub name: String,
    pub range: ValueRange,
    pub formulas: Option<FormulaRange>,
}

/// One named table's decoded metadata: its name, owning sheet, column
/// headers, and data subrange (which excludes the table's header row).
#[derive(Debug, Clone, PartialEq)]
pub struct TableEntry {
    pub name: String,
    pub sheet_name: String,
    pub columns: Vec<String>,
    pub data: ValueRange,
}

/// A decoded structured workbook.
#[derive(Debug, Clone, PartialEq)]
pub struct ExcelData {
    pub format: ExcelFormat,
    pub sheets: Vec<SheetEntry>,
    /// Named-table metadata; meaningful once `load_tables` has run.
    pub tables: Vec<TableEntry>,
    pub tables_loaded: bool,
}

impl ExcelData {
    pub open spec fn wf(self) -> bool {
        forall|i: int|
            0 <= i < self.sheets@.len() ==> (#[trigger] self.sheets@[i]).range.wf()
                && self.sheets@[i].range.total_height() < usize::MAX
    }
}

// ===== The workbook =====

/// The two source adapters behind one dispatching surface.
#[derive(Debug, Clone, PartialEq)]
pub enum DataSource {
    Excel(ExcelData),
    Csv(CsvData),
}

/// A workbook: exclusively owns its decoded source for its lifetime.
#[derive(Debug, Clone, PartialEq)]
pub struct Workbook {
    pub source: DataSource,
}

/// An extracted named table, independent of any grid.
#[derive(Debug, Clone, PartialEq)]
pub struct TableData {
    pub name: String,
    pub sheet_name: String,
    pub headers: Vec<String>,
    pub rows: Vec<Vec<CellValue>>,
}

impl TableData {
    /// Projects decoded table metadata into a standalone table result:
    /// the data subrange's rows become the table's rows unchanged.
    pub fn from_calamine_table(
        name: String,
        sheet_name: String,
        columns: Vec<String>,
        data: &ValueRange,
    ) -> (t: TableData)
        ensures
            t.name == name,
            t.sheet_name == sheet_name,
            t.headers@ == columns@,
            t.rows@.len() == data.cells@.len(),
            forall|i: int|
                0 <= i < data.cells@.len() ==> (#[trigger] t.rows@[i])@ == data.cells@[i]@,
    {
        let mut rows: Vec<Vec<CellValue>> = Vec::new();
        let mut i: usize = 0;
        while i < data.cells.len()
            invariant
                i <= data.cells@.len(),
                rows@.len() == i,
                forall|p: int| 0 <= p < i ==> (#[trigger] rows@[p])@ == data.cells@[p]@,
            decreases data.cells@.len() - i,
        {
            rows.push(clone_cells_row(&data.cells[i]));
            i = i + 1;
        }
        TableData { name, sheet_name, headers: columns, rows }
    }
}

/// The names of the tables whose owning sheet is `sheet`, in order.
pub open spec fn table_names_in(tables: Seq<TableEntry>, sheet: Seq<char>) -> Seq<Seq<char>>
    decreases tables.len(),
{
    if tables.len() == 0 {
        Seq::empty()
    } else {
        let rest = table_names_in(tables.drop_last(), sheet);
        if tables.last().sheet_name@ == sheet {
            rest.push(tables.last().name@)
        } else {
            rest
        }
    }
}

impl Workbook {
    pub open spec fn wf(self) -> bool {
        match self.source {
            DataSource::Excel(e) => e.wf(),
            DataSource::Csv(c) => c.wf(),
        }
    }

    /// The ordered sheet names this workbook exposes: the structured
    /// source's list, or the text source's single synthetic name.
    pub open spec fn sheet_names_model(self) -> Seq<Seq<char>> {
        match self.source {
            DataSource::Excel(e) => Seq::new(e.sheets@.len(), |i: int| e.sheets@[i].name@),
            DataSource::Csv(c) => seq![c.name@],
        }
    }

    pub open spec fn has_sheet(self, name: Seq<char>) -> bool {
        exists|i: int|
            0 <= i < self.sheet_names_model().len() && self.sheet_names_model()[i] == name
    }

    /// The table names available, in order; only an `Xlsx` source has any.
    pub open spec fn table_names_model(self) -> Seq<Seq<char>> {
        match self.source {
            DataSource::Excel(e) => Seq::new(e.tables@.len(), |i: int| e.tables@[i].name@),
            DataSource::Csv(_) => Seq::empty(),
        }
    }

    pub open spec fn has_table(self, name: Seq<char>) -> bool {
        exists|i: int|
            0 <= i < self.table_names_model().len() && self.table_names_model()[i] == name
    }

    /// True when this workbook is a structured source of the sub-format
    /// that supports named tables.
    pub open spec fn supports_tables(self) -> bool {
        self.source matches DataSource::Excel(e) && e.format is Xlsx
    }

    /// Table queries assume the metadata pass has run wherever the
    /// source supports one: querying tables of an `Xlsx` source before
    /// `load_tables` is outside the contract.
    pub open spec fn tables_ready(self) -> bool {
        match self.source {
            DataSource::Excel(e) => e.format is Xlsx ==> e.tables_loaded,
            DataSource::Csv(_) => true,
        }
    }

    /// Loads a sheet eagerly: the whole grid, with its reconciled
    /// formula overlay, is materialized at once.  Fails naming the
    /// request exactly when no sheet of that name exists.
    pub fn load_sheet(&mut self, name: &str) -> (r: Result<SheetData, WorkbookError>)
        requires
            old(self).wf(),
        ensures
            *final(self) == *old(self),
            (r is Ok) == old(self).has_sheet(name@),
            r matches Err(err) ==> err matches WorkbookError::SheetNotFound(n) && n@ == name@,
            r matches Ok(g) ==> g.wf() && ({
                let k = first_index(old(self).sheet_names_model(), name@);
                match old(self).source {
                    DataSource::Excel(e) => g.matches_range(
                        e.sheets@[k].range,
                        e.sheets@[k].formulas,
                    ),
                    DataSource::Csv(c) => {
                        &&& g.width == c.data.width
                        &&& g.height == c.data.height
                        &&& g.headers@ == c.data.headers@
                        &&& forall|i: int|
                            0 <= i < g.height ==> (#[trigger] g.rows@[i])@ == c.data.rows@[i]@
                        &&& forall|i: int|
                            0 <= i < g.height ==> (#[trigger] g.formulas@[i])@
                                == c.data.formulas@[i]@
                    },
                }
            }),
    {
        let ghost names = self.sheet_names_model();
        proof {
            lemma_first_index(names, name@);
        }
        match &self.source {
            DataSource::Excel(e) => {
                let mut i: usize = 0;
                while i < e.sheets.len()
                    invariant
                        i <= e.sheets@.len(),
                        self.source matches DataSource::Excel(e2) && e2 == e,
                        e.wf(),
                        names == self.sheet_names_model(),
                        forall|m: int| 0 <= m < i ==> e.sheets@[m].name@ != name@,
                    decreases e.sheets@.len() - i,
                {
                    if str_eq(e.sheets[i].name.as_str(), name) {
                        proof {
                            assert(names[i as int] == name@);
                            lemma_first_index(names, name@);
                            assert(first_index(names, name@) == i);
                        }
                        let entry = &e.sheets[i];
                        return Ok(SheetData::from_range_with_formulas(&entry.range, &entry.formulas));
                    }
                    i = i + 1;
                }
                proof {
                    assert(forall|m: int|
                        0 <= m < names.len() ==> names[m] == e.sheets@[m].name@);
                }
                Err(WorkbookError::SheetNotFound(name.to_owned()))
            },
            DataSource::Csv(c) => {
                if str_eq(name, c.name.as_str()) {
                    Ok(c.data.duplicate())
                } else {
                    Err(WorkbookError::SheetNotFound(name.to_owned()))
                }
            },
        }
    }

    /// Loads a sheet for windowed access: headers and dimensions are
    /// computed now, rows and formulas on demand.  Fails naming the
    /// request exactly when no sheet of that name exists.
    pub fn load_sheet_lazy(&mut self, name: &str) -> (r: Result<LazySheetData, WorkbookError>)
        requires
            old(self).wf(),
        ensures
            *final(self) == *old(self),
            (r is Ok) == old(self).has_sheet(name@),
            r matches Err(err) ==> err matches WorkbookError::SheetNotFound(n) && n@ == name@,
            r matches Ok(l) ==> l.wf() && ({
                let k = first_index(old(self).sheet_names_model(), name@);
                match old(self).source {
                    DataSource::Excel(e) => {
                        let range = e.sheets@[k].range;
                        &&& l.width == range.width_of()
                        &&& l.height == range.data_height()
                        &&& forall|j: int|
                            0 <= j < l.width && range.total_height() > 0 ==> (
                            #[trigger] l.headers@[j])@ == range.cells@[0]@[j].header_text()
                        &&& forall|i: int|
                            0 <= i < l.height ==> l.row_model(i) == range.cells@[i + 1]@
                        &&& forall|i: int, j: int|
                            0 <= i < l.height && 0 <= j < l.width ==> l.formula_model(i, j)
                                == formula_at(e.sheets@[k].formulas, i, j)
                    },
                    DataSource::Csv(c) => {
                        &&& l.width == c.data.width
                        &&& l.height == c.data.height
                        &&& forall|j: int|
                            0 <= j < l.width ==> (#[trigger] l.headers@[j])@ == c.data.headers@[j]@
                        &&& forall|i: int|
                            0 <= i < l.height ==> l.row_model(i) == c.data.rows@[i]@
                        &&& forall|i: int, j: int|
                            0 <= i < l.height && 0 <= j < l.width ==> l.formula_model(i, j)
                                == c.data.formulas@[i]@[j]
                    },
                }
            }),
    {
        let ghost names = self.sheet_names_model();
        proof {
            lemma_first_index(names, name@);
        }
        match &self.source {
            DataSource::Excel(e) => {
                let mut i: usize = 0;
                while i < e.sheets.len()
                    invariant
                        i <= e.sheets@.len(),
                        self.source matches DataSource::Excel(e2) && e2 == e,
                        e.wf(),
                        names == self.sheet_names_model(),
                        forall|m: int| 0 <= m < i ==> e.sheets@[m].name@ != name@,
                    decreases e.sheets@.len() - i,
                {
                    if str_eq(e.sheets[i].name.as_str(), name) {
                        proof {
                            assert(names[i as int] == name@);
                            lemma_first_index(names, name@);
                            assert(first_index(names, name@) == i);
                        }
                        let entry = &e.sheets[i];
                        let range2 = entry.range.duplicate();
                        let fr2: Option<FormulaRange> = match &entry.formulas {
                            Some(f) => Some(f.duplicate()),
                            None => None,
                        };
                        let l = LazySheetData::from_excel(range2, fr2);
                        proof {
                            assert(forall|p: int, q: int|
                                0 <= p < l.height && 0 <= q < l.width ==> l.formula_model(p, q)
                                    == formula_at(entry.formulas, p, q)) by {
                                assert forall|p: int, q: int|
                                    0 <= p < l.height && 0 <= q < l.width implies l.formula_model(
                                    p,
                                    q,
                                ) == formula_at(entry.formulas, p, q) by {
                                    match (fr2, entry.formulas) {
                                        (Option::Some(f2), Option::Some(f1)) => {
                                            crate::grid::lemma_formula_at_equal(f2, f1, p, q);
                                        },
                                        _ => {},
                                    }
                                }
                            }
                        }
                        return Ok(l);
                    }
                    i = i + 1;
                }
                proof {
                    assert(forall|m: int|
                        0 <= m < names.len() ==> names[m] == e.sheets@[m].name@);
                }
                Err(WorkbookError::SheetNotFound(name.to_owned()))
            },
            DataSource::Csv(c) => {
                if str_eq(name, c.name.as_str()) {
                    Ok(LazySheetData::from_csv(c.data.duplicate()))
                } else {
                    Err(WorkbookError::SheetNotFound(name.to_owned()))
                }
            },
        }
    }

    /// Runs the named-table metadata pass.  Succeeds exactly on the
    /// structured sub-format that supports tables; every other source
    /// fails with the capability error, unchanged.
    pub fn load_tables(&mut self) -> (r: Result<(), WorkbookError>)
        ensures
            (r is Ok) == old(self).supports_tables(),
            final(self).tables_ready(),
            old(self).wf() ==> final(self).wf(),
            r matches Err(err) ==> err is TablesUnsupported && *final(self) == *old(self),
            r is Ok ==> (final(self).source matches DataSource::Excel(e2) && old(
                self,
            ).source matches DataSource::Excel(e1) && e2.format == e1.format && e2.sheets
                == e1.sheets && e2.tables == e1.tables && e2.tables_loaded),
    {
        match &mut self.source {
            DataSource::Excel(e) => {
                match e.format {
                    ExcelFormat::Xlsx => {
                        e.tables_loaded = true;
                        Ok(())
                    },
                    _ => Err(WorkbookError::TablesUnsupported),
                }
            },
            DataSource::Csv(_) => Err(WorkbookError::TablesUnsupported),
        }
    }

    /// The names of all tables in the workbook, in order.  Defined only
    /// for the table-carrying sub-format; every other source fails with
    /// the capability error.
    pub fn table_names(&self) -> (r: Result<Vec<String>, WorkbookError>)
        requires
            self.tables_ready(),
        ensures
            (r is Ok) == self.supports_tables(),
            r matches Err(err) ==> err is TablesUnsupported,
            r matches Ok(v) ==> v@.len() == self.table_names_model().len() && forall|i: int|
                0 <= i < v@.len() ==> (#[trigger] v@[i])@ == self.table_names_model()[i],
    {
        match &self.source {
            DataSource::Excel(e) => {
                match e.format {
                    ExcelFormat::Xlsx => {
                        let mut v: Vec<String> = Vec::new();
                        let mut i: usize = 0;
                        while i < e.tables.len()
                            invariant
                                i <= e.tables@.len(),
                                self.source matches DataSource::Excel(e2) && e2 == e,
                                v@.len() == i,
                                forall|p: int|
                                    0 <= p < i ==> (#[trigger] v@[p])@ == e.tables@[p].name@,
                            decreases e.tables@.len() - i,
                        {
                            v.push(e.tables[i].name.clone());
                            i = i + 1;
                        }
                        Ok(v)
                    },
                    _ => Err(WorkbookError::TablesUnsupported),
                }
            },
            DataSource::Csv(_) => Err(WorkbookError::TablesUnsupported),
        }
    }

    /// The names of the tables owned by one sheet, in order.
    pub fn table_names_in_sheet(&self, sheet_name: &str) -> (r: Result<Vec<String>, WorkbookError>)
        requires
            self.tables_ready(),
        ensures
            (r is Ok) == self.supports_tables(),
            r matches Err(err) ==> err is TablesUnsupported,
            r matches Ok(v) ==> (self.source matches DataSource::Excel(e) && {
                let filtered = table_names_in(e.tables@, sheet_name@);
                v@.len() == filtered.len() && forall|i: int|
                    0 <= i < v@.len() ==> (#[trigger] v@[i])@ == filtered[i]
            }),
    {
        match &self.source {
            DataSource::Excel(e) => {
                match e.format {
                    ExcelFormat::Xlsx => {
                        let mut v: Vec<String> = Vec::new();
                        let mut i: usize = 0;
                        while i < e.tables.len()
                            invariant
                                i <= e.tables@.len(),
                                self.source matches DataSource::Excel(e2) && e2 == e,
                                ({
                                    let filtered = table_names_in(
                                        e.tables@.subrange(0, i as int),
                                        sheet_name@,
                                    );
                                    v@.len() == filtered.len() && forall|p: int|
                                        0 <= p < v@.len() ==> (#[trigger] v@[p])@ == filtered[p]
                                }),
                            decreases e.tables@.len() - i,
                        {
                            proof {
                                assert(e.tables@.subrange(0, i + 1).drop_last() =~= e.tables@
                                    .subrange(0, i as int));
                            }
                            if str_eq(e.tables[i].sheet_name.as_str(), sheet_name) {
                                v.push(e.tables[i].name.clone());
                            }
                            i = i + 1;
                        }
                        proof {
                            assert(e.tables@.subrange(0, e.tables@.len() as int) =~= e.tables@);
                        }
                        Ok(v)
                    },
                    _ => Err(WorkbookError::TablesUnsupported),
                }
            },
            DataSource::Csv(_) => Err(WorkbookError::TablesUnsupported),
        }
    }

    /// Extracts a named table.  On the table-carrying sub-format this
    /// succeeds exactly when the name exists, and fails naming the
    /// request otherwise; every other source fails with the capability
    /// error.
    pub fn table_by_name(&mut self, table_name: &str) -> (r: Result<TableData, WorkbookError>)
        requires
            old(self).tables_ready(),
        ensures
            *final(self) == *old(self),
            !old(self).supports_tables() ==> (r matches Err(err) && err is TablesUnsupported),
            old(self).supports_tables() ==> ((r is Ok) == old(self).has_table(table_name@)),
            old(self).supports_tables() && (r is Err) ==> (r matches Err(err) && err matches
                WorkbookError::TableNotFound(n) && n@ == table_name@),
            r matches Ok(t) ==> (old(self).source matches DataSource::Excel(e) && {
                let k = first_index(old(self).table_names_model(), table_name@);
                let entry = e.tables@[k];
                &&& t.name@ == entry.name@
                &&& t.sheet_name@ == entry.sheet_name@
                &&& t.headers@ == entry.columns@
                &&& t.rows@.len() == entry.data.cells@.len()
                &&& forall|i: int|
                    0 <= i < t.rows@.len() ==> (#[trigger] t.rows@[i])@ == entry.data.cells@[i]@
            }),
    {
        let ghost names = self.table_names_model();
        proof {
            lemma_first_index(names, table_name@);
        }
        match &self.source {
            DataSource::Excel(e) => {
                match e.format {
                    ExcelFormat::Xlsx => {
                        proof {
                            assert(self.supports_tables());
                        }
                        let mut i: usize = 0;
                        while i < e.tables.len()
                            invariant
                                i <= e.tables@.len(),
                                self.source matches DataSource::Excel(e2) && e2 == e,
                                e.format is Xlsx,
                                names == self.table_names_model(),
                                forall|m: int| 0 <= m < i ==> e.tables@[m].name@ != table_name@,
                            decreases e.tables@.len() - i,
                        {
                            if str_eq(e.tables[i].name.as_str(), table_name) {
                                proof {
                                    assert(names[i as int] == table_name@);
                                    lemma_first_index(names, table_name@);
                                    assert(first_index(names, table_name@) == i);
                                }
                                let entry = &e.tables[i];
                                return Ok(
                                    TableData::from_calamine_table(
                                        entry.name.clone(),
                                        entry.sheet_name.clone(),
                                        clone_string_row(&entry.columns),
                                        &entry.data,
                                    ),
                                );
                            }
                            i = i + 1;
                        }
                        proof {
                            assert(forall|m: int|
                                0 <= m < names.len() ==> names[m] == e.tables@[m].name@);
                        }
                        Err(WorkbookError::TableNotFound(table_name.to_owned()))
                    },
                    _ => Err(WorkbookError::TablesUnsupported),
                }
            },
            DataSource::Csv(_) => Err(WorkbookError::TablesUnsupported),
        }
    }

    /// The ordered sheet names.
    pub fn sheet_names(&self) -> (r: Vec<String>)
        ensures
            r@.len() == self.sheet_names_model().len(),
            forall|i: int|
                0 <= i < r@.len() ==> (#[trigger] r@[i])@ == self.sheet_names_model()[i],
    {
        match &self.source {
            DataSource::Excel(e) => {
                let mut v: Vec<String> = Vec::new();
                let mut i: usize = 0;
                while i < e.sheets.len()
                    invariant
                        i <= e.sheets@.len(),
                        self.source matches DataSource::Excel(e2) && e2 == e,
                        v@.len() == i,
                        forall|p: int|
                            0 <= p < i ==> (#[trigger] v@[p])@ == e.sheets@[p].name@,
                    decreases e.sheets@.len() - i,
                {
                    v.push(e.sheets[i].name.clone());
                    i = i + 1;
                }
                v
            },
            DataSource::Csv(c) => {
                let mut v: Vec<String> = Vec::new();
                v.push(c.name.clone());
                v
            },
        }
    }
}

} // verus!
