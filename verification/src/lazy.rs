//! Windowed retrieval: serving arbitrary `[start, start + count)` row
//! windows of a sheet without materializing the whole grid, over either a
//! buffered range pair (structured sources) or an already-built grid
//! (text sources).

use vstd::prelude::*;

use crate::cell::CellValue;
use crate::grid::clone_cells_row;
use crate::grid::clone_formula_row;
use crate::grid::clone_string_row;
use crate::grid::formula_at;
use crate::grid::formulas_for_window;
use crate::grid::headers_of_range;
use crate::grid::FormulaRange;
use crate::grid::SheetData;
use crate::grid::ValueRange;

verus! {

/// What a windowed grid serves from: a buffered value range with its
/// optional formula range, or an eager grid built once from text fields.
#[derive(Debug, Clone, PartialEq)]
pub enum LazyDataSource {
    Excel { range: ValueRange, formula_range: Option<FormulaRange> },
    Csv { data: SheetData },
}

/// A sheet served window by window: headers, width and height are
/// precomputed once; rows and the formula overlay are derived only for
/// the requested window.
#[derive(Debug, Clone, PartialEq)]
pub struct LazySheetData {
    /// The buffered source the windows are derived from.
    pub source: LazyDataSource,
    pub headers: Vec<String>,
    pub width: usize,
    pub height: usize,
}

impl LazySheetData {
    /// The data row `i` (zero-based, header excluded) that every window
    /// and the full grid agree on.
    pub open spec fn row_model(self, i: int) -> Seq<CellValue> {
        match self.source {
            LazyDataSource::Excel { range, .. } => range.cells@[i + 1]@,
            LazyDataSource::Csv { data } => data.rows@[i]@,
        }
    }

    /// The formula serving the data cell `(i, j)`.
    pub open spec fn formula_model(self, i: int, j: int) -> Option<String> {
        match self.source {
            LazyDataSource::Excel { formula_range, .. } => formula_at(formula_range, i, j),
            LazyDataSource::Csv { data } => data.formulas@[i]@[j],
        }
    }

    /// Validity: the precomputed headers, width and height describe the
    /// underlying source.
    pub open spec fn wf(self) -> bool {
        &&& self.headers@.len() == self.width
        &&& match self.source {
            LazyDataSource::Excel { range, formula_range } => {
                &&& range.wf()
                &&& range.total_height() < usize::MAX
                &&& self.width == range.width_of()
                &&& self.height == range.data_height()
                &&& forall|j: int|
                    0 <= j < self.width && range.total_height() > 0 ==> (
                    #[trigger] self.headers@[j])@ == range.cells@[0]@[j].header_text()
            },
            LazyDataSource::Csv { data } => {
                &&& data.wf()
                &&& self.width == data.width
                &&& self.height == data.height
                &&& forall|j: int|
                    0 <= j < self.width ==> (#[trigger] self.headers@[j])@ == data.headers@[j]@
            },
        }
    }

    /// Creates a windowed grid over a buffered value range and optional
    /// formula range, precomputing headers and dimensions.
    pub fn from_excel(range: ValueRange, formula_range: Option<FormulaRange>) -> (l: LazySheetData)
        requires
            range.wf(),
            range.total_height() < usize::MAX,
        ensures
            l.wf(),
            l.width == range.width_of(),
            l.height == range.data_height(),
            forall|j: int|
                0 <= j < l.width && range.total_height() > 0 ==> (#[trigger] l.headers@[j])@
                    == range.cells@[0]@[j].header_text(),
            forall|i: int| 0 <= i < l.height ==> l.row_model(i) == range.cells@[i + 1]@,
            forall|i: int, j: int|
                0 <= i < l.height && 0 <= j < l.width ==> l.formula_model(i, j) == formula_at(
                    formula_range,
                    i,
                    j,
                ),
    {
        let headers = headers_of_range(&range);
        let total = range.cells.len();
        let width = range.width();
        let height = if total > 0 {
            total - 1
        } else {
            0
        };
        LazySheetData { source: LazyDataSource::Excel { range, formula_range }, headers, width, height }
    }

    /// Wraps an already-built grid (a text source) for windowed access.
    pub fn from_csv(data: SheetData) -> (l: LazySheetData)
        requires
            data.wf(),
        ensures
            l.wf(),
            l.width == data.width,
            l.height == data.height,
            forall|j: int| 0 <= j < l.width ==> (#[trigger] l.headers@[j])@ == data.headers@[j]@,
            forall|i: int| 0 <= i < l.height ==> l.row_model(i) == data.rows@[i]@,
            forall|i: int, j: int|
                0 <= i < l.height && 0 <= j < l.width ==> l.formula_model(i, j)
                    == data.formulas@[i]@[j],
    {
        let headers = clone_string_row(&data.headers);
        let width = data.width;
        let height = data.height;
        LazySheetData { source: LazyDataSource::Csv { data }, headers, width, height }
    }

    /// Serves the row window `[start, min(start + count, height))`:
    /// the rows and the formula overlay restricted to that window,
    /// derived by the same rules as the full grid.
    pub fn get_rows(&self, start: usize, count: usize) -> (r: (
        Vec<Vec<CellValue>>,
        Vec<Vec<Option<String>>>,
    ))
        requires
            self.wf(),
            start <= self.height,
        ensures
            ({
                let end = if start + count > self.height {
                    self.height as int
                } else {
                    start + count
                };
                &&& r.0@.len() == end - start
                &&& r.1@.len() == end - start
                &&& forall|i: int|
                    0 <= i < end - start ==> (#[trigger] r.0@[i])@ == self.row_model(start + i)
                &&& forall|i: int| 0 <= i < end - start ==> (#[trigger] r.1@[i])@.len() == self.width
                &&& forall|i: int, j: int|
                    0 <= i < end - start && 0 <= j < self.width ==> (#[trigger] r.1@[i]@[j])
                        == self.formula_model(start + i, j)
            }),
    {
        let end = if count > self.height - start {
            self.height
        } else {
            start + count
        };
        match &self.source {
            LazyDataSource::Excel { range, formula_range } => {
                let mut rows: Vec<Vec<CellValue>> = Vec::new();
                let mut i: usize = 0;
                while i < end - start
                    invariant
                        start + i <= end <= range.data_height(),
                        range.wf(),
                        self.source matches LazyDataSource::Excel {
                            range: r2,
                            formula_range: f2,
                        } && r2 == range && f2 == formula_range,
                        rows@.len() == i,
                        forall|p: int|
                            0 <= p < rows@.len() ==> (#[trigger] rows@[p])@ == range.cells@[start + p
                                + 1]@,
                    decreases end - start - i,
                {
                    rows.push(clone_cells_row(&range.cells[1 + start + i]));
                    i = i + 1;
                }
                let formulas = formulas_for_window(self.width, start, end, formula_range);
                (rows, formulas)
            },
            LazyDataSource::Csv { data } => {
                let mut rows: Vec<Vec<CellValue>> = Vec::new();
                let mut formulas: Vec<Vec<Option<String>>> = Vec::new();
                let mut i: usize = 0;
                while i < end - start
                    invariant
                        start + i <= end <= data.height,
                        data.wf(),
                        self.source matches LazyDataSource::Csv { data: d2 } && d2 == data,
                        rows@.len() == i,
                        formulas@.len() == i,
                        forall|p: int|
                            0 <= p < rows@.len() ==> (#[trigger] rows@[p])@ == data.rows@[start
                                + p]@,
                        forall|p: int|
                            0 <= p < formulas@.len() ==> (#[trigger] formulas@[p])@
                                == data.formulas@[start + p]@,
                    decreases end - start - i,
                {
                    rows.push(clone_cells_row(&data.rows[start + i]));
                    formulas.push(clone_formula_row(&data.formulas[start + i]));
                    i = i + 1;
                }
                (rows, formulas)
            },
        }
    }

    /// Consumes the windowed grid and materializes the equivalent eager
    /// grid: the same headers, rows and formula overlay.
    pub fn to_sheet_data(self) -> (g: SheetData)
        requires
            self.wf(),
        ensures
            g.wf(),
            g.width == self.width,
            g.height == self.height,
            forall|j: int| 0 <= j < g.width ==> (#[trigger] g.headers@[j])@ == self.headers@[j]@,
            forall|i: int| 0 <= i < g.height ==> (#[trigger] g.rows@[i])@ == self.row_model(i),
            forall|i: int, j: int|
                0 <= i < g.height && 0 <= j < g.width ==> (#[trigger] g.formulas@[i]@[j])
                    == self.formula_model(i, j),
    {
        match self.source {
            LazyDataSource::Excel { range, formula_range } => {
                SheetData::from_range_with_formulas(&range, &formula_range)
            },
            LazyDataSource::Csv { data } => data,
        }
    }
}

/// Windowing law: for any valid window, the rows and formulas that
/// `get_rows(start, count)` serves (second group of premises) are exactly
/// the slice `[start, start + count)` of the grid that `to_sheet_data`
/// materializes (third group) — windowing changes which rows are
/// computed, never their contents.
pub proof fn lemma_window_matches_full(
    l: LazySheetData,
    start: usize,
    count: usize,
    window_rows: Seq<Vec<CellValue>>,
    window_formulas: Seq<Vec<Option<String>>>,
    full: SheetData,
)
    requires
        l.wf(),
        start + count <= l.height,
        window_rows.len() == count,
        forall|i: int| 0 <= i < count ==> (#[trigger] window_rows[i])@ == l.row_model(start + i),
        window_formulas.len() == count,
        forall|i: int, j: int|
            0 <= i < count && 0 <= j < l.width ==> (#[trigger] window_formulas[i]@[j])
                == l.formula_model(start + i, j),
        full.width == l.width,
        full.height == l.height,
        forall|i: int| 0 <= i < full.height ==> (#[trigger] full.rows@[i])@ == l.row_model(i),
        forall|i: int, j: int|
            0 <= i < full.height && 0 <= j < full.width ==> (#[trigger] full.formulas@[i]@[j])
                == l.formula_model(i, j),
    ensures
        forall|i: int|
            0 <= i < count ==> (#[trigger] window_rows[i])@ == full.rows@[start + i]@,
        forall|i: int, j: int|
            0 <= i < count && 0 <= j < l.width ==> (#[trigger] window_formulas[i]@[j])
                == full.formulas@[start + i]@[j],
{
}

/// Round-trip law: a grid built directly over a source (second premise)
/// and the grid a windowed view of the same source materializes (later
/// premises) have identical headers, rows, formula overlays and declared
/// dimensions — eager and windowed access are two views of one
/// computation.
pub proof fn lemma_round_trip(
    range: ValueRange,
    fr: Option<FormulaRange>,
    direct: SheetData,
    l: LazySheetData,
    converted: SheetData,
)
    requires
        range.wf(),
        direct.matches_range(range, fr),
        l.wf(),
        l.width == range.width_of(),
        l.height == range.data_height(),
        forall|j: int|
            0 <= j < l.width && range.total_height() > 0 ==> (#[trigger] l.headers@[j])@
                == range.cells@[0]@[j].header_text(),
        forall|i: int| 0 <= i < l.height ==> l.row_model(i) == range.cells@[i + 1]@,
        forall|i: int, j: int|
            0 <= i < l.height && 0 <= j < l.width ==> l.formula_model(i, j) == formula_at(fr, i, j),
        converted.wf(),
        converted.width == l.width,
        converted.height == l.height,
        forall|j: int|
            0 <= j < converted.width ==> (#[trigger] converted.headers@[j])@ == l.headers@[j]@,
        forall|i: int|
            0 <= i < converted.height ==> (#[trigger] converted.rows@[i])@ == l.row_model(i),
        forall|i: int, j: int|
            0 <= i < converted.height && 0 <= j < converted.width ==> (
            #[trigger] converted.formulas@[i]@[j]) == l.formula_model(i, j),
    ensures
        converted.width == direct.width,
        converted.height == direct.height,
        forall|j: int|
            0 <= j < direct.width ==> (#[trigger] converted.headers@[j])@ == direct.headers@[j]@,
        forall|i: int|
            0 <= i < direct.height ==> (#[trigger] converted.rows@[i])@ == direct.rows@[i]@,
        forall|i: int, j: int|
            0 <= i < direct.height && 0 <= j < direct.width ==> (
            #[trigger] converted.formulas@[i]@[j]) == direct.formulas@[i]@[j],
{
}

} // verus!
