//! Dense grids: the rectangular value range a sheet decodes to, the
//! independently-origined formula range, the reconciliation of the two,
//! and the eagerly materialized sheet representation.

use vstd::prelude::*;

use crate::cell::cell_to_string;
use crate::cell::CellValue;

verus! {

// ===== The decoded ranges =====

/// The rectangular block of typed cells for one sheet, header row
/// included, as the source adapter decoded it.
#[derive(Debug, Clone, PartialEq)]
pub struct ValueRange {
    pub cells: Vec<Vec<CellValue>>,
}

impl ValueRange {
    /// Rows in the block, header row included.
    pub open spec fn total_height(self) -> int {
        self.cells@.len() as int
    }

    /// Columns in the block.
    pub open spec fn width_of(self) -> int {
        if self.cells@.len() == 0 {
            0
        } else {
            self.cells@[0]@.len() as int
        }
    }

    /// Data rows once the header row is excluded.
    pub open spec fn data_height(self) -> int {
        if self.total_height() == 0 {
            0
        } else {
            self.total_height() - 1
        }
    }

    /// Validity: the block is rectangular.
    pub open spec fn wf(self) -> bool {
        forall|i: int|
            0 <= i < self.cells@.len() ==> (#[trigger] self.cells@[i])@.len() == self.width_of()
    }

    pub fn height(&self) -> (h: usize)
        ensures
            h == self.total_height(),
    {
        self.cells.len()
    }

    pub fn width(&self) -> (w: usize)
        ensures
            w == self.width_of(),
    {
        if self.cells.len() == 0 {
            0
        } else {
            self.cells[0].len()
        }
    }
}

/// A separately bounded rectangular block of formula text, aligned to the
/// value range through its own absolute origin.
#[derive(Debug, Clone, PartialEq)]
pub struct FormulaRange {
    /// Absolute origin of the block as (row, column); `None` when the
    /// source left it unknown, which reads as the origin `(0, 0)`.
    pub start: Option<(u32, u32)>,
    /// The formula text per cell; an empty string means no formula.
    pub cells: Vec<Vec<String>>,
}

impl FormulaRange {
    pub open spec fn origin_row(self) -> int {
        match self.start {
            Option::Some(p) => p.0 as int,
            Option::None => 0,
        }
    }

    pub open spec fn origin_col(self) -> int {
        match self.start {
            Option::Some(p) => p.1 as int,
            Option::None => 0,
        }
    }
}

// ===== Formula reconciliation =====

/// The coordinate-translation rule: the formula that lands on the
/// grid-local cell `(row, col)` (zero-based, header excluded).  A formula
/// cell at offset `(ro, co)` of the formula block sits at header-inclusive
/// row `origin_row + ro`, so it serves grid row `origin_row + ro - 1`, and
/// column `origin_col + co`; empty text means no formula.
pub open spec fn formula_at(fr: Option<FormulaRange>, row: int, col: int) -> Option<String> {
    match fr {
        Option::None => Option::None,
        Option::Some(f) => {
            let ro = row + 1 - f.origin_row();
            let co = col - f.origin_col();
            if 0 <= ro < f.cells@.len() && 0 <= co < f.cells@[ro]@.len() && f.cells@[ro]@[co]@.len()
                != 0 {
                Option::Some(f.cells@[ro]@[co])
            } else {
                Option::None
            }
        },
    }
}

/// Looks up the formula serving one grid-local cell.
fn formula_lookup(fr: &Option<FormulaRange>, row: usize, col: usize) -> (r: Option<String>)
    requires
        row < usize::MAX,
    ensures
        r == formula_at(*fr, row as int, col as int),
{
    match fr {
        None => None,
        Some(f) => {
            let (r0, c0): (u32, u32) = match f.start {
                Some(p) => p,
                None => (0, 0),
            };
            let abs_row = row + 1;
            if abs_row < r0 as usize {
                return None;
            }
            let ro = abs_row - r0 as usize;
            if ro >= f.cells.len() {
                return None;
            }
            if col < c0 as usize {
                return None;
            }
            let co = col - c0 as usize;
            let frow = &f.cells[ro];
            if co >= frow.len() {
                return None;
            }
            let text = &frow[co];
            if text.as_str().is_empty() {
                None
            } else {
                Some(text.clone())
            }
        },
    }
}

/// Reconciles the formula overlay for grid rows `[start, end)`: the one
/// shared routine behind both the eager grid and windowed retrieval.
pub fn formulas_for_window(
    width: usize,
    start: usize,
    end: usize,
    fr: &Option<FormulaRange>,
) -> (g: Vec<Vec<Option<String>>>)
    requires
        start <= end,
        end < usize::MAX,
    ensures
        g@.len() == end - start,
        forall|i: int| 0 <= i < g@.len() ==> (#[trigger] g@[i])@.len() == width,
        forall|i: int, j: int|
            0 <= i < g@.len() && 0 <= j < width ==> (#[trigger] g@[i]@[j]) == formula_at(
                *fr,
                start + i,
                j,
            ),
{
    let mut g: Vec<Vec<Option<String>>> = Vec::new();
    let mut i = start;
    while i < end
        invariant
            start <= i <= end,
            end < usize::MAX,
            g@.len() == i - start,
            forall|p: int| 0 <= p < g@.len() ==> (#[trigger] g@[p])@.len() == width,
            forall|p: int, j: int|
                0 <= p < g@.len() && 0 <= j < width ==> (#[trigger] g@[p]@[j]) == formula_at(
                    *fr,
                    start + p,
                    j,
                ),
        decreases end - i,
    {
        let mut row: Vec<Option<String>> = Vec::new();
        let mut j: usize = 0;
        while j < width
            invariant
                j <= width,
                i < end < usize::MAX,
                row@.len() == j,
                forall|q: int|
                    0 <= q < row@.len() ==> (#[trigger] row@[q]) == formula_at(*fr, i as int, q),
            decreases width - j,
        {
            row.push(formula_lookup(fr, i, j));
            j = j + 1;
        }
        g.push(row);
        i = i + 1;
    }
    g
}

// ===== The eager grid =====

/// An eagerly materialized sheet: header row, body rows, and a parallel
/// optional-formula grid of identical shape.
#[derive(Debug, Clone, PartialEq)]
pub struct SheetData {
    pub headers: Vec<String>,
    pub rows: Vec<Vec<CellValue>>,
    /// Parallel to `rows`: the formula text serving each cell, if any.
    pub formulas: Vec<Vec<Option<String>>>,
    pub width: usize,
    pub height: usize,
}

impl SheetData {
    /// Validity: the declared width and height describe every row of both
    /// grids, and the header row.
    pub open spec fn wf(self) -> bool {
        &&& self.headers@.len() == self.width
        &&& self.rows@.len() == self.height
        &&& self.formulas@.len() == self.height
        &&& forall|i: int| 0 <= i < self.height ==> (#[trigger] self.rows@[i])@.len() == self.width
        &&& forall|i: int|
            0 <= i < self.height ==> (#[trigger] self.formulas@[i])@.len() == self.width
    }

    /// What an eager grid built over `(range, fr)` holds: the first source
    /// row rendered as headers, the remaining rows as data, and the
    /// formula overlay reconciled by the coordinate-translation rule.
    pub open spec fn matches_range(self, range: ValueRange, fr: Option<FormulaRange>) -> bool {
        &&& self.wf()
        &&& self.width == range.width_of()
        &&& self.height == range.data_height()
        &&& forall|j: int|
            0 <= j < self.width && range.total_height() > 0 ==> (#[trigger] self.headers@[j])@
                == range.cells@[0]@[j].header_text()
        &&& forall|i: int|
            0 <= i < self.height ==> (#[trigger] self.rows@[i])@ == range.cells@[i + 1]@
        &&& forall|i: int, j: int|
            0 <= i < self.height && 0 <= j < self.width ==> (#[trigger] self.formulas@[i]@[j])
                == formula_at(fr, i, j)
    }

    /// Builds the eager grid from a decoded value range and an optional
    /// formula range.
    pub fn from_range_with_formulas(
        range: &ValueRange,
        formula_range: &Option<FormulaRange>,
    ) -> (g: SheetData)
        requires
            range.wf(),
            range.total_height() < usize::MAX,
        ensures
            g.matches_range(*range, *formula_range),
    {
        let total = range.cells.len();
        let width = range.width();
        let headers = headers_of_range(range);
        let height = if total > 0 {
            total - 1
        } else {
            0
        };
        let mut rows: Vec<Vec<CellValue>> = Vec::new();
        let mut i: usize = 1;
        while i < total
            invariant
                1 <= i <= total || (total == 0 && i == 1),
                total == range.total_height(),
                range.wf(),
                rows@.len() == i - 1 || (total == 0 && rows@.len() == 0),
                forall|p: int|
                    0 <= p < rows@.len() ==> (#[trigger] rows@[p])@ == range.cells@[p + 1]@,
            decreases total - i,
        {
            rows.push(clone_cells_row(&range.cells[i]));
            i = i + 1;
        }
        let formulas = formulas_for_window(width, 0, height, formula_range);
        let g = SheetData { headers, rows, formulas, width, height };
        g
    }
}

impl SheetData {
    /// An explicit deep copy with a contract: same declared shape, and
    /// cell-for-cell equal contents.
    pub fn duplicate(&self) -> (g: SheetData)
        requires
            self.wf(),
        ensures
            g.wf(),
            g.width == self.width,
            g.height == self.height,
            g.headers@ == self.headers@,
            forall|i: int| 0 <= i < g.height ==> (#[trigger] g.rows@[i])@ == self.rows@[i]@,
            forall|i: int|
                0 <= i < g.height ==> (#[trigger] g.formulas@[i])@ == self.formulas@[i]@,
    {
        let headers = clone_string_row(&self.headers);
        let mut rows: Vec<Vec<CellValue>> = Vec::new();
        let mut i: usize = 0;
        while i < self.rows.len()
            invariant
                i <= self.rows@.len(),
                rows@.len() == i,
                forall|p: int| 0 <= p < i ==> (#[trigger] rows@[p])@ == self.rows@[p]@,
            decreases self.rows@.len() - i,
        {
            rows.push(clone_cells_row(&self.rows[i]));
            i = i + 1;
        }
        let mut formulas: Vec<Vec<Option<String>>> = Vec::new();
        let mut k: usize = 0;
        while k < self.formulas.len()
            invariant
                k <= self.formulas@.len(),
                formulas@.len() == k,
                forall|p: int| 0 <= p < k ==> (#[trigger] formulas@[p])@ == self.formulas@[p]@,
            decreases self.formulas@.len() - k,
        {
            formulas.push(clone_formula_row(&self.formulas[k]));
            k = k + 1;
        }
        SheetData { headers, rows, formulas, width: self.width, height: self.height }
    }
}

impl ValueRange {
    /// An explicit deep copy: the same cells, row for row.
    pub fn duplicate(&self) -> (c: ValueRange)
        ensures
            c.cells@.len() == self.cells@.len(),
            forall|i: int|
                0 <= i < self.cells@.len() ==> (#[trigger] c.cells@[i])@ == self.cells@[i]@,
            c.width_of() == self.width_of(),
            c.total_height() == self.total_height(),
            self.wf() ==> c.wf(),
    {
        let mut cells: Vec<Vec<CellValue>> = Vec::new();
        let mut i: usize = 0;
        while i < self.cells.len()
            invariant
                i <= self.cells@.len(),
                cells@.len() == i,
                forall|p: int| 0 <= p < i ==> (#[trigger] cells@[p])@ == self.cells@[p]@,
            decreases self.cells@.len() - i,
        {
            cells.push(clone_cells_row(&self.cells[i]));
            i = i + 1;
        }
        ValueRange { cells }
    }
}

impl FormulaRange {
    /// An explicit deep copy: the same origin and the same formula text.
    pub fn duplicate(&self) -> (c: FormulaRange)
        ensures
            c.start == self.start,
            c.cells@.len() == self.cells@.len(),
            forall|i: int|
                0 <= i < self.cells@.len() ==> (#[trigger] c.cells@[i])@ == self.cells@[i]@,
    {
        let mut cells: Vec<Vec<String>> = Vec::new();
        let mut i: usize = 0;
        while i < self.cells.len()
            invariant
                i <= self.cells@.len(),
                cells@.len() == i,
                forall|p: int| 0 <= p < i ==> (#[trigger] cells@[p])@ == self.cells@[p]@,
            decreases self.cells@.len() - i,
        {
            cells.push(clone_string_row(&self.cells[i]));
            i = i + 1;
        }
        FormulaRange { start: self.start, cells }
    }
}

/// Two formula ranges with the same origin and the same text serve every
/// cell identically.
pub proof fn lemma_formula_at_equal(a: FormulaRange, b: FormulaRange, row: int, col: int)
    requires
        a.start == b.start,
        a.cells@.len() == b.cells@.len(),
        forall|i: int| 0 <= i < a.cells@.len() ==> (#[trigger] a.cells@[i])@ == b.cells@[i]@,
    ensures
        formula_at(Option::Some(a), row, col) == formula_at(Option::Some(b), row, col),
{
    let ro = row + 1 - a.origin_row();
    if 0 <= ro < a.cells@.len() {
        assert(a.cells@[ro]@ == b.cells@[ro]@);
    }
}

/// Renders the first row of a value range as the header row; an empty
/// range has no headers.
pub fn headers_of_range(range: &ValueRange) -> (h: Vec<String>)
    requires
        range.wf(),
    ensures
        h@.len() == range.width_of(),
        forall|j: int|
            0 <= j < h@.len() && range.total_height() > 0 ==> (#[trigger] h@[j])@
                == range.cells@[0]@[j].header_text(),
{
    let mut h: Vec<String> = Vec::new();
    if range.cells.len() > 0 {
        let first = &range.cells[0];
        let width = first.len();
        let mut j: usize = 0;
        while j < width
            invariant
                j <= width,
                range.total_height() > 0,
                first == range.cells@[0],
                width == range.width_of(),
                h@.len() == j,
                forall|q: int|
                    0 <= q < h@.len() ==> (#[trigger] h@[q])@ == range.cells@[0]@[q].header_text(),
            decreases width - j,
        {
            h.push(cell_to_string(&first[j]));
            j = j + 1;
        }
    }
    h
}

/// An explicit element-wise copy of a row of cells, with a contract.
pub fn clone_cells_row(v: &Vec<CellValue>) -> (r: Vec<CellValue>)
    ensures
        r@ == v@,
{
    let mut r: Vec<CellValue> = Vec::new();
    let mut k: usize = 0;
    while k < v.len()
        invariant
            k <= v@.len(),
            r@.len() == k,
            forall|q: int| 0 <= q < r@.len() ==> (#[trigger] r@[q]) == v@[q],
        decreases v@.len() - k,
    {
        r.push(v[k].duplicate());
        k = k + 1;
    }
    assert(r@ =~= v@);
    r
}

/// An explicit element-wise copy of a row of optional formula text.
pub fn clone_formula_row(v: &Vec<Option<String>>) -> (r: Vec<Option<String>>)
    ensures
        r@ == v@,
{
    let mut r: Vec<Option<String>> = Vec::new();
    let mut k: usize = 0;
    while k < v.len()
        invariant
            k <= v@.len(),
            r@.len() == k,
            forall|q: int| 0 <= q < r@.len() ==> (#[trigger] r@[q]) == v@[q],
        decreases v@.len() - k,
    {
        let e = match &v[k] {
            Some(s) => Some(s.clone()),
            None => None,
        };
        r.push(e);
        k = k + 1;
    }
    assert(r@ =~= v@);
    r
}

/// An explicit element-wise copy of a row of strings.
pub fn clone_string_row(v: &Vec<String>) -> (r: Vec<String>)
    ensures
        r@ == v@,
{
    let mut r: Vec<String> = Vec::new();
    let mut k: usize = 0;
    while k < v.len()
        invariant
            k <= v@.len(),
            r@.len() == k,
            forall|q: int| 0 <= q < r@.len() ==> (#[trigger] r@[q]) == v@[q],
        decreases v@.len() - k,
    {
        r.push(v[k].clone());
        k = k + 1;
    }
    assert(r@ =~= v@);
    r
}

} // verus!
