//! Tabular data access for spreadsheet-like sources.
//!
//! The crate models a workbook as one of two adapters: a structured source
//! (several named sheets, each a rectangular range of typed cells with an
//! optional, independently-origined formula range) or a text source (one
//! synthetic sheet derived from delimited text fields).  Both are served
//! through one surface: eager grids ([`grid::SheetData`]), windowed
//! retrieval ([`lazy::LazySheetData`]), and named-table extraction.

pub mod cell;
pub mod config;
pub mod grid;
pub mod lazy;
pub mod workbook;
