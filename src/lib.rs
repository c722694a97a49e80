//! Reading of spreadsheet workbooks: A1-style dimensions, worksheet cell
//! values, the OLE compound file that holds a VBA project, the VBA
//! run-length compression, and the VBA `dir` and `PROJECT` streams.
pub mod error;
pub mod dimension;
pub mod cells;
pub mod range;
pub mod sheet;
pub mod rle;
pub mod cfb;
pub mod dirstream;
pub mod project;
pub mod vba;
