//! Core of a postfix-expression spreadsheet processor.
//!
//! A sheet is a grid of cells; each cell holds a postfix (reverse-Polish)
//! arithmetic expression over decimal numbers, the four operators
//! `+ - * /`, and references to other cells written as spreadsheet
//! labels such as `A1` or `ZZ12`.  The crate provides the coordinate
//! codec, the grid backing store, the recursive postfix evaluator with
//! cycle detection, and the driver that evaluates a whole sheet.
//!
//! All arithmetic is exact: cell values are rational numbers held in
//! canonical (reduced) form, so evaluation results carry no rounding.

pub mod coord;
pub mod digits;
pub mod numtext;
pub mod postfix;
pub mod rational;
pub mod sheet;
pub mod text;
