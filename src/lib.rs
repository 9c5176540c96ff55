//! Daily valuation of fixed-income instruments issued in series.
//!
//! - `calendar`: dates and their day numbers.
//! - `text`: decimal renderings of numbers, dates and amounts, and how to read them back.
//! - `valuation`: the daily value series of an instrument from its annual rates.
//! - `model`: instruments and the CSV rendering of their series.
//! - `reader`: instrument definitions from the rows of a spreadsheet.
//! - `continuity`: the check that the sale windows of a series follow one another.
//! - `catalog`: the read-only catalog of all instruments by identifier.
//! - `api`: values handed to the outside.
use vstd::prelude::*;

pub mod calendar;
pub mod text;
pub mod valuation;
pub mod model;
pub mod reader;
pub mod continuity;
pub mod catalog;
pub mod api;

verus! {

} // verus!
