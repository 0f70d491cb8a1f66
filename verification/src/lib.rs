//! Conversion of GPX waypoint types between the Garmin and Suunto vocabularies.
pub mod child_laws;
pub mod cli;
pub mod gpx;
pub mod laws;
pub mod poi;
pub mod report;
pub mod text;
pub mod web;
pub mod xml;
pub mod dictionary_keys;

pub use gpx::{convert_gpx, ConversionError};
pub use poi::Vendor;
pub use report::ConversionReport;
pub use web::{convert_gpx_for_web, WebConversion};

use vstd::prelude::*;

verus! {

} // verus!
