//! The result handed to the browser page: the converted document, the
//! counts and the unknown values as one text.
use vstd::prelude::*;

use crate::cli::{joined, joined_unknown_values, target_vendor, vendor_from_target};
use crate::gpx::{conversion, convert_gpx, document_tokens, ConversionError, Outcome};

verus! {

/// A conversion as the browser page shows it.
#[derive(Debug)]
pub struct WebConversion {
    output: String,
    waypoints: usize,
    translated: usize,
    fallback_waypoints: usize,
    unknown_values: String,
}

/// The mathematical content of a [`WebConversion`].
pub struct WebConversionView {
    pub output: Seq<char>,
    pub waypoints: nat,
    pub translated: nat,
    pub fallback_waypoints: nat,
    pub unknown_values: Seq<char>,
}

impl View for WebConversion {
    type V = WebConversionView;

    closed spec fn view(&self) -> WebConversionView {
        WebConversionView {
            output: self.output@,
            waypoints: self.waypoints as nat,
            translated: self.translated as nat,
            fallback_waypoints: self.fallback_waypoints as nat,
            unknown_values: self.unknown_values@,
        }
    }
}

impl WebConversion {
    /// The converted document.
    pub fn output(&self) -> (r: String)
        ensures
            r@ == self@.output,
    {
        self.output.clone()
    }

    /// The number of waypoints converted.
    pub fn waypoints(&self) -> (r: usize)
        ensures
            r == self@.waypoints,
    {
        self.waypoints
    }

    /// The number of waypoints whose value the dictionary knew.
    pub fn translated(&self) -> (r: usize)
        ensures
            r == self@.translated,
    {
        self.translated
    }

    /// The number of waypoints that got the fallback value for an unknown one.
    pub fn fallback_waypoints(&self) -> (r: usize)
        ensures
            r == self@.fallback_waypoints,
    {
        self.fallback_waypoints
    }

    /// The unknown values, in order, joined by `", "`.
    pub fn unknown_values(&self) -> (r: String)
        ensures
            r@ == self@.unknown_values,
    {
        self.unknown_values.clone()
    }
}

/// Why the browser binding produced no conversion.
#[derive(Debug)]
pub enum WebError {
    /// The target names no vendor.
    InvalidTarget,
    /// The document could not be converted.
    Conversion(ConversionError),
}

/// Converts `input` for the vendor that `target` names (`garmin` or
/// `suunto`, see [`target_vendor`]), as the browser page asks.
pub fn convert_gpx_for_web(input: &str, target: &str) -> (r: Result<WebConversion, WebError>)
    ensures
        target_vendor(target@) is None ==> r matches Err(WebError::InvalidTarget),
        target_vendor(target@) matches Some(vendor) ==> ({
            let (tokens, complete) = document_tokens(input@, 0);
            match r {
                Ok(w) => conversion(tokens, complete, vendor) matches Outcome::Converted(out, rep)
                    && w@ == (WebConversionView {
                    output: out,
                    waypoints: rep.waypoints,
                    translated: rep.translated,
                    fallback_waypoints: rep.fallback_waypoints,
                    unknown_values: joined(rep.unknown_values, ", "@),
                }),
                Err(WebError::Conversion(ConversionError::InvalidXml(_))) => conversion(
                    tokens,
                    complete,
                    vendor,
                ) == Outcome::InvalidXml,
                Err(WebError::Conversion(ConversionError::InvalidText(_))) => conversion(
                    tokens,
                    complete,
                    vendor,
                ) == Outcome::InvalidText,
                Err(WebError::InvalidTarget) => false,
            }
        }),
{
    let vendor = match vendor_from_target(target) {
        Some(v) => v,
        None => return Err(WebError::InvalidTarget),
    };
    let (output, report) = match convert_gpx(input, vendor) {
        Ok(converted) => converted,
        Err(e) => return Err(WebError::Conversion(e)),
    };
    let unknown_values = joined_unknown_values(&report);
    Ok(
        WebConversion {
            output,
            waypoints: report.waypoints,
            translated: report.translated,
            fallback_waypoints: report.fallback_waypoints,
            unknown_values,
        },
    )
}

} // verus!
