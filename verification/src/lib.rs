//! A small library for maintaining free-text captions for a gallery of
//! image files: discovering the images in a directory listing, encoding
//! and decoding the caption table as tabular text, reconciling a loaded
//! table with the images currently on disk, and driving an interactive
//! edit session over the table.

pub mod chars;
pub mod paths;
pub mod codec;
pub mod discovery;
pub mod reconcile;
pub mod record;
pub mod session;

use vstd::prelude::*;

verus! {

/// The errors the library reports.
#[derive(Debug, PartialEq, Eq)]
pub enum CaptionError {
    /// A row of the caption table could not be decoded; holds the
    /// number of the offending row, the header being row zero.
    Format { row: usize },
    /// The requested output type is not supported; only tabular
    /// comma-separated output exists.
    UnsupportedOutputType,
}

/// Resolves the requested output into the file name the caption table is
/// written under. Only the tabular type `csv` is supported: any other
/// request is reported as unsupported, before anything is written. When
/// no name is given the default one is used.
pub fn resolve_output(output_type: &String, output_name: &Option<String>) -> (r: Result<
    String,
    CaptionError,
>)
    ensures
        output_type@ == "csv"@ ==> (r matches Ok(name) && (match output_name {
            Some(n) => name@ == n@,
            None => name@ == "captions.csv"@,
        })),
        output_type@ != "csv"@ ==> (r matches Err(e) && e == CaptionError::UnsupportedOutputType),
{
    if crate::chars::str_eq(output_type.as_str(), "csv") {
        match output_name {
            Some(n) => Ok(n.clone()),
            None => {
                let mut name = String::new();
                name.append("captions.csv");
                Ok(name)
            }
        }
    } else {
        Err(CaptionError::UnsupportedOutputType)
    }
}

} // verus!
