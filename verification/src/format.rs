//! The two recognized source formats and their detection from a format
//! name or from a filename.
use vstd::prelude::*;

use crate::text::spec_contains;
use crate::text::str_contains;
use crate::text::str_eq;

verus! {

/// The two recognized source formats, used purely for dispatch.
#[derive(Debug, Clone, Copy, PartialEq, Eq, Structural)]
pub enum ColorSchemeFormat {
    ITerm,
    Mintty,
}

/// Exact, case-sensitive match of a format name.
pub open spec fn spec_format_from_name(s: Seq<char>) -> Option<ColorSchemeFormat> {
    if s == "iterm"@ {
        Some(ColorSchemeFormat::ITerm)
    } else if s == "mintty"@ {
        Some(ColorSchemeFormat::Mintty)
    } else {
        None
    }
}

/// Substring match of each format's canonical file extension marker;
/// the first marker wins.
pub open spec fn spec_format_from_filename(s: Seq<char>) -> Option<ColorSchemeFormat> {
    if spec_contains(s, ".itermcolors"@) {
        Some(ColorSchemeFormat::ITerm)
    } else if spec_contains(s, ".minttyrc"@) {
        Some(ColorSchemeFormat::Mintty)
    } else {
        None
    }
}

impl ColorSchemeFormat {
    /// Recognizes one of the two format tokens, exactly and
    /// case-sensitively; any other string is unrecognized.
    pub fn from_string(s: &str) -> (r: Option<Self>)
        ensures
            r == spec_format_from_name(s@),
    {
        if str_eq(s, "iterm") {
            Some(ColorSchemeFormat::ITerm)
        } else if str_eq(s, "mintty") {
            Some(ColorSchemeFormat::Mintty)
        } else {
            None
        }
    }

    /// Recognizes a filename by its extension marker; no marker means
    /// unrecognized.
    pub fn from_filename(s: &str) -> (r: Option<Self>)
        ensures
            r == spec_format_from_filename(s@),
    {
        if str_contains(s, ".itermcolors") {
            Some(ColorSchemeFormat::ITerm)
        } else if str_contains(s, ".minttyrc") {
            Some(ColorSchemeFormat::Mintty)
        } else {
            None
        }
    }
}

} // verus!
