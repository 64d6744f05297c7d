//! The two data types of the outline engine: the per-call configuration and
//! one extracted heading.

use vstd::prelude::*;

verus! {

use crate::{DEFAULT_TOC_BUDGET, DEFAULT_TOC_THRESHOLD};

/// Configuration of a single outline generation call.
#[derive(Debug, Clone, Copy, PartialEq)]
pub struct TocConfig {
    /// Maximum size in bytes of the rendered outline. The deepest heading
    /// level whose outline stays within this size is selected.
    pub toc_budget: usize,
    /// Minimum document size for which an outline is produced at all; the
    /// caller supplies the size measurement that is held against it.
    pub full_content_threshold: usize,
}

impl Default for TocConfig {
    /// The documented defaults: a budget of 4000 bytes and a threshold of
    /// 8000.
    fn default() -> (c: TocConfig)
        ensures
            c.toc_budget == DEFAULT_TOC_BUDGET,
            c.full_content_threshold == DEFAULT_TOC_THRESHOLD,
    {
        TocConfig { toc_budget: DEFAULT_TOC_BUDGET, full_content_threshold: DEFAULT_TOC_THRESHOLD }
    }
}

/// One heading extracted from a markdown document.
///
/// The text keeps the original inline markup, except that empty anchor
/// links, a trailing setext underline and runs of spaces are removed.
#[derive(Debug, Clone, PartialEq)]
pub struct Heading {
    /// Heading level, 1 (H1) through 6 (H6).
    pub level: u8,
    /// 1-indexed line number on which the heading starts.
    pub line_number: usize,
    /// The normalised heading text.
    pub text: String,
}

/// Mathematical image of a `Heading`.
#[verifier::ext_equal]
pub ghost struct HeadingV {
    pub level: u8,
    pub line_number: int,
    pub text: Seq<char>,
}

impl View for Heading {
    type V = HeadingV;

    open spec fn view(&self) -> HeadingV {
        HeadingV { level: self.level, line_number: self.line_number as int, text: self.text@ }
    }
}

/// The views of a vector of headings.
pub open spec fn heading_views(hs: Seq<Heading>) -> Seq<HeadingV> {
    hs.map_values(|h: Heading| h@)
}

} // verus!
