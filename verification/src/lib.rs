//! A table-of-contents engine for markdown documents, together with the
//! text decisions of the fetch pipeline around it: a navigable outline of
//! headings with 1-indexed line numbers is extracted from a parsed event
//! stream, decorative empty anchor links are excised, and the deepest
//! heading level whose rendered outline fits a caller-supplied byte budget
//! is selected.

mod events;
mod extract;
mod heading;
mod html;
mod stats;
mod text;
mod toc;
mod urls;

pub use crate::extract::{extract_headings, is_empty_or_invisible};
pub use crate::heading::{Heading, TocConfig};
pub use crate::html::{extract_body, html_to_markdown, HtmlError};
pub use crate::stats::count_stats;
pub use crate::toc::{find_optimal_level, generate_toc, render_toc};
pub use crate::urls::{classify_content, get_url_variations, path_component_ok, sanitize_query};

use vstd::prelude::*;

verus! {

/// Default maximum size in bytes of a rendered outline.
pub const DEFAULT_TOC_BUDGET: usize = 4000;

/// Default minimum document size for which an outline is produced.
pub const DEFAULT_TOC_THRESHOLD: usize = 8000;

} // verus!
