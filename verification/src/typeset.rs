//! Converting source input (plain text, Markdown, HTML) into Typst body
//! markup, applying page-break rules first.
use vstd::prelude::*;

pub mod escape;
pub mod pages;
pub mod html;
pub mod events;
pub mod table;
pub mod outline;
pub mod asset;
pub mod markdown;
pub mod body;
pub mod sections;

use self::outline::OutlineEntry;

verus! {

/// The markup language of a source document.
#[derive(Debug, Clone, Copy, PartialEq, Eq, Structural)]
pub enum InputFormat {
    Plaintext,
    Markdown,
    Html,
}

/// Where a page break goes relative to a matching line.
#[derive(Debug, Clone, Copy, PartialEq, Eq, Structural)]
pub enum BreakPosition {
    /// Break before the line; the line starts the new page.
    Before,
    /// Break after the line; the line ends the old page.
    After,
    /// The line itself becomes the break and is dropped.
    Replace,
}

/// Insert a page break at lines whose trimmed text equals the trimmed pattern.
pub struct PageBreakRule {
    pub pattern: String,
    pub position: BreakPosition,
}

/// A source document and its markup language.
pub struct TypesetInput {
    pub text: String,
    pub format: InputFormat,
}

/// Tallies of what an import converted.
pub struct ImportStats {
    /// Images resolved and registered.
    pub images_ok: usize,
    /// Images whose source could not be fetched.
    pub images_failed: usize,
    /// Formulas typeset natively.
    pub math_tex: usize,
    /// Formulas kept as images.
    pub math_image: usize,
    /// Formulas kept as raw source.
    pub math_raw: usize,
    /// Citations found.
    pub citations: usize,
}

impl Default for ImportStats {
    fn default() -> (s: Self)
        ensures
            s.images_ok == 0 && s.images_failed == 0 && s.math_tex == 0 && s.math_image == 0
                && s.math_raw == 0 && s.citations == 0,
    {
        ImportStats {
            images_ok: 0,
            images_failed: 0,
            math_tex: 0,
            math_image: 0,
            math_raw: 0,
            citations: 0,
        }
    }
}

/// A converted document ready to typeset: body markup, the in-memory files it
/// references, its heading outline, an optional title and the tallies.
pub struct ImportedDoc {
    pub body: String,
    pub assets: Vec<(String, Vec<u8>)>,
    pub outline: Vec<OutlineEntry>,
    pub title: Option<String>,
    pub stats: ImportStats,
}

} // verus!
