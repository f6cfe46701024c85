//! Units, duplex modes and the layout checks a flashcard PDF needs.
//!
//! Page geometry itself is kept in millimetres as floating point by the
//! caller; the checks here take the outcome of each positivity test.
use vstd::prelude::*;

use crate::cards::FlashcardError;

verus! {

/// The unit a user enters measurements in.
#[derive(Debug, Clone, Copy, PartialEq, Eq, Structural)]
pub enum MeasurementSystem {
    Inches,
    Millimeters,
    Points,
}

impl MeasurementSystem {
    /// The unit's short label.
    pub fn name(&self) -> (s: &'static str)
        ensures
            s@ == match *self {
                MeasurementSystem::Inches => "in"@,
                MeasurementSystem::Millimeters => "mm"@,
                MeasurementSystem::Points => "pt"@,
            },
    {
        match self {
            MeasurementSystem::Inches => "in",
            MeasurementSystem::Millimeters => "mm",
            MeasurementSystem::Points => "pt",
        }
    }
}

/// How the printed sheet is flipped for two-sided printing. The back of each
/// card is the mirror of its front about the page centre.
#[derive(Debug, Clone, Copy, PartialEq, Eq, Structural)]
pub enum Duplex {
    /// Two-sided, flip on the long edge: backs mirror left and right.
    LongEdge,
    /// Two-sided, flip on the short edge: backs mirror top and bottom.
    ShortEdge,
    /// Single-sided: only the fronts are printed.
    OneSided,
}

impl Duplex {
    /// Whether backs are printed.
    pub fn is_double_sided(&self) -> (b: bool)
        ensures
            b == (*self != Duplex::OneSided),
    {
        !matches!(self, Duplex::OneSided)
    }
}

/// The outcome of each floating-point test a layout must pass.
#[derive(Debug, Clone, Copy, PartialEq, Eq, Structural)]
pub struct DimensionChecks {
    /// The card width is above zero.
    pub card_width_positive: bool,
    /// The card height is above zero.
    pub card_height_positive: bool,
    /// The font size is above zero.
    pub font_size_positive: bool,
    /// Both page dimensions are above zero.
    pub page_positive: bool,
}

/// The first failing rule's message, in the order the rules are checked, or
/// `None` when the layout is valid.
pub open spec fn layout_problem(rows: usize, columns: usize, checks: DimensionChecks) -> Option<
    Seq<char>,
> {
    if rows == 0 {
        Some("rows must be at least 1"@)
    } else if columns == 0 {
        Some("columns must be at least 1"@)
    } else if !checks.card_width_positive {
        Some("card width must be positive"@)
    } else if !checks.card_height_positive {
        Some("card height must be positive"@)
    } else if !checks.font_size_positive {
        Some("font size must be positive"@)
    } else if !checks.page_positive {
        Some("page dimensions must be positive"@)
    } else {
        None
    }
}

/// Check a layout: at least one row and one column, and positive card,
/// font and page sizes. The error is `FlashcardError::Pdf` with the first
/// failing rule's message.
pub fn validate_layout(rows: usize, columns: usize, checks: DimensionChecks) -> (r: Result<
    (),
    FlashcardError,
>)
    ensures
        r is Ok <==> layout_problem(rows, columns, checks) is None,
        r matches Err(e) ==> e matches FlashcardError::Pdf(m) && Some(m@) == layout_problem(
            rows,
            columns,
            checks,
        ),
{
    if rows == 0 {
        return Err(FlashcardError::Pdf(String::from_str("rows must be at least 1")));
    }
    if columns == 0 {
        return Err(FlashcardError::Pdf(String::from_str("columns must be at least 1")));
    }
    if !checks.card_width_positive {
        return Err(FlashcardError::Pdf(String::from_str("card width must be positive")));
    }
    if !checks.card_height_positive {
        return Err(FlashcardError::Pdf(String::from_str("card height must be positive")));
    }
    if !checks.font_size_positive {
        return Err(FlashcardError::Pdf(String::from_str("font size must be positive")));
    }
    if !checks.page_positive {
        return Err(FlashcardError::Pdf(String::from_str("page dimensions must be positive")));
    }
    Ok(())
}

} // verus!
