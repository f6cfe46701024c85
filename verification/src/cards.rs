//! Flashcards, and what loading or laying them out can report.
use vstd::prelude::*;

use crate::text::{decimal, push_decimal};

verus! {

/// One card: the text printed on its front and on its back.
#[derive(Debug, Clone)]
pub struct Flashcard {
    pub front: String,
    pub back: String,
}

/// A non-fatal finding from loading cards or checking a layout.
#[derive(Debug, Clone, Copy, PartialEq, Eq, Structural)]
pub enum FlashcardWarning {
    /// The CSV/paste contained no data rows.
    EmptyCsv,
    /// A row had fewer than two columns and was skipped. `row_number` is
    /// 1-based and counts a consumed header row.
    CsvRowSkipped { row_number: usize, column_count: usize },
    /// The card grid is wider than the printable area.
    GridWiderThanPrintable,
    /// The card grid is taller than the printable area.
    GridTallerThanPrintable,
}

/// A failure to lay out or write a flashcard PDF.
#[derive(Debug, Clone)]
pub enum FlashcardError {
    /// The layout cannot produce a PDF (the message says why).
    Pdf(String),
    /// A saved layout or deck could not be read.
    Config(String),
}

/// The human-readable text of a warning.
pub open spec fn warning_text(w: FlashcardWarning) -> Seq<char> {
    match w {
        FlashcardWarning::EmptyCsv => "No data rows found"@,
        FlashcardWarning::CsvRowSkipped { row_number, column_count } => "Row "@ + decimal(
            row_number as nat,
        ) + ": skipping (has "@ + decimal(column_count as nat) + " column(s), need >= 2)"@,
        FlashcardWarning::GridWiderThanPrintable =>
            "Card grid is wider than the printable area \u{2014} reduce columns, card width, spacing, or side margins"@,
        FlashcardWarning::GridTallerThanPrintable =>
            "Card grid is taller than the printable area \u{2014} reduce rows, card height, spacing, or top/bottom margins"@,
    }
}

impl FlashcardWarning {
    /// The warning as a sentence for the user.
    pub fn message(&self) -> (s: String)
        ensures
            s@ == warning_text(*self),
    {
        match self {
            FlashcardWarning::EmptyCsv => String::from_str("No data rows found"),
            FlashcardWarning::CsvRowSkipped { row_number, column_count } => {
                let mut s = String::from_str("Row ");
                push_decimal(&mut s, *row_number);
                s.append(": skipping (has ");
                push_decimal(&mut s, *column_count);
                s.append(" column(s), need >= 2)");
                s
            },
            FlashcardWarning::GridWiderThanPrintable => String::from_str(
                "Card grid is wider than the printable area \u{2014} reduce columns, card width, spacing, or side margins",
            ),
            FlashcardWarning::GridTallerThanPrintable => String::from_str(
                "Card grid is taller than the printable area \u{2014} reduce rows, card height, spacing, or top/bottom margins",
            ),
        }
    }
}

} // verus!
