//! Print-shop helpers: flashcard decks (CSV import, column mapping, sheet
//! planning, PDF font maps) and a text-to-Typst markup converter.

pub mod text;
pub mod cards;
pub mod table;
pub mod records;
pub mod options;
pub mod summary;
pub mod fonts;
pub mod typeset;
pub mod views;
