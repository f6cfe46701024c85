//! The decisions behind the editor's views: how a file list is reordered,
//! how an import's tallies are summarised, and the defaults restored saves
//! fall back on.
use vstd::prelude::*;

use std::path::PathBuf;

use crate::cards::{Flashcard, FlashcardWarning};
use crate::table::{default_role, side_text, ColumnRole, CsvTable};
use crate::text::{decimal, push_decimal};
use crate::typeset::{ImportStats, InputFormat};

verus! {

#[verifier::external_type_specification]
#[verifier::external_body]
pub struct ExPathBuf(PathBuf);

/// How card size and grid are related while editing a layout.
#[derive(Debug, Clone, Copy, PartialEq, Eq, Structural)]
pub enum SizingMode {
    /// Rows and columns are given; the card size follows.
    Grid,
    /// The card size is given; rows and columns follow.
    CardSize,
}

/// A file list being edited: entries can be moved up or down and removed.
pub struct FileListEditor<'a> {
    files: &'a mut Vec<PathBuf>,
    changed: bool,
}

/// The list after the edits chosen in one pass over it: first the move up
/// (entry `i` swaps with `i - 1`), then the move down (entry `i` swaps with
/// `i + 1`), then the removal. An edit whose position is out of range leaves
/// the list as it is.
pub open spec fn edited<T>(files: Seq<T>, up: Option<usize>, down: Option<usize>, remove: Option<usize>) -> Seq<T> {
    let a = match up {
        Some(i) => if 0 < i < files.len() {
            files.update(i as int, files[i - 1]).update(i - 1, files[i as int])
        } else {
            files
        },
        None => files,
    };
    let b = match down {
        Some(i) => if i + 1 < a.len() {
            a.update(i as int, a[i + 1]).update(i + 1, a[i as int])
        } else {
            a
        },
        None => a,
    };
    match remove {
        Some(i) => if i < b.len() {
            b.remove(i as int)
        } else {
            b
        },
        None => b,
    }
}

impl<'a> FileListEditor<'a> {
    pub closed spec fn files(&self) -> Seq<PathBuf> {
        self.files@
    }

    pub closed spec fn changed(&self) -> bool {
        self.changed
    }

    /// An editor over `files`, with nothing changed yet.
    pub fn new(files: &'a mut Vec<PathBuf>) -> (e: Self)
        ensures
            e.files() == old(files)@,
            !e.changed(),
    {
        FileListEditor { files, changed: false }
    }

    /// Apply the edits chosen in one pass over the list (a move up, a move
    /// down, a removal, each by position); returns whether the list has
    /// changed since the editor was made.
    pub fn apply_edits(&mut self, up: Option<usize>, down: Option<usize>, remove: Option<usize>) -> (changed: bool)
        requires
            up matches Some(i) ==> 0 < i < old(self).files().len(),
            down matches Some(i) ==> i + 1 < old(self).files().len(),
            remove matches Some(i) ==> i < old(self).files().len(),
        ensures
            final(self).files() == edited(old(self).files(), up, down, remove),
            changed == final(self).changed(),
            final(self).changed() == (old(self).changed() || up is Some || down is Some || remove is Some),
    {
        match up {
            Some(i) => {
                swap_adjacent(self.files, i - 1);
                self.changed = true;
            },
            None => {},
        }
        match down {
            Some(i) => {
                swap_adjacent(self.files, i);
                self.changed = true;
            },
            None => {},
        }
        match remove {
            Some(i) => {
                self.files.remove(i);
                self.changed = true;
            },
            None => {},
        }
        self.changed
    }
}

/// Exchange entries `i` and `i + 1`.
fn swap_adjacent<T>(v: &mut Vec<T>, i: usize)
    requires
        i + 1 < old(v)@.len(),
    ensures
        final(v)@ == old(v)@.update(i as int, old(v)@[i + 1]).update(i + 1, old(v)@[i as int]),
{
    assert(v.len() == v@.len());
    let x = v.remove(i + 1);
    v.insert(i, x);
    assert(v@ =~= old(v)@.update(i as int, old(v)@[i + 1]).update(i + 1, old(v)@[i as int]));
}

/// The format a restored import session falls back on when its save names
/// none: such saves were all HTML imports.
pub fn default_import_kind() -> (f: InputFormat)
    ensures
        f == InputFormat::Html,
{
    InputFormat::Html
}

/// The one-line summary of an import: math tiers (only when there are
/// formulas), figures (with the unresolved count when there is one), and
/// citations (only when there are any), separated by commas.
pub open spec fn stats_summary(s: ImportStats) -> Seq<char> {
    let math = if s.math_tex + s.math_image + s.math_raw > 0 {
        "math "@ + decimal(s.math_tex as nat) + " native/"@ + decimal(s.math_image as nat) + " image/"@
            + decimal(s.math_raw as nat) + " raw, "@
    } else {
        Seq::empty()
    };
    let figures = if s.images_failed > 0 {
        decimal(s.images_ok as nat) + " figures ("@ + decimal(s.images_failed as nat) + " unresolved)"@
    } else {
        decimal(s.images_ok as nat) + " figures"@
    };
    let citations = if s.citations > 0 {
        ", "@ + decimal(s.citations as nat) + " citations"@
    } else {
        Seq::empty()
    };
    math + figures + citations
}

/// The one-line summary of an import's tallies.
pub fn import_stats_summary(s: &ImportStats) -> (out: String)
    requires
        s.math_tex + s.math_image + s.math_raw <= usize::MAX,
    ensures
        out@ == stats_summary(*s),
{
    let mut out = String::new();
    if s.math_tex + s.math_image + s.math_raw > 0 {
        out.append("math ");
        push_decimal(&mut out, s.math_tex);
        out.append(" native/");
        push_decimal(&mut out, s.math_image);
        out.append(" image/");
        push_decimal(&mut out, s.math_raw);
        out.append(" raw, ");
    }
    push_decimal(&mut out, s.images_ok);
    if s.images_failed > 0 {
        out.append(" figures (");
        push_decimal(&mut out, s.images_failed);
        out.append(" unresolved)");
    } else {
        out.append(" figures");
    }
    if s.citations > 0 {
        out.append(", ");
        push_decimal(&mut out, s.citations);
        out.append(" citations");
    }
    proof {
        let sv = stats_summary(*s);
        assert(out@ =~= sv);
    }
    out
}

/// Whether `cards` are the rows of `t` projected through `roles`, the cells
/// of each side joined by newlines.
pub open spec fn projected(t: CsvTable, roles: Seq<ColumnRole>, cards: Seq<Flashcard>) -> bool {
    &&& cards.len() == t.rows@.len()
    &&& forall|i: int|
        0 <= i < cards.len() ==> {
            &&& (#[trigger] cards[i]).front@ == side_text(
                t.rows@[i].deep_view(),
                roles,
                ColumnRole::Front,
                "\n"@,
            )
            &&& cards[i].back@ == side_text(t.rows@[i].deep_view(), roles, ColumnRole::Back, "\n"@)
        }
}

/// Where the flashcard view's cards come from: the parsed table, how its
/// columns map to card sides, the cards projected from it, and the last
/// load's warnings.
pub struct CardSource {
    pub column_roles: Vec<ColumnRole>,
    pub csv_table: Option<CsvTable>,
    pub cards: Vec<Flashcard>,
    pub load_warnings: Vec<FlashcardWarning>,
    /// Set when the cards changed and the preview must be rebuilt.
    pub needs_regeneration: bool,
}

impl CardSource {
    /// Adopt a freshly parsed table: the column roles are kept when they still
    /// fit its column count and reset to the default mapping otherwise; then
    /// the cards are projected from it.
    pub fn set_table(&mut self, table: CsvTable, warnings: Vec<FlashcardWarning>)
        ensures
            final(self).column_roles@.len() == table.columns@.len(),
            old(self).column_roles@.len() == table.columns@.len() ==> final(self).column_roles@
                == old(self).column_roles@,
            old(self).column_roles@.len() != table.columns@.len() ==> forall|i: int|
                0 <= i < table.columns@.len() ==> #[trigger] final(self).column_roles@[i]
                    == default_role(i),
            final(self).csv_table == Some(table),
            final(self).load_warnings@ == warnings@,
            projected(table, final(self).column_roles@, final(self).cards@),
            final(self).needs_regeneration,
    {
        if self.column_roles.len() != table.columns.len() {
            self.column_roles = table.default_roles();
        }
        self.csv_table = Some(table);
        self.load_warnings = warnings;
        self.reproject_cards();
    }

    /// Rebuild the cards from the table and the column roles; nothing changes
    /// when no table is loaded.
    pub fn reproject_cards(&mut self)
        ensures
            final(self).column_roles == old(self).column_roles,
            final(self).csv_table == old(self).csv_table,
            final(self).load_warnings == old(self).load_warnings,
            match old(self).csv_table {
                Some(t) => projected(t, old(self).column_roles@, final(self).cards@)
                    && final(self).needs_regeneration,
                None => final(self).cards == old(self).cards && final(self).needs_regeneration
                    == old(self).needs_regeneration,
            },
    {
        match &self.csv_table {
            Some(table) => {
                let cards = table.to_cards(self.column_roles.as_slice(), "\n");
                self.cards = cards;
                self.needs_regeneration = true;
            },
            None => {},
        }
    }
}

} // verus!
