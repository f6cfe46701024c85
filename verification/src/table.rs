//! The parsed CSV/TSV table and the column-to-card mapping.
//!
//! Importing is two steps: parse the source into a [`CsvTable`] (named columns
//! and rows), then project it into [`Flashcard`]s with a per-column
//! [`ColumnRole`]. Keeping the table lets a caller re-map columns without
//! re-reading the source.
use vstd::prelude::*;

use crate::cards::Flashcard;

verus! {

/// A parsed CSV/TSV table: named columns and their data rows.
#[derive(Debug, Clone)]
pub struct CsvTable {
    /// Column names: the header row's values, or `Col1`..`ColN` without one.
    pub columns: Vec<String>,
    /// Data rows; a row may be shorter than `columns` (missing cells are empty).
    pub rows: Vec<Vec<String>>,
}

/// Which side of the card a column feeds, or whether it is left out.
#[derive(Debug, Clone, Copy, PartialEq, Eq, Structural)]
pub enum ColumnRole {
    Front,
    Back,
    Ignore,
}

/// The role the default mapping gives column `i`.
pub open spec fn default_role(i: int) -> ColumnRole {
    if i == 0 {
        ColumnRole::Front
    } else if i == 1 {
        ColumnRole::Back
    } else {
        ColumnRole::Ignore
    }
}

/// The cells of `row`, in column order, whose column has role `want`; a
/// column past the end of `row` contributes nothing.
pub open spec fn selected_cells(
    row: Seq<Seq<char>>,
    roles: Seq<ColumnRole>,
    want: ColumnRole,
) -> Seq<Seq<char>>
    decreases roles.len(),
{
    if roles.len() == 0 {
        Seq::empty()
    } else {
        let col = roles.len() - 1;
        let prev = selected_cells(row, roles.drop_last(), want);
        if roles.last() == want && col < row.len() {
            prev.push(row[col])
        } else {
            prev
        }
    }
}

/// `parts` joined with `sep` between neighbours.
pub open spec fn join(parts: Seq<Seq<char>>, sep: Seq<char>) -> Seq<char>
    decreases parts.len(),
{
    if parts.len() == 0 {
        Seq::empty()
    } else if parts.len() == 1 {
        parts[0]
    } else {
        join(parts.drop_last(), sep) + sep + parts.last()
    }
}

/// The text of one card side: the selected cells joined with `sep`.
pub open spec fn side_text(
    row: Seq<Seq<char>>,
    roles: Seq<ColumnRole>,
    want: ColumnRole,
    sep: Seq<char>,
) -> Seq<char> {
    join(selected_cells(row, roles, want), sep)
}

impl CsvTable {
    /// The default mapping: the first column feeds the front, the second the
    /// back, the rest are ignored.
    pub fn default_roles(&self) -> (roles: Vec<ColumnRole>)
        ensures
            roles@.len() == self.columns@.len(),
            forall|i: int| 0 <= i < roles@.len() ==> #[trigger] roles@[i] == default_role(i),
    {
        let mut roles: Vec<ColumnRole> = Vec::new();
        let n = self.columns.len();
        let mut i: usize = 0;
        while i < n
            invariant
                i <= n,
                n == self.columns@.len(),
                roles@.len() == i,
                forall|j: int| 0 <= j < i ==> #[trigger] roles@[j] == default_role(j),
            decreases n - i,
        {
            let r = if i == 0 {
                ColumnRole::Front
            } else if i == 1 {
                ColumnRole::Back
            } else {
                ColumnRole::Ignore
            };
            roles.push(r);
            i += 1;
        }
        roles
    }

    /// Build one flashcard per row, joining with `separator` the cells whose
    /// column is assigned to each side. Columns beyond `roles` (and cells
    /// beyond a short row) contribute nothing.
    pub fn to_cards(&self, roles: &[ColumnRole], separator: &str) -> (cards: Vec<Flashcard>)
        ensures
            cards@.len() == self.rows@.len(),
            forall|i: int|
                0 <= i < cards@.len() ==> {
                    &&& (#[trigger] cards@[i]).front@ == side_text(
                        self.rows@[i].deep_view(),
                        roles@,
                        ColumnRole::Front,
                        separator@,
                    )
                    &&& cards@[i].back@ == side_text(
                        self.rows@[i].deep_view(),
                        roles@,
                        ColumnRole::Back,
                        separator@,
                    )
                },
    {
        let mut cards: Vec<Flashcard> = Vec::new();
        let n = self.rows.len();
        let mut i: usize = 0;
        while i < n
            invariant
                i <= n,
                n == self.rows@.len(),
                cards@.len() == i,
                forall|j: int|
                    0 <= j < i ==> {
                        &&& (#[trigger] cards@[j]).front@ == side_text(
                            self.rows@[j].deep_view(),
                            roles@,
                            ColumnRole::Front,
                            separator@,
                        )
                        &&& cards@[j].back@ == side_text(
                            self.rows@[j].deep_view(),
                            roles@,
                            ColumnRole::Back,
                            separator@,
                        )
                    },
            decreases n - i,
        {
            let row = &self.rows[i];
            let front = join_side(row.as_slice(), roles, ColumnRole::Front, separator);
            let back = join_side(row.as_slice(), roles, ColumnRole::Back, separator);
            cards.push(Flashcard { front, back });
            i += 1;
        }
        cards
    }
}

/// Join the cells of `row` whose column has role `want`, in column order.
pub fn join_side(row: &[String], roles: &[ColumnRole], want: ColumnRole, separator: &str) -> (s:
    String)
    ensures
        s@ == side_text(row.deep_view(), roles@, want, separator@),
{
    let mut s = String::new();
    let mut count: usize = 0;
    let mut col: usize = 0;
    while col < roles.len()
        invariant
            col <= roles@.len(),
            count <= col,
            count == selected_cells(row.deep_view(), roles@.take(col as int), want).len(),
            s@ == join(selected_cells(row.deep_view(), roles@.take(col as int), want), separator@),
        decreases roles.len() - col,
    {
        let ghost prev = selected_cells(row.deep_view(), roles@.take(col as int), want);
        assert(roles@.take(col + 1).drop_last() =~= roles@.take(col as int));
        if roles[col] == want && col < row.len() {
            let ghost cell = row.deep_view()[col as int];
            if count > 0 {
                s.append(separator);
            }
            s.append(row[col].as_str());
            proof {
                let next = prev.push(cell);
                assert(next.drop_last() =~= prev);
                if prev.len() == 0 {
                    assert(join(next, separator@) == cell);
                    assert(s@ =~= cell);
                }
            }
            count = count + 1;
        }
        col += 1;
    }
    assert(roles@.take(roles.len() as int) =~= roles@);
    s
}

} // verus!

verus! {

/// Under the default mapping the front is a row's first cell and the back its
/// second: the same cards as reading the first two fields of each record.
pub proof fn lemma_default_roles_take_first_two_cells(
    row: Seq<Seq<char>>,
    roles: Seq<ColumnRole>,
    sep: Seq<char>,
)
    requires
        roles.len() >= 2,
        row.len() >= 2,
        forall|i: int| 0 <= i < roles.len() ==> #[trigger] roles[i] == default_role(i),
    ensures
        side_text(row, roles, ColumnRole::Front, sep) == row[0],
        side_text(row, roles, ColumnRole::Back, sep) == row[1],
{
    lemma_default_selection(row, roles);
}

proof fn lemma_default_selection(row: Seq<Seq<char>>, roles: Seq<ColumnRole>)
    requires
        row.len() >= 2,
        forall|i: int| 0 <= i < roles.len() ==> #[trigger] roles[i] == default_role(i),
    ensures
        selected_cells(row, roles, ColumnRole::Front) == (if roles.len() >= 1 {
            seq![row[0]]
        } else {
            Seq::empty()
        }),
        selected_cells(row, roles, ColumnRole::Back) == (if roles.len() >= 2 {
            seq![row[1]]
        } else {
            Seq::empty()
        }),
    decreases roles.len(),
{
    if roles.len() > 0 {
        let prev = roles.drop_last();
        assert forall|i: int| 0 <= i < prev.len() implies #[trigger] prev[i] == default_role(i) by {
            assert(prev[i] == roles[i]);
        }
        lemma_default_selection(row, prev);
        assert(roles.last() == default_role(roles.len() - 1));
        if roles.len() == 1 {
            assert(Seq::<Seq<char>>::empty().push(row[0]) =~= seq![row[0]]);
        } else if roles.len() == 2 {
            assert(Seq::<Seq<char>>::empty().push(row[1]) =~= seq![row[1]]);
        }
    }
}

} // verus!
