//! A production summary for a flashcard layout: how many sheets a deck fills,
//! how many slots go unused, and what page sequence the PDF holds.
use vstd::prelude::*;

use crate::cards::FlashcardWarning;
use crate::options::Duplex;

verus! {

/// A summary of how a given card count lays out.
#[derive(Debug, Clone, PartialEq, Eq)]
pub struct FlashcardSummary {
    /// Total number of cards.
    pub card_count: usize,
    /// Cards that fit on one sheet (`rows x columns`, at least 1).
    pub cards_per_sheet: usize,
    /// Physical sheets of paper needed.
    pub sheet_count: usize,
    /// PDF pages produced (`sheet_count`, doubled when two-sided).
    pub pdf_page_count: usize,
    /// Unused card slots on the final sheet.
    pub leftover_slots: usize,
    /// Whether backs are printed.
    pub double_sided: bool,
    /// Layout-fit warnings.
    pub warnings: Vec<FlashcardWarning>,
}

/// Slots per sheet: `rows x columns`, never below one.
pub open spec fn slots_per_sheet(rows: nat, columns: nat) -> nat {
    if rows * columns == 0 {
        1
    } else {
        rows * columns
    }
}

/// Sheets needed for `cards` cards at `per` per sheet: `cards / per` rounded up.
pub open spec fn sheets_for(cards: nat, per: nat) -> nat
    recommends
        per > 0,
{
    if cards % per == 0 {
        cards / per
    } else {
        cards / per + 1
    }
}

/// PDF pages each sheet contributes.
pub open spec fn sides(duplex: Duplex) -> nat {
    if duplex == Duplex::OneSided {
        1
    } else {
        2
    }
}

/// Unused slots on the last sheet.
pub open spec fn leftover(cards: nat, per: nat) -> nat
    recommends
        per > 0,
{
    if cards == 0 {
        0
    } else {
        ((per - 1) - ((cards - 1) as nat) % per) as nat
    }
}

/// The fit warnings, wider before taller.
pub open spec fn fit_warnings(wider: bool, taller: bool) -> Seq<FlashcardWarning> {
    let w = if wider {
        seq![FlashcardWarning::GridWiderThanPrintable]
    } else {
        Seq::empty()
    };
    if taller {
        w.push(FlashcardWarning::GridTallerThanPrintable)
    } else {
        w
    }
}

/// Whether the page count of a layout fits a `usize`.
pub open spec fn summary_fits(rows: usize, columns: usize, duplex: Duplex, card_count: usize) -> bool {
    &&& rows * columns <= usize::MAX
    &&& sides(duplex) * sheets_for(card_count as nat, slots_per_sheet(rows as nat, columns as nat))
        <= usize::MAX
}

/// Summarize how `card_count` cards lay out on a `rows x columns` grid.
/// `grid_wider` / `grid_taller` say whether the grid overflows the printable
/// width / height (measured by the caller in millimetres).
pub fn summarize(
    rows: usize,
    columns: usize,
    duplex: Duplex,
    card_count: usize,
    grid_wider: bool,
    grid_taller: bool,
) -> (s: FlashcardSummary)
    requires
        summary_fits(rows, columns, duplex, card_count),
    ensures
        s.card_count == card_count,
        s.cards_per_sheet == slots_per_sheet(rows as nat, columns as nat),
        s.sheet_count == sheets_for(card_count as nat, s.cards_per_sheet as nat),
        s.pdf_page_count == s.sheet_count * sides(duplex),
        s.leftover_slots == leftover(card_count as nat, s.cards_per_sheet as nat),
        s.double_sided == (duplex != Duplex::OneSided),
        s.warnings@ == fit_warnings(grid_wider, grid_taller),
{
    let product = rows * columns;
    let cards_per_sheet = if product == 0 {
        1
    } else {
        product
    };
    let sheet_count = if card_count % cards_per_sheet == 0 {
        card_count / cards_per_sheet
    } else {
        card_count / cards_per_sheet + 1
    };
    let double_sided = duplex.is_double_sided();
    let pdf_page_count = if double_sided {
        sheet_count * 2
    } else {
        sheet_count
    };
    let leftover_slots = if card_count == 0 {
        0
    } else {
        (cards_per_sheet - 1) - (card_count - 1) % cards_per_sheet
    };
    let mut warnings: Vec<FlashcardWarning> = Vec::new();
    if grid_wider {
        warnings.push(FlashcardWarning::GridWiderThanPrintable);
    }
    if grid_taller {
        warnings.push(FlashcardWarning::GridTallerThanPrintable);
    }
    assert(warnings@ =~= fit_warnings(grid_wider, grid_taller));
    FlashcardSummary {
        card_count,
        cards_per_sheet,
        sheet_count,
        pdf_page_count,
        leftover_slots,
        double_sided,
        warnings,
    }
}

/// The sheets a summary counts are exactly enough for its cards: they hold
/// every card, one sheet fewer would not, and the unused slots are what the
/// sheets hold beyond the cards.
pub proof fn lemma_sheets_hold_cards(cards: nat, per: nat)
    requires
        per > 0,
    ensures
        sheets_for(cards, per) * per >= cards,
        cards > 0 ==> (sheets_for(cards, per) - 1) * per < cards,
        leftover(cards, per) == sheets_for(cards, per) * per - cards,
        leftover(cards, per) < per,
{
    let q = cards / per;
    let r = cards % per;
    assert(cards == q * per + r) by (nonlinear_arith)
        requires
            per > 0,
            q == cards / per,
            r == cards % per,
    ;
    assert(0 <= r < per);
    if cards > 0 {
        let q1 = ((cards - 1) as nat) / per;
        let r1 = ((cards - 1) as nat) % per;
        assert((cards - 1) as nat == q1 * per + r1) by (nonlinear_arith)
            requires
                per > 0,
                q1 == ((cards - 1) as nat) / per,
                r1 == ((cards - 1) as nat) % per,
        ;
        if r == 0 {
            // cards = q * per, cards - 1 = (q - 1) * per + (per - 1)
            assert(q >= 1) by (nonlinear_arith)
                requires
                    cards == q * per + r,
                    r == 0,
                    cards > 0,
                    per > 0,
            ;
            assert((q - 1) * per == q * per - per) by (nonlinear_arith);
            assert(cards - 1 == (q - 1) * per + (per - 1));
            vstd::arithmetic::div_mod::lemma_fundamental_div_mod_converse(
                (cards - 1) as int,
                per as int,
                (q - 1) as int,
                (per - 1) as int,
            );
            assert((q - 1) * per < cards) by (nonlinear_arith)
                requires
                    cards == q * per,
                    per > 0,
            ;
        } else {
            // cards - 1 = q * per + (r - 1)
            vstd::arithmetic::div_mod::lemma_fundamental_div_mod_converse(
                (cards - 1) as int,
                per as int,
                q as int,
                (r - 1) as int,
            );
            assert((q + 1) * per == q * per + per) by (nonlinear_arith);
        }
    }
}

/// A `rows x columns` sheet slot, with the card drawn in it.
#[derive(Debug, Clone, Copy, PartialEq, Eq, Structural)]
pub struct CardSlot {
    /// Index of the card in the deck.
    pub card: usize,
    /// Grid row, counted from the top of the page.
    pub row: usize,
    /// Grid column, counted from the left of the page.
    pub column: usize,
}

/// One PDF page: which side of a sheet it prints, and the cards on it.
#[derive(Debug, Clone, PartialEq, Eq)]
pub struct PagePlan {
    /// The sheet the page belongs to.
    pub sheet: usize,
    /// Whether the page prints card backs.
    pub back: bool,
    /// The cards on the page, in deck order.
    pub slots: Vec<CardSlot>,
}

/// The cards of `sheet`, filled row by row.
pub open spec fn sheet_slots(card_count: nat, columns: nat, per: nat, sheet: nat) -> Seq<CardSlot>
    recommends
        columns > 0,
        per > 0,
{
    let first = sheet * per;
    let n = if card_count - first < per {
        card_count - first
    } else {
        per as int
    };
    Seq::new(
        n as nat,
        |i: int|
            CardSlot {
                card: (first + i) as usize,
                row: (i / columns as int) as usize,
                column: (i % columns as int) as usize,
            },
    )
}

/// Whether `pages` is the page sequence for the deck: per sheet its front
/// page, then (two-sided) its back page, each holding that sheet's cards.
pub open spec fn is_page_plan(
    pages: Seq<PagePlan>,
    card_count: nat,
    rows: nat,
    columns: nat,
    duplex: Duplex,
) -> bool {
    let per = slots_per_sheet(rows, columns);
    &&& pages.len() == sheets_for(card_count, per) * sides(duplex)
    &&& forall|p: int|
        0 <= p < pages.len() ==> {
            &&& (#[trigger] pages[p]).sheet == p / sides(duplex) as int
            &&& pages[p].back == (p % sides(duplex) as int == 1)
            &&& pages[p].slots@ == sheet_slots(card_count, columns, per, (p / sides(duplex) as int) as nat)
        }
}

/// Plan the PDF's pages: cards fill sheets of `rows x columns` in deck order,
/// row by row; each sheet gives a front page and, unless one-sided, a back
/// page holding the same cards (drawn mirrored by the caller).
pub fn plan_pages(card_count: usize, rows: usize, columns: usize, duplex: Duplex) -> (pages: Vec<
    PagePlan,
>)
    requires
        rows > 0,
        columns > 0,
        summary_fits(rows, columns, duplex, card_count),
    ensures
        is_page_plan(pages@, card_count as nat, rows as nat, columns as nat, duplex),
{
    let per = rows * columns;
    let double_sided = duplex.is_double_sided();
    let ghost n_sides = sides(duplex);
    let ghost total = sheets_for(card_count as nat, per as nat);
    proof {
        assert(per > 0) by (nonlinear_arith)
            requires
                rows > 0,
                columns > 0,
                per == rows * columns,
        ;
        lemma_sheets_hold_cards(card_count as nat, per as nat);
        if card_count > 0 {
            assert(total > 0) by (nonlinear_arith)
                requires total * per >= card_count, card_count > 0;
        }
    }
    let mut pages: Vec<PagePlan> = Vec::new();
    let mut sheet: usize = 0;
    let mut first: usize = 0;
    while first < card_count
        invariant
            per == rows * columns,
            per > 0,
            columns > 0,
            n_sides == sides(duplex),
            double_sided == (duplex != Duplex::OneSided),
            total == sheets_for(card_count as nat, per as nat),
            total * per >= card_count,
            card_count > 0 ==> (total - 1) * per < card_count,
            first <= card_count,
            first < card_count ==> first == sheet * per && sheet < total,
            first == card_count ==> sheet == total,
            n_sides * total <= usize::MAX,
            pages@.len() == sheet * n_sides,
            forall|p: int|
                0 <= p < pages@.len() ==> {
                    &&& (#[trigger] pages@[p]).sheet == p / n_sides as int
                    &&& pages@[p].back == (p % n_sides as int == 1)
                    &&& pages@[p].slots@ == sheet_slots(
                        card_count as nat,
                        columns as nat,
                        per as nat,
                        (p / n_sides as int) as nat,
                    )
                },
        decreases card_count - first,
    {
        let remaining = card_count - first;
        let count = if remaining < per {
            remaining
        } else {
            per
        };
        let mut slots: Vec<CardSlot> = Vec::new();
        let mut i: usize = 0;
        while i < count
            invariant
                i <= count,
                count <= per,
                first + count <= card_count,
                columns > 0,
                slots@.len() == i,
                forall|k: int|
                    0 <= k < i ==> #[trigger] slots@[k] == (CardSlot {
                        card: (first + k) as usize,
                        row: (k / columns as int) as usize,
                        column: (k % columns as int) as usize,
                    }),
            decreases count - i,
        {
            slots.push(CardSlot { card: first + i, row: i / columns, column: i % columns });
            i += 1;
        }
        proof {
            assert(slots@ =~= sheet_slots(card_count as nat, columns as nat, per as nat, sheet as nat));
        }
        let ghost before = pages@;
        if double_sided {
            let back_slots = slots.clone();
            assert(back_slots@ == slots@);
            pages.push(PagePlan { sheet, back: false, slots });
            pages.push(PagePlan { sheet, back: true, slots: back_slots });
        } else {
            pages.push(PagePlan { sheet, back: false, slots });
        }
        proof {
            assert forall|p: int| 0 <= p < pages@.len() implies {
                &&& (#[trigger] pages@[p]).sheet == p / n_sides as int
                &&& pages@[p].back == (p % n_sides as int == 1)
                &&& pages@[p].slots@ == sheet_slots(
                    card_count as nat,
                    columns as nat,
                    per as nat,
                    (p / n_sides as int) as nat,
                )
            } by {
                if p >= before.len() {
                    let j = p - before.len();
                    assert(before.len() == sheet * n_sides);
                    assert(p / n_sides as int == sheet && p % n_sides as int == j) by (nonlinear_arith)
                        requires
                            p == sheet * n_sides + j,
                            0 <= j < n_sides,
                    ;
                } else {
                    assert(pages@[p] == before[p]);
                }
            }
            assert(sheet + 1 <= total);
            assert((sheet + 1) * n_sides <= n_sides * total) by (nonlinear_arith)
                requires sheet + 1 <= total, n_sides >= 1;
            assert((sheet + 1) * per == first + per) by (nonlinear_arith)
                requires first == sheet * per;
            if remaining > per {
                assert(sheet + 1 < total) by (nonlinear_arith)
                    requires
                        total * per >= card_count,
                        (sheet + 1) * per < card_count,
                        per > 0,
                ;
            } else {
                assert(sheet + 1 >= total) by (nonlinear_arith)
                    requires
                        total * per >= card_count,
                        (sheet + 1) * per >= card_count,
                        (total - 1) * per < card_count,
                        per > 0,
                ;
            }
        }
        sheet = sheet + 1;
        first = if remaining <= per { card_count } else { first + per };
    }
    pages
}

} // verus!

verus! {

/// The page on which card `c` is printed (its back when `back`).
pub open spec fn page_of_card(c: nat, per: nat, duplex: Duplex, back: bool) -> int {
    (c / per) as int * sides(duplex) as int + if back {
        1int
    } else {
        0int
    }
}

/// Every card of the deck is printed exactly once on a front page and, when
/// two-sided, exactly once on a back page: in slot `c % per` of the page of
/// sheet `c / per`.
pub proof fn lemma_plan_places_each_card_once(
    pages: Seq<PagePlan>,
    card_count: nat,
    rows: nat,
    columns: nat,
    duplex: Duplex,
    c: nat,
    back: bool,
)
    requires
        is_page_plan(pages, card_count, rows, columns, duplex),
        card_count <= usize::MAX,
        c < card_count,
        back ==> duplex != Duplex::OneSided,
    ensures
        ({
            let per = slots_per_sheet(rows, columns);
            let p = page_of_card(c, per, duplex, back);
            &&& 0 <= p < pages.len()
            &&& pages[p].back == back
            &&& c % per < pages[p].slots@.len()
            &&& pages[p].slots@[(c % per) as int].card == c
        }),
        forall|p: int, i: int|
            0 <= p < pages.len() && 0 <= i < pages[p].slots@.len() && pages[p].back == back
                && (#[trigger] pages[p].slots@[i]).card == c ==> p == page_of_card(
                c,
                slots_per_sheet(rows, columns),
                duplex,
                back,
            ) && i == c % slots_per_sheet(rows, columns),
{
    let per = slots_per_sheet(rows, columns);
    let n = sides(duplex);
    let b: int = if back {
        1
    } else {
        0
    };
    let q = c / per;
    let r = c % per;
    assert(per > 0) by (nonlinear_arith)
        requires
            per == slots_per_sheet(rows, columns),
    ;
    vstd::arithmetic::div_mod::lemma_fundamental_div_mod(c as int, per as int);
    assert(c == q * per + r);
    lemma_sheets_hold_cards(card_count, per);
    let total = sheets_for(card_count, per);
    assert(q < total) by (nonlinear_arith)
        requires
            c == q * per + r,
            0 <= r,
            c < card_count,
            total * per >= card_count,
            per > 0,
    ;
    let p = page_of_card(c, per, duplex, back);
    assert(p == q * n + b);
    assert(0 <= b < n);
    assert(p / n as int == q && p % n as int == b) by (nonlinear_arith)
        requires
            p == q * n + b,
            0 <= b < n,
    ;
    assert(p < pages.len()) by (nonlinear_arith)
        requires
            p == q * n + b,
            0 <= b < n,
            q < total,
            pages.len() == total * n,
    ;
    assert(pages[p].slots@ == sheet_slots(card_count, columns, per, q));
    assert(q * per + r < card_count);
    assert(pages[p].slots@[r as int].card == (q * per + r) as usize);
    assert forall|p2: int, i: int|
        0 <= p2 < pages.len() && 0 <= i < pages[p2].slots@.len() && pages[p2].back == back
            && (#[trigger] pages[p2].slots@[i]).card == c implies p2 == p && i == r by {
        let s2 = p2 / n as int;
        let b2 = p2 % n as int;
        vstd::arithmetic::div_mod::lemma_fundamental_div_mod(p2, n as int);
        assert(p2 == s2 * n + b2);
        assert(pages[p2].slots@ == sheet_slots(card_count, columns, per, s2 as nat));
        let first = s2 * per;
        assert(0 <= first) by (nonlinear_arith)
            requires
                s2 >= 0,
                per > 0,
                first == s2 * per,
        ;
        assert(s2 < total) by (nonlinear_arith)
            requires
                p2 == s2 * n + b2,
                0 <= b2 < n,
                p2 < total * n,
        ;
        assert(first < card_count) by (nonlinear_arith)
            requires
                first == s2 * per,
                0 <= s2 < total,
                (total - 1) * per < card_count,
                per > 0,
        ;
        assert(pages[p2].slots@.len() == if card_count - first < per {
            card_count - first
        } else {
            per as int
        });
        assert(i < per);
        assert(first + i < card_count);
        assert(first + i == c);
        vstd::arithmetic::div_mod::lemma_fundamental_div_mod_converse(c as int, per as int, s2, i);
        assert(s2 == q && i == r);
        assert(b2 == b);
    }
}

} // verus!

verus! {

/// A summary and a page plan of the same layout agree: the plan has the
/// summary's page count, its pages belong to the summary's sheets, and the
/// last page holds the sheet's slots less the summary's leftover slots.
pub proof fn lemma_plan_matches_summary(
    pages: Seq<PagePlan>,
    s: FlashcardSummary,
    rows: nat,
    columns: nat,
    duplex: Duplex,
)
    requires
        is_page_plan(pages, s.card_count as nat, rows, columns, duplex),
        s.cards_per_sheet == slots_per_sheet(rows, columns),
        s.sheet_count == sheets_for(s.card_count as nat, s.cards_per_sheet as nat),
        s.pdf_page_count == s.sheet_count * sides(duplex),
        s.leftover_slots == leftover(s.card_count as nat, s.cards_per_sheet as nat),
    ensures
        pages.len() == s.pdf_page_count,
        forall|p: int| 0 <= p < pages.len() ==> (#[trigger] pages[p]).sheet < s.sheet_count,
        s.card_count > 0 ==> pages.last().slots@.len() + s.leftover_slots == s.cards_per_sheet,
{
    let per = s.cards_per_sheet as nat;
    let n = sides(duplex);
    let total = s.sheet_count as nat;
    let cards = s.card_count as nat;
    assert(per > 0);
    lemma_sheets_hold_cards(cards, per);
    assert forall|p: int| 0 <= p < pages.len() implies (#[trigger] pages[p]).sheet < s.sheet_count by {
        assert(p / (n as int) < total) by (nonlinear_arith)
            requires
                0 <= p < total * n,
                n > 0,
        ;
    }
    if cards > 0 {
        let p = pages.len() - 1;
        assert(total > 0) by (nonlinear_arith)
            requires
                total * per >= cards,
                cards > 0,
        ;
        assert(p / n as int == total - 1) by (nonlinear_arith)
            requires
                p == total * n - 1,
                n > 0,
                total > 0,
        ;
        let first = (total - 1) * per;
        assert(0 <= first < cards) by (nonlinear_arith)
            requires
                first == (total - 1) * per,
                total > 0,
                (total - 1) * per < cards,
                per > 0,
        ;
        assert(cards - first <= per) by (nonlinear_arith)
            requires
                first == (total - 1) * per,
                total * per >= cards,
        ;
        assert(pages[p].slots@ == sheet_slots(cards, columns, per, (total - 1) as nat));
        assert(leftover(cards, per) == total * per - cards);
        assert(total * per == first + per) by (nonlinear_arith)
            requires
                first == (total - 1) * per,
        ;
    }
}

} // verus!

verus! {

/// Whether a layout's counts fit a `usize` (`summary_fits`), computed, so a
/// caller can check before summarizing.
pub fn layout_counts_fit(rows: usize, columns: usize, duplex: Duplex, card_count: usize) -> (b: bool)
    ensures
        b == summary_fits(rows, columns, duplex, card_count),
{
    let product = match rows.checked_mul(columns) {
        Some(p) => p,
        None => return false,
    };
    let per = if product == 0 {
        1
    } else {
        product
    };
    assert(per == slots_per_sheet(rows as nat, columns as nat));
    if card_count % per != 0 {
        assert(per >= 2);
        assert(card_count / per < usize::MAX) by (nonlinear_arith)
            requires
                per >= 2,
                card_count <= usize::MAX,
        ;
    }
    let sheets = if card_count % per == 0 {
        card_count / per
    } else {
        card_count / per + 1
    };
    assert(sheets == sheets_for(card_count as nat, per as nat));
    assert(product == rows * columns);
    if duplex.is_double_sided() {
        let r = sheets.checked_mul(2);
        assert(r.is_some() == (sheets * 2 <= usize::MAX));
        assert(sides(duplex) == 2);
        r.is_some()
    } else {
        assert(sides(duplex) == 1);
        true
    }
}

} // verus!
