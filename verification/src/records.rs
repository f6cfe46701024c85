//! Reading cards from CSV/TSV text.
use vstd::prelude::*;

use crate::cards::{Flashcard, FlashcardWarning};

verus! {

/// The records the `csv` crate reads from `text` with the given delimiter,
/// header handling and flexible record lengths: per record its fields, or
/// `None` for a record the reader reported as an error.
pub uninterp spec fn csv_records(text: Seq<char>, delimiter: u8, has_headers: bool) -> Seq<
    Option<Seq<Seq<char>>>,
>;

/// Reads `text` with `csv::ReaderBuilder` (the given delimiter and header
/// flag, flexible record lengths) and collects each record's fields. The
/// contract only names the result: how the `csv` crate splits and unquotes
/// fields is its own.
#[verifier::external_body]
fn read_csv_records(text: &str, delimiter: u8, has_headers: bool) -> (records: Vec<
    Option<Vec<String>>,
>)
    ensures
        records.deep_view() == csv_records(text@, delimiter, has_headers),
{
    let mut reader = csv::ReaderBuilder::new().delimiter(delimiter).has_headers(
        has_headers,
    ).flexible(true).from_reader(text.as_bytes());
    reader.records().map(|r| r.ok().map(|rec| rec.iter().map(String::from).collect())).collect()
}

/// The cards a sequence of records yields: the first two fields of each
/// readable record with at least two fields.
pub open spec fn record_cards(recs: Seq<Option<Seq<Seq<char>>>>) -> Seq<(Seq<char>, Seq<char>)>
    decreases recs.len(),
{
    if recs.len() == 0 {
        Seq::empty()
    } else {
        let prev = record_cards(recs.drop_last());
        match recs.last() {
            Some(fields) => if fields.len() >= 2 {
                prev.push((fields[0], fields[1]))
            } else {
                prev
            },
            None => prev,
        }
    }
}

/// The 1-based row number reported for record `i`.
pub open spec fn row_number(i: int, offset: int) -> int {
    if i + offset <= usize::MAX {
        i + offset
    } else {
        usize::MAX as int
    }
}

/// A skip warning for each readable record with fewer than two fields.
pub open spec fn record_skips(recs: Seq<Option<Seq<Seq<char>>>>, offset: int) -> Seq<
    FlashcardWarning,
>
    decreases recs.len(),
{
    if recs.len() == 0 {
        Seq::empty()
    } else {
        let prev = record_skips(recs.drop_last(), offset);
        match recs.last() {
            Some(fields) => if fields.len() < 2 {
                prev.push(
                    FlashcardWarning::CsvRowSkipped {
                        row_number: row_number(recs.len() - 1, offset) as usize,
                        column_count: fields.len() as usize,
                    },
                )
            } else {
                prev
            },
            None => prev,
        }
    }
}

/// The warnings for a read: the skipped rows, then `EmptyCsv` when no card
/// came out.
pub open spec fn record_warnings(recs: Seq<Option<Seq<Seq<char>>>>, offset: int) -> Seq<
    FlashcardWarning,
> {
    if record_cards(recs).len() == 0 {
        record_skips(recs, offset).push(FlashcardWarning::EmptyCsv)
    } else {
        record_skips(recs, offset)
    }
}

/// Whether the cards hold exactly the given front/back texts.
pub open spec fn cards_match(cards: Seq<Flashcard>, expect: Seq<(Seq<char>, Seq<char>)>) -> bool {
    &&& cards.len() == expect.len()
    &&& forall|i: int|
        0 <= i < cards.len() ==> (#[trigger] cards[i]).front@ == expect[i].0 && cards[i].back@
            == expect[i].1
}

/// The delimiter pasted text is read with: tab when any line holds one,
/// else comma.
pub open spec fn paste_delimiter(text: Seq<char>) -> u8 {
    if text.contains('\t') {
        9u8
    } else {
        44u8
    }
}

/// Parse flashcards from pasted text (one card per line, `front<delimiter>back`).
///
/// The delimiter is auto-detected: tab if any line contains one, otherwise
/// comma. Every row is data; no header is skipped.
pub fn parse_cards(text: &str) -> (res: (Vec<Flashcard>, Vec<FlashcardWarning>))
    ensures
        cards_match(res.0@, record_cards(csv_records(text@, paste_delimiter(text@), false))),
        res.1@ == record_warnings(csv_records(text@, paste_delimiter(text@), false), 1),
{
    let chars = crate::text::chars_of(text);
    let mut has_tab = false;
    let mut i: usize = 0;
    while i < chars.len()
        invariant
            i <= chars.len(),
            chars@ == text@,
            has_tab == chars@.take(i as int).contains('\t'),
        decreases chars.len() - i,
    {
        proof {
            let p = chars@.take(i as int);
            let q = chars@.take(i + 1);
            assert(q =~= p.push(chars@[i as int]));
            if p.contains('\t') {
                let k = choose|k: int| 0 <= k < p.len() && p[k] == '\t';
                assert(q[k] == '\t');
            }
            if q.contains('\t') && !p.contains('\t') {
                let k = choose|k: int| 0 <= k < q.len() && q[k] == '\t';
                if k < i {
                    assert(p[k] == '\t');
                }
            }
        }
        if chars[i] == '\t' {
            has_tab = true;
            assert(chars@.take(i + 1)[i as int] == '\t');
        }
        i += 1;
    }
    assert(chars@.take(chars.len() as int) =~= text@);
    let delimiter: u8 = if has_tab {
        9
    } else {
        44
    };
    parse_records(text, delimiter, false)
}

/// Shared CSV/TSV parsing used by file loading and pasted text: one card per
/// record with at least two fields; a warning for every shorter record.
pub fn parse_records(text: &str, delimiter: u8, has_headers: bool) -> (res: (
    Vec<Flashcard>,
    Vec<FlashcardWarning>,
))
    ensures
        cards_match(res.0@, record_cards(csv_records(text@, delimiter, has_headers))),
        res.1@ == record_warnings(
            csv_records(text@, delimiter, has_headers),
            if has_headers {
                2
            } else {
                1
            },
        ),
{
    let records = read_csv_records(text, delimiter, has_headers);
    cards_from_records(records.as_slice(), has_headers)
}

/// The cards and warnings of records already read: one card per readable
/// record with at least two fields, a warning (with its 1-based row number,
/// counting the header when there is one) for every shorter one, and
/// `EmptyCsv` last when no card came out. Unreadable records are passed over.
pub fn cards_from_records(records: &[Option<Vec<String>>], has_headers: bool) -> (res: (
    Vec<Flashcard>,
    Vec<FlashcardWarning>,
))
    ensures
        cards_match(res.0@, record_cards(records.deep_view())),
        res.1@ == record_warnings(
            records.deep_view(),
            if has_headers {
                2
            } else {
                1
            },
        ),
{
    let ghost recs = records.deep_view();
    let row_offset: usize = if has_headers {
        2
    } else {
        1
    };
    let mut cards: Vec<Flashcard> = Vec::new();
    let mut warnings: Vec<FlashcardWarning> = Vec::new();
    let mut i: usize = 0;
    while i < records.len()
        invariant
            i <= records@.len(),
            recs == records.deep_view(),
            recs.len() == records@.len(),
            cards_match(cards@, record_cards(recs.take(i as int))),
            warnings@ == record_skips(recs.take(i as int), row_offset as int),
        decreases records.len() - i,
    {
        assert(recs.take(i + 1).drop_last() =~= recs.take(i as int));
        assert(recs[i as int] == records@[i as int].deep_view());
        let row = i.saturating_add(row_offset);
        match &records[i] {
            Some(fields) => {
                if fields.len() >= 2 {
                    assert(fields.deep_view()[0] == fields@[0]@);
                    assert(fields.deep_view()[1] == fields@[1]@);
                    let front = fields[0].clone();
                    let back = fields[1].clone();
                    cards.push(Flashcard { front, back });
                } else {
                    warnings.push(
                        FlashcardWarning::CsvRowSkipped {
                            row_number: row,
                            column_count: fields.len(),
                        },
                    );
                }
            },
            None => {},
        }
        i += 1;
    }
    assert(recs.take(records.len() as int) =~= recs);
    if cards.len() == 0 {
        warnings.push(FlashcardWarning::EmptyCsv);
    }
    (cards, warnings)
}

/// The readable records.
pub open spec fn readable(recs: Seq<Option<Seq<Seq<char>>>>) -> nat
    decreases recs.len(),
{
    if recs.len() == 0 {
        0
    } else {
        readable(recs.drop_last()) + if recs.last() is Some {
            1nat
        } else {
            0nat
        }
    }
}

/// No readable record is lost: each becomes a card or a skipped-row warning.
pub proof fn lemma_every_record_accounted(recs: Seq<Option<Seq<Seq<char>>>>, offset: int)
    ensures
        record_cards(recs).len() + record_skips(recs, offset).len() == readable(recs),
    decreases recs.len(),
{
    if recs.len() > 0 {
        lemma_every_record_accounted(recs.drop_last(), offset);
    }
}

} // verus!
