use print_junk::cards::{Flashcard, FlashcardError, FlashcardWarning};
use print_junk::options::{validate_layout, DimensionChecks, Duplex, MeasurementSystem};
use print_junk::records::{cards_from_records, parse_cards, parse_records};
use print_junk::summary::{plan_pages, summarize};
use print_junk::table::{join_side, ColumnRole, CsvTable};

#[test]
fn parses_comma_separated_paste() {
    let (cards, _) = parse_cards("hello,world\nfoo,bar");
    assert_eq!(cards.len(), 2);
    assert_eq!(cards[0].front, "hello");
    assert_eq!(cards[0].back, "world");
    assert_eq!(cards[1].back, "bar");
}

#[test]
fn parses_tab_separated_paste() {
    let (cards, _) = parse_cards("hello\tworld\nfoo\tbar");
    assert_eq!(cards.len(), 2);
    assert_eq!(cards[0].back, "world");
}

#[test]
fn paste_keeps_first_row() {
    let (cards, _) = parse_cards("first,card\nsecond,card");
    assert_eq!(cards.len(), 2);
    assert_eq!(cards[0].front, "first");
}

#[test]
fn paste_handles_quoted_commas() {
    let (cards, _) = parse_cards("\"a, b\",\"c, d\"");
    assert_eq!(cards.len(), 1);
    assert_eq!(cards[0].front, "a, b");
    assert_eq!(cards[0].back, "c, d");
}

#[test]
fn empty_input_warns() {
    let (cards, warnings) = parse_cards("");
    assert!(cards.is_empty());
    assert!(warnings.iter().any(|w| matches!(w, FlashcardWarning::EmptyCsv)));
}

#[test]
fn single_column_row_is_skipped() {
    let (cards, warnings) = parse_cards("lonely");
    assert!(cards.is_empty());
    assert!(warnings.iter().any(|w| matches!(
        w,
        FlashcardWarning::CsvRowSkipped {
            column_count: 1,
            ..
        }
    )));
}

#[test]
fn file_rows_skip_the_header_and_number_from_two() {
    let (cards, warnings) = parse_records("front,back\nx,y\nlonely\n", b',', true);
    assert_eq!(cards.len(), 1);
    assert_eq!(cards[0].front, "x");
    assert_eq!(cards[0].back, "y");
    assert_eq!(
        warnings,
        vec![FlashcardWarning::CsvRowSkipped { row_number: 3, column_count: 1 }]
    );
}

#[test]
fn only_short_rows_warn_then_report_empty() {
    let (cards, warnings) = parse_cards("a\nb");
    assert!(cards.is_empty());
    assert_eq!(
        warnings,
        vec![
            FlashcardWarning::CsvRowSkipped { row_number: 1, column_count: 1 },
            FlashcardWarning::CsvRowSkipped { row_number: 2, column_count: 1 },
            FlashcardWarning::EmptyCsv,
        ]
    );
}

#[test]
fn a_tab_anywhere_makes_tab_the_delimiter() {
    let (cards, _) = parse_cards("a,b\nc\td");
    assert_eq!(cards.len(), 1);
    assert_eq!(cards[0].front, "c");
    assert_eq!(cards[0].back, "d");
}

#[test]
fn records_already_read_become_cards_and_warnings() {
    let records = vec![
        Some(vec!["one".to_string(), "uno".to_string(), "extra".to_string()]),
        None,
        Some(vec!["solo".to_string()]),
        Some(vec!["two".to_string(), "dos".to_string()]),
    ];
    let (cards, warnings) = cards_from_records(&records, false);
    assert_eq!(cards.len(), 2);
    assert_eq!((cards[0].front.as_str(), cards[0].back.as_str()), ("one", "uno"));
    assert_eq!((cards[1].front.as_str(), cards[1].back.as_str()), ("two", "dos"));
    assert_eq!(
        warnings,
        vec![FlashcardWarning::CsvRowSkipped { row_number: 3, column_count: 1 }]
    );
    let (none, w) = cards_from_records(&[], true);
    assert!(none.is_empty());
    assert_eq!(w, vec![FlashcardWarning::EmptyCsv]);
}

#[test]
fn warning_messages_read_as_sentences() {
    let w = FlashcardWarning::CsvRowSkipped { row_number: 12, column_count: 1 };
    assert_eq!(w.message(), "Row 12: skipping (has 1 column(s), need >= 2)");
    assert_eq!(FlashcardWarning::EmptyCsv.message(), "No data rows found");
    assert!(FlashcardWarning::GridWiderThanPrintable.message().starts_with("Card grid is wider"));
    assert!(FlashcardWarning::GridTallerThanPrintable.message().starts_with("Card grid is taller"));
}

fn table() -> CsvTable {
    CsvTable {
        columns: vec!["word".into(), "ipa".into(), "meaning".into()],
        rows: vec![
            vec!["chien".into(), "ʃjɛ̃".into(), "dog".into()],
            vec!["chat".into(), "ʃa".into(), "cat".into()],
        ],
    }
}

#[test]
fn default_roles_use_first_two_columns() {
    let t = table();
    assert_eq!(
        t.default_roles(),
        vec![ColumnRole::Front, ColumnRole::Back, ColumnRole::Ignore]
    );
    let cards = t.to_cards(&t.default_roles(), "\n");
    assert_eq!(cards[0].front, "chien");
    assert_eq!(cards[0].back, "ʃjɛ̃");
}

#[test]
fn multiple_columns_per_side_join_with_separator() {
    let t = table();
    let roles = vec![ColumnRole::Front, ColumnRole::Front, ColumnRole::Back];
    let cards = t.to_cards(&roles, "\n");
    assert_eq!(cards[0].front, "chien\nʃjɛ̃");
    assert_eq!(cards[0].back, "dog");
}

#[test]
fn short_rows_and_extra_roles_are_tolerated() {
    let t = CsvTable {
        columns: vec!["a".into(), "b".into()],
        rows: vec![vec!["only-front".into()]],
    };
    let roles = vec![ColumnRole::Front, ColumnRole::Back];
    let cards = t.to_cards(&roles, "\n");
    assert_eq!(cards[0].front, "only-front");
    assert_eq!(cards[0].back, "");
}

#[test]
fn default_roles_of_a_two_column_table_match_record_reading() {
    let t = CsvTable {
        columns: vec!["front".into(), "back".into()],
        rows: vec![vec!["x".into(), "y".into()]],
    };
    let cards: Vec<Flashcard> = t.to_cards(&t.default_roles(), " / ");
    assert_eq!((cards[0].front.as_str(), cards[0].back.as_str()), ("x", "y"));
    assert_eq!(t.to_cards(&[], "-").len(), 1);
}

#[test]
fn join_side_uses_only_the_wanted_role_in_column_order() {
    let row = vec!["a".to_string(), "b".to_string(), "c".to_string()];
    let roles = vec![ColumnRole::Back, ColumnRole::Ignore, ColumnRole::Back, ColumnRole::Back];
    assert_eq!(join_side(&row, &roles, ColumnRole::Back, "+"), "a+c");
    assert_eq!(join_side(&row, &roles, ColumnRole::Front, "+"), "");
}

#[test]
fn counts_sheets_and_leftovers() {
    let s = summarize(2, 2, Duplex::LongEdge, 10, false, false);
    assert_eq!(s.cards_per_sheet, 4);
    assert_eq!(s.sheet_count, 3);
    assert_eq!(s.pdf_page_count, 6);
    assert_eq!(s.leftover_slots, 2);
    assert!(s.double_sided);
}

#[test]
fn exact_fill_has_no_leftovers() {
    let s = summarize(2, 2, Duplex::LongEdge, 8, false, false);
    assert_eq!(s.sheet_count, 2);
    assert_eq!(s.leftover_slots, 0);
}

#[test]
fn empty_deck_is_zero() {
    let s = summarize(2, 2, Duplex::LongEdge, 0, false, false);
    assert_eq!(s.sheet_count, 0);
    assert_eq!(s.pdf_page_count, 0);
    assert_eq!(s.leftover_slots, 0);
}

#[test]
fn one_sided_halves_pages() {
    let s = summarize(2, 2, Duplex::OneSided, 8, false, false);
    assert_eq!(s.sheet_count, 2);
    assert_eq!(s.pdf_page_count, 2);
    assert!(!s.double_sided);
}

#[test]
fn fit_warnings_come_wider_first() {
    let s = summarize(3, 3, Duplex::ShortEdge, 6, true, true);
    assert_eq!(
        s.warnings,
        vec![
            FlashcardWarning::GridWiderThanPrintable,
            FlashcardWarning::GridTallerThanPrintable
        ]
    );
    let none = summarize(0, 5, Duplex::OneSided, 3, false, false);
    assert_eq!(none.cards_per_sheet, 1);
    assert_eq!(none.sheet_count, 3);
    assert!(none.warnings.is_empty());
}

#[test]
fn page_plan_puts_each_card_once_per_side() {
    let pages = plan_pages(5, 1, 2, Duplex::LongEdge);
    assert_eq!(pages.len(), 6);
    let fronts: Vec<usize> = pages
        .iter()
        .filter(|p| !p.back)
        .flat_map(|p| p.slots.iter().map(|s| s.card))
        .collect();
    let backs: Vec<usize> = pages
        .iter()
        .filter(|p| p.back)
        .flat_map(|p| p.slots.iter().map(|s| s.card))
        .collect();
    assert_eq!(fronts, vec![0, 1, 2, 3, 4]);
    assert_eq!(backs, vec![0, 1, 2, 3, 4]);
    assert_eq!((pages[3].sheet, pages[3].back), (1, true));
    assert_eq!((pages[2].slots[1].row, pages[2].slots[1].column), (0, 1));
    let s = summarize(1, 2, Duplex::LongEdge, 5, false, false);
    assert_eq!(pages.last().unwrap().slots.len() + s.leftover_slots, s.cards_per_sheet);
    let one = plan_pages(3, 2, 1, Duplex::OneSided);
    assert_eq!(one.len(), 2);
    assert_eq!(one[0].slots.len(), 2);
    assert_eq!((one[0].slots[1].row, one[0].slots[1].column), (1, 0));
    assert!(plan_pages(0, 2, 2, Duplex::ShortEdge).is_empty());
}

#[test]
fn layout_checks_report_the_first_failure() {
    let ok = DimensionChecks {
        card_width_positive: true,
        card_height_positive: true,
        font_size_positive: true,
        page_positive: true,
    };
    assert!(validate_layout(2, 3, ok).is_ok());
    match validate_layout(0, 0, ok) {
        Err(FlashcardError::Pdf(m)) => assert_eq!(m, "rows must be at least 1"),
        _ => panic!("expected a layout error"),
    }
    match validate_layout(1, 0, ok) {
        Err(FlashcardError::Pdf(m)) => assert_eq!(m, "columns must be at least 1"),
        _ => panic!("expected a layout error"),
    }
    let bad_font = DimensionChecks { font_size_positive: false, page_positive: false, ..ok };
    match validate_layout(1, 1, bad_font) {
        Err(FlashcardError::Pdf(m)) => assert_eq!(m, "font size must be positive"),
        _ => panic!("expected a layout error"),
    }
    let bad_width = DimensionChecks { card_width_positive: false, ..ok };
    match validate_layout(1, 1, bad_width) {
        Err(FlashcardError::Pdf(m)) => assert_eq!(m, "card width must be positive"),
        _ => panic!("expected a layout error"),
    }
    let bad_height = DimensionChecks { card_height_positive: false, ..ok };
    match validate_layout(1, 1, bad_height) {
        Err(FlashcardError::Pdf(m)) => assert_eq!(m, "card height must be positive"),
        _ => panic!("expected a layout error"),
    }
    let bad_page = DimensionChecks { page_positive: false, ..ok };
    match validate_layout(1, 1, bad_page) {
        Err(FlashcardError::Pdf(m)) => assert_eq!(m, "page dimensions must be positive"),
        _ => panic!("expected a layout error"),
    }
}

#[test]
fn units_have_short_labels() {
    assert_eq!(MeasurementSystem::Inches.name(), "in");
    assert_eq!(MeasurementSystem::Millimeters.name(), "mm");
    assert_eq!(MeasurementSystem::Points.name(), "pt");
    assert!(Duplex::ShortEdge.is_double_sided());
    assert!(!Duplex::OneSided.is_double_sided());
}

#[test]
fn flags_overflowing_grid() {
    let s = summarize(2, 3, Duplex::LongEdge, 6, true, false);
    assert!(s.warnings.contains(&FlashcardWarning::GridWiderThanPrintable));
}
