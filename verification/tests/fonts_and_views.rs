use std::collections::BTreeMap;
use std::path::PathBuf;

use print_junk::cards::Flashcard;
use print_junk::fonts::{build_tounicode_cmap, collect_glyphs, encode_text_hex};
use print_junk::typeset::{ImportStats, InputFormat};
use print_junk::table::{ColumnRole, CsvTable};
use print_junk::views::{default_import_kind, import_stats_summary, CardSource, FileListEditor, SizingMode};

const HEADER: &str = "/CIDInit /ProcSet findresource begin\n12 dict begin\nbegincmap\n/CIDSystemInfo << /Registry (Adobe) /Ordering (UCS) /Supplement 0 >> def\n/CMapName /Adobe-Identity-UCS def\n/CMapType 2 def\n1 begincodespacerange\n<0000> <FFFF>\nendcodespacerange\n";
const FOOTER: &str = "endcmap\nCMapName currentdict /CMap defineresource pop\nend end\n";

#[test]
fn cmap_maps_glyphs_to_utf16() {
    let mut glyphs = BTreeMap::new();
    glyphs.insert(0x1F2u16, ('\u{1F600}', 1000u16));
    glyphs.insert(0x24u16, ('A', 600u16));
    let cmap = build_tounicode_cmap(&glyphs);
    let expected = format!(
        "{HEADER}2 beginbfchar\n<0024> <0041>\n<01F2> <D83DDE00>\nendbfchar\n{FOOTER}"
    );
    assert_eq!(cmap, expected);
}

#[test]
fn cmap_blocks_hold_at_most_a_hundred_entries() {
    let glyphs: BTreeMap<u16, (char, u16)> = (0..150u16).rev().map(|i| (i, ('x', 0u16))).collect();
    let cmap = build_tounicode_cmap(&glyphs);
    assert_eq!(cmap.matches("beginbfchar").count(), 2);
    assert!(cmap.contains("100 beginbfchar\n<0000> <0078>\n"));
    assert!(cmap.contains("endbfchar\n50 beginbfchar\n<0064> <0078>\n"));
    assert_eq!(build_tounicode_cmap(&BTreeMap::new()), format!("{HEADER}{FOOTER}"));
}

#[test]
fn text_without_a_usable_font_draws_notdef() {
    let font = b"not a font".to_vec();
    assert_eq!(encode_text_hex("ab", &font), "00000000");
    assert_eq!(encode_text_hex("", &font), "");
    let cards = vec![Flashcard { front: "hi".to_string(), back: "there".to_string() }];
    assert!(collect_glyphs(&cards, &font).is_empty());
}

#[test]
fn import_summary_lists_what_is_present() {
    let mut s = ImportStats::default();
    s.images_ok = 3;
    assert_eq!(import_stats_summary(&s), "3 figures");
    s.images_failed = 2;
    s.citations = 7;
    assert_eq!(import_stats_summary(&s), "3 figures (2 unresolved), 7 citations");
    s.math_tex = 1;
    s.math_raw = 4;
    assert_eq!(
        import_stats_summary(&s),
        "math 1 native/0 image/4 raw, 3 figures (2 unresolved), 7 citations"
    );
}

#[test]
fn restored_imports_default_to_html() {
    assert_eq!(default_import_kind(), InputFormat::Html);
    assert_ne!(SizingMode::Grid, SizingMode::CardSize);
}

#[test]
fn file_list_moves_and_removes_entries() {
    let mut files: Vec<PathBuf> = vec!["a".into(), "b".into(), "c".into(), "d".into()];
    {
        let mut editor = FileListEditor::new(&mut files);
        assert!(!editor.apply_edits(None, None, None));
        assert!(editor.apply_edits(Some(2), None, None));
    }
    assert_eq!(files, vec![PathBuf::from("a"), "c".into(), "b".into(), "d".into()]);
    {
        let mut editor = FileListEditor::new(&mut files);
        assert!(editor.apply_edits(None, Some(0), Some(3)));
    }
    assert_eq!(files, vec![PathBuf::from("c"), "a".into(), "b".into()]);
}

#[test]
fn a_new_table_keeps_fitting_roles_and_reprojects() {
    let mut src = CardSource {
        column_roles: vec![ColumnRole::Back, ColumnRole::Front],
        csv_table: None,
        cards: Vec::new(),
        load_warnings: Vec::new(),
        needs_regeneration: false,
    };
    src.reproject_cards();
    assert!(src.cards.is_empty());
    assert!(!src.needs_regeneration);
    let two = CsvTable {
        columns: vec!["a".into(), "b".into()],
        rows: vec![vec!["x".into(), "y".into()]],
    };
    src.set_table(two, Vec::new());
    assert_eq!(src.column_roles, vec![ColumnRole::Back, ColumnRole::Front]);
    assert_eq!((src.cards[0].front.as_str(), src.cards[0].back.as_str()), ("y", "x"));
    assert!(src.needs_regeneration);
    let three = CsvTable {
        columns: vec!["a".into(), "b".into(), "c".into()],
        rows: vec![vec!["p".into(), "q".into(), "r".into()]],
    };
    src.set_table(three, Vec::new());
    assert_eq!(
        src.column_roles,
        vec![ColumnRole::Front, ColumnRole::Back, ColumnRole::Ignore]
    );
    src.column_roles = vec![ColumnRole::Front, ColumnRole::Front, ColumnRole::Back];
    src.reproject_cards();
    assert_eq!((src.cards[0].front.as_str(), src.cards[0].back.as_str()), ("p\nq", "r"));
}
