use print_junk::typeset::asset::{ext_of, hash, AssetRegistry, AssetResolver, NoAssets};
use print_junk::typeset::body::{convert, to_typst_body};
use print_junk::typeset::escape::{escape_inline, escape_plaintext_line, plaintext_to_typst};
use print_junk::typeset::events::MdEvent;
use print_junk::typeset::html::{decode_entities, html_to_text};
use print_junk::typeset::markdown::{events_to_typst, import_events, import_markdown, markdown_to_typst};
use print_junk::typeset::pages::{line_matches, paginate};
use print_junk::typeset::table::escape_url;
use print_junk::typeset::{BreakPosition, InputFormat, PageBreakRule, TypesetInput};

fn chars(s: &str) -> Vec<char> {
    s.chars().collect()
}

fn text(v: &[char]) -> String {
    v.iter().collect()
}

#[test]
fn markdown_table_becomes_typst_table() {
    let md = "\
| Name | Qty |
|:-----|----:|
| Ink  | 3   |
| Paper| 12  |
";
    let out = markdown_to_typst(md, false);
    assert!(out.contains("#table("), "expected a #table call:\n{out}");
    assert!(out.contains("columns: 2"), "two columns expected:\n{out}");
    assert!(out.contains("align: (left, right)"), "alignment:\n{out}");
    assert!(out.contains("table.header("), "header wrapper:\n{out}");
    assert!(out.contains("[Name]") && out.contains("[Paper]"), "cells:\n{out}");
}

#[test]
fn table_cell_brackets_are_escaped() {
    let md = "| A |\n|---|\n| x[y] |\n";
    let out = markdown_to_typst(md, false);
    assert!(out.contains("x\\[y\\]"), "brackets must be escaped:\n{out}");
}

#[test]
fn smart_punctuation_toggles_dashes() {
    let plain = markdown_to_typst("a -- b", false);
    let smart = markdown_to_typst("a -- b", true);
    assert_ne!(plain, smart, "smart punctuation should change the output");
}

struct OneImage;

impl AssetResolver for OneImage {
    fn fetch(&self, src: &str) -> Option<Vec<u8>> {
        if src == "fig.png" {
            Some(b"PNGDATA".to_vec())
        } else {
            None
        }
    }
}

#[test]
fn import_markdown_resolves_relative_image_and_drops_alt() {
    let doc = import_markdown("![a caption](fig.png)\n", &OneImage, false);
    assert_eq!(doc.stats.images_ok, 1);
    assert!(doc.body.contains("#box(image(\"img-"), "image emitted: {}", doc.body);
    assert!(!doc.body.contains("a caption"), "alt dropped: {}", doc.body);
    assert_eq!(doc.assets.len(), 1);
}

#[test]
fn import_markdown_unresolved_image_keeps_alt() {
    let doc = import_markdown("![missing fig](none.png)\n", &NoAssets, false);
    assert_eq!(doc.stats.images_failed, 1);
    assert_eq!(doc.stats.images_ok, 0);
    assert!(doc.body.contains("missing fig"), "alt kept: {}", doc.body);
}

#[test]
fn import_markdown_records_outline_offsets() {
    let doc = import_markdown("# Intro\n\ntext\n\n## Details\n\nmore\n", &NoAssets, false);
    assert!(doc.title.is_none(), "no title extracted");
    assert_eq!(doc.outline.len(), 2);
    assert_eq!((doc.outline[0].level, doc.outline[0].title.as_str()), (1, "Intro"));
    assert_eq!((doc.outline[1].level, doc.outline[1].title.as_str()), (2, "Details"));
    assert_eq!(doc.outline[0].offset, 0, "no phantom front matter");
    assert!(doc.body[doc.outline[0].offset..].starts_with("= Intro"));
    assert!(doc.body[doc.outline[1].offset..].starts_with("== Details"));
    assert!(!doc.body.contains('\u{E000}'), "markers stripped");
}

#[test]
fn import_markdown_heading_title_ignores_inline_markup() {
    let doc = import_markdown("## The *fast* `path`\n", &NoAssets, false);
    assert_eq!(doc.outline.len(), 1);
    assert_eq!(doc.outline[0].title, "The fast path");
    assert!(doc.body.contains("== The _fast_ `path`"), "body markup: {}", doc.body);
}

#[test]
fn import_markdown_keeps_front_matter_before_first_heading() {
    let doc = import_markdown("A preamble paragraph.\n\n# One\n", &NoAssets, false);
    assert_eq!(doc.outline.len(), 1);
    assert!(doc.outline[0].offset > 0, "front matter precedes heading");
    assert!(doc.body.starts_with("A preamble paragraph."));
}

#[test]
fn a_repeated_image_is_fetched_once() {
    let doc = import_markdown("![one](fig.png) ![two](fig.png) ![three](gone.png)\n", &OneImage, false);
    assert_eq!(doc.stats.images_ok, 1);
    assert_eq!(doc.stats.images_failed, 1);
    assert_eq!(doc.assets.len(), 1);
    assert_eq!(doc.assets[0].1, b"PNGDATA".to_vec());
    assert_eq!(doc.body.matches("#box(image(").count(), 2);
    assert!(doc.body.contains("three"));
}

#[test]
fn offsets_count_bytes_of_wide_characters() {
    let doc = import_markdown("é\n\n# Ü\n", &NoAssets, false);
    assert_eq!(doc.outline.len(), 1);
    assert!(doc.body[doc.outline[0].offset..].starts_with("= Ü"));
    assert_eq!(doc.outline[0].id, "md-0");
}

#[test]
fn imported_events_follow_the_same_rules() {
    let events = vec![
        MdEvent::StartHeading(3),
        MdEvent::Text("Tools".to_string()),
        MdEvent::EndHeading,
        MdEvent::Text("a\u{E000}0\u{E000}b".to_string()),
        MdEvent::EndParagraph,
    ];
    let doc = import_events(&events, &NoAssets);
    assert_eq!(doc.body, "=== Tools\n\na0b\n\n");
    assert_eq!(doc.outline.len(), 1);
    assert_eq!(doc.outline[0].offset, 0);
    assert_eq!(doc.outline[0].title, "Tools");
    assert_eq!(doc.stats.images_failed, 0);
}

#[test]
fn events_become_markup() {
    let events = vec![
        MdEvent::StartList(Some(3)),
        MdEvent::StartItem,
        MdEvent::Text("x*y".to_string()),
        MdEvent::StartList(None),
        MdEvent::StartItem,
        MdEvent::StartStrong,
        MdEvent::Text("deep".to_string()),
        MdEvent::EndStrong,
        MdEvent::EndList,
        MdEvent::StartItem,
        MdEvent::StartLink("a\"b".to_string()),
        MdEvent::Text("l".to_string()),
        MdEvent::EndLink,
        MdEvent::EndList,
        MdEvent::StartCodeBlock(Some("rust".to_string())),
        MdEvent::Text("let *x = 1;".to_string()),
        MdEvent::EndCodeBlock,
        MdEvent::Rule,
        MdEvent::StartImage("none.png".to_string()),
        MdEvent::Text("alt".to_string()),
        MdEvent::EndImage,
    ];
    let out = events_to_typst(&events);
    assert_eq!(
        out,
        "\n3. x\\*y\n  - *deep*\n4. #link(\"a\\\"b\")[l]\n```rust\nlet *x = 1;```\n\n\n#line(length: 100%)\n\nalt"
    );
}

#[test]
fn headings_outside_import_have_no_markers() {
    let out = markdown_to_typst("# Title\n\nbody", false);
    assert_eq!(out, "\n= Title\n\nbody\n\n");
}

#[test]
fn inline_specials_are_escaped() {
    assert_eq!(escape_inline("a*b_c#d[e]"), "a\\*b\\_c\\#d\\[e\\]");
    assert_eq!(escape_inline("x\u{E000}y"), "xy");
    assert_eq!(escape_url("a\\b\"c"), "a\\\\b\\\"c");
}

#[test]
fn plaintext_numbered_lines_are_not_lists() {
    assert_eq!(escape_plaintext_line(&chars("  12. item")), "  12\\. item");
    assert_eq!(escape_plaintext_line(&chars("3) go")), "3\\) go");
    assert_eq!(escape_plaintext_line(&chars("4.5 units")), "4.5 units");
    assert_eq!(escape_plaintext_line(&chars("7.")), "7\\.");
    assert_eq!(plaintext_to_typst(&chars("a - b\n\nc\r\n")), "a \\- b\n\nc\n");
}

#[test]
fn html_becomes_plain_text() {
    let t = html_to_text(&chars("<P>Fish &amp; chips</p><span>x</span><br/>y &lt;3"));
    assert_eq!(text(&t), "\n\nFish & chips\n\nx\n\ny <3");
    assert_eq!(text(&decode_entities(&chars("&quot;&#39;&apos;&nbsp;&gt;"))), "\"'' >");
    let converted = convert(&chars("<p>1. a</p>"), InputFormat::Html, false);
    assert_eq!(converted, "\n\n1\\. a\n\n");
}

#[test]
fn page_break_rules_split_the_source() {
    let rules = vec![
        PageBreakRule { pattern: "---".to_string(), position: BreakPosition::Replace },
        PageBreakRule { pattern: " Chapter ".to_string(), position: BreakPosition::Before },
        PageBreakRule { pattern: "END".to_string(), position: BreakPosition::After },
    ];
    let pages = paginate(&chars("one\n---\ntwo\nChapter\nthree\nEND\n   \n"), &rules);
    let pages: Vec<String> = pages.iter().map(|p| text(p)).collect();
    assert_eq!(pages, vec!["one\n", "two\n", "Chapter\nthree\nEND\n"]);
    assert!(line_matches(&chars("  END "), &chars("END")));
    assert!(!line_matches(&chars(""), &chars("  ")));
    let input = TypesetInput {
        text: "a\n---\nb*".to_string(),
        format: InputFormat::Plaintext,
    };
    assert_eq!(to_typst_body(&input, &rules, false), "a\n\n\n#pagebreak()\n\nb\\*\n");
    let blank = TypesetInput { text: "---\n".to_string(), format: InputFormat::Markdown };
    assert_eq!(to_typst_body(&blank, &rules, false), "");
}

#[test]
fn image_names_hash_the_source_and_keep_the_extension() {
    assert_eq!(ext_of("dir/Photo.JPEG?x=1"), ".jpeg");
    assert_eq!(ext_of("noext"), ".png");
    assert_eq!(ext_of("a.toolongext"), ".png");
    assert_eq!(ext_of("a.b/c"), ".png");
    assert_eq!(ext_of("x.p-g"), ".png");
    assert_eq!(ext_of("x.Éb"), ".Éb");
    assert_eq!(ext_of("x.ééé"), ".png");
    let mut reg = AssetRegistry::new(&OneImage);
    let name = reg.image("fig.png").unwrap();
    assert_eq!(name, format!("img-{:016x}.png", hash("fig.png")));
    assert_eq!(reg.image("fig.png"), Some(name.clone()));
    assert_eq!(reg.image("other.png"), None);
    reg.push("m.svg".to_string(), vec![1]);
    assert_eq!((reg.ok(), reg.failed()), (1, 1));
    let assets = reg.into_assets();
    assert_eq!(assets.len(), 2);
    assert_eq!(assets[0].0, name);
    assert_eq!(assets[1].0, "m.svg");
}

#[test]
fn editable_markup_never_carries_a_section_mark() {
    let out = markdown_to_typst("# A\u{E000}1\u{E000}\n\nplain \u{E000} text\n\n```\ncode\u{E000}\n```\n", false);
    assert!(!out.contains('\u{E000}'), "{out}");
    assert!(out.starts_with("\n= A1\n\n"), "{out}");
}

#[test]
fn headings_inside_resolved_alt_text_are_not_recorded() {
    let events = vec![
        MdEvent::StartHeading(2),
        MdEvent::Text("One".to_string()),
        MdEvent::EndHeading,
        MdEvent::StartImage("fig.png".to_string()),
        MdEvent::StartHeading(1),
        MdEvent::Text("hidden".to_string()),
        MdEvent::EndHeading,
        MdEvent::EndImage,
        MdEvent::StartHeading(4),
        MdEvent::Text("Two".to_string()),
        MdEvent::EndHeading,
    ];
    let doc = import_events(&events, &OneImage);
    assert_eq!(doc.outline.len(), 2);
    assert_eq!((doc.outline[0].id.as_str(), doc.outline[0].level), ("md-0", 2));
    assert_eq!((doc.outline[1].id.as_str(), doc.outline[1].level), ("md-1", 4));
    assert!(!doc.body.contains("hidden"));
    assert!(doc.body[doc.outline[1].offset..].starts_with("==== Two"));
    assert_eq!(doc.stats.images_ok, 1);
}

#[test]
fn a_fetched_image_is_stored_with_its_bytes() {
    let mut reg = AssetRegistry::new(&NoAssets);
    assert_eq!(reg.image("a.png"), None);
    assert_eq!((reg.ok(), reg.failed()), (0, 1));
    let name = reg.register_fetched("a.png", Some(b"PNGDATA".to_vec())).unwrap();
    assert_eq!(name, format!("img-{:016x}.png", hash("a.png")));
    assert_eq!(reg.register_fetched("b.gif", None), None);
    assert_eq!((reg.ok(), reg.failed()), (1, 2));
    assert_eq!(reg.image("a.png"), Some(name.clone()));
    assert_eq!((reg.ok(), reg.failed()), (1, 2));
    let assets = reg.into_assets();
    assert_eq!(assets, vec![(name, b"PNGDATA".to_vec())]);
}

#[test]
fn source_text_cannot_move_a_heading_offset() {
    let events = vec![
        MdEvent::StartHeading(1),
        MdEvent::EndHeading,
        MdEvent::Code("\u{E000}0\u{E000}".to_string()),
    ];
    let doc = import_events(&events, &NoAssets);
    assert_eq!(doc.outline.len(), 1);
    assert!(doc.body[doc.outline[0].offset..].starts_with("= "), "{}", doc.body);
    assert!(!doc.body.contains('\u{E000}'));

    let md = "# One\n\n`a\u{E000}0\u{E000}b` [x](u\u{E000}0\u{E000}v)\n\n```r\u{E000}0\u{E000}\ncode\n```\n\n## Two\n";
    let doc = import_markdown(md, &NoAssets, false);
    assert_eq!(doc.outline.len(), 2);
    assert!(doc.body[doc.outline[0].offset..].starts_with("= One"), "{}", doc.body);
    assert!(doc.body[doc.outline[1].offset..].starts_with("== Two"), "{}", doc.body);
    assert!(doc.outline[0].offset < doc.outline[1].offset);
    assert!(doc.body.contains("`a0b`"), "{}", doc.body);
    assert!(doc.body.contains("#link(\"u0v\")"), "{}", doc.body);
    assert!(doc.body.contains("```r0\n"), "{}", doc.body);
    assert!(!doc.body.contains('\u{E000}'));
}

#[test]
fn converted_source_text_never_carries_a_section_mark() {
    let out = markdown_to_typst("`c\u{E000}d` [l](x\u{E000}y)\n\n```\u{E000}\nz\n```\n", false);
    assert!(!out.contains('\u{E000}'), "{out}");
    assert!(out.contains("`cd`"), "{out}");
    assert_eq!(escape_url("a\u{E000}\"b"), "a\\\"b");
}

#[test]
fn pushed_files_are_kept_twice() {
    let mut reg = AssetRegistry::new(&NoAssets);
    reg.push("m.svg".to_string(), vec![1]);
    assert_eq!(reg.image("p.png"), None);
    reg.push("m.svg".to_string(), vec![1]);
    let f = reg.register_fetched("q.png", Some(vec![7])).unwrap();
    assert_eq!(
        reg.into_assets(),
        vec![("m.svg".to_string(), vec![1]), ("m.svg".to_string(), vec![1]), (f, vec![7])]
    );
}
