//! The Markdown parser's event stream, as plain values the converter reads.
use vstd::prelude::*;

use pulldown_cmark::{CodeBlockKind, Event, Parser, Tag, TagEnd};

verus! {

/// One parser event the converter acts on. Table alignments are the
/// parser's `Alignment` codes: 0 none, 1 left, 2 center, 3 right.
#[derive(Debug, Clone, PartialEq, Eq)]
pub enum MdEvent {
    StartTable(Vec<u8>),
    StartHeading(u8),
    StartBlockQuote,
    EndBlockQuote,
    /// A code block: the fenced language (possibly empty), or `None` when
    /// indented.
    StartCodeBlock(Option<String>),
    EndCodeBlock,
    /// A list: its first number when ordered.
    StartList(Option<u64>),
    EndList,
    StartItem,
    /// An image and its destination URL.
    StartImage(String),
    EndImage,
    /// A link and its destination URL.
    StartLink(String),
    EndLink,
    StartEmphasis,
    EndEmphasis,
    StartStrong,
    EndStrong,
    StartStrikethrough,
    EndStrikethrough,
    EndTable,
    EndTableHead,
    EndTableRow,
    StartTableCell,
    EndTableCell,
    EndHeading,
    EndParagraph,
    Text(String),
    Code(String),
    SoftBreak,
    HardBreak,
    Rule,
    /// Any event the converter ignores.
    Other,
}

#[verifier::external_type_specification]
#[verifier::external_body]
pub struct ExEvent<'a>(Event<'a>);

#[verifier::external_type_specification]
#[verifier::external_body]
pub struct ExTag<'a>(Tag<'a>);

#[verifier::external_type_specification]
#[verifier::external_body]
pub struct ExTagEnd(TagEnd);

/// The parser's `Options` bits the converter enables: tables and
/// strikethrough always, smart punctuation on request.
pub open spec fn option_bits(smart: bool) -> u32 {
    if smart {
        (1u32 << 1u32) | (1u32 << 3u32) | (1u32 << 5u32)
    } else {
        (1u32 << 1u32) | (1u32 << 3u32)
    }
}

/// The parser options for a conversion, as `pulldown_cmark::Options` bits.
pub fn markdown_option_bits(smart: bool) -> (bits: u32)
    ensures
        bits == option_bits(smart),
{
    if smart {
        (1u32 << 1u32) | (1u32 << 3u32) | (1u32 << 5u32)
    } else {
        (1u32 << 1u32) | (1u32 << 3u32)
    }
}

/// The event stream `pulldown_cmark::Parser::new_ext` produces for `md`
/// under the option bits `options`, each event converted to an [`MdEvent`].
pub uninterp spec fn markdown_parse(md: Seq<char>, options: u32) -> Seq<MdEvent>;

/// Runs `pulldown_cmark::Parser::new_ext` on `md` with the option bits and
/// converts each event. The contract names the stream: CommonMark parsing is
/// the parser's own. It states only that heading levels are 1 to 6, which
/// `HeadingLevel`'s discriminants (`H1 = 1` .. `H6`) give.
#[verifier::external_body]
pub(crate) fn parse_markdown(md: &str, options: u32) -> (events: Vec<MdEvent>)
    ensures
        events@ == markdown_parse(md@, options),
        forall|i: int|
            0 <= i < events@.len() ==> (#[trigger] events@[i] matches MdEvent::StartHeading(level)
                ==> 1 <= level <= 6),
{
    let opts = pulldown_cmark::Options::from_bits_truncate(options);
    Parser::new_ext(md, opts).map(md_event).collect()
}

/// One parser event as an [`MdEvent`]: one arm per event kind, moving fields.
#[verifier::external_body]
fn md_event(e: Event<'_>) -> MdEvent {
    match e {
        Event::Start(t) => md_start(t),
        Event::End(t) => md_end(t),
        Event::Text(s) => MdEvent::Text(s.into_string()),
        Event::Code(s) => MdEvent::Code(s.into_string()),
        Event::SoftBreak => MdEvent::SoftBreak,
        Event::HardBreak => MdEvent::HardBreak,
        Event::Rule => MdEvent::Rule,
        _ => MdEvent::Other,
    }
}

/// A start tag as an [`MdEvent`]: one arm per tag kind, moving fields.
#[verifier::external_body]
fn md_start(t: Tag<'_>) -> MdEvent {
    match t {
        Tag::Table(a) => MdEvent::StartTable(a.into_iter().map(|x| x as u8).collect()),
        Tag::Heading { level, .. } => MdEvent::StartHeading(level as u8),
        Tag::BlockQuote(_) => MdEvent::StartBlockQuote,
        Tag::CodeBlock(CodeBlockKind::Fenced(l)) => MdEvent::StartCodeBlock(Some(l.into_string())),
        Tag::CodeBlock(CodeBlockKind::Indented) => MdEvent::StartCodeBlock(None),
        Tag::List(n) => MdEvent::StartList(n),
        Tag::Item => MdEvent::StartItem,
        Tag::Image { dest_url, .. } => MdEvent::StartImage(dest_url.into_string()),
        Tag::Link { dest_url, .. } => MdEvent::StartLink(dest_url.into_string()),
        t => md_start_inline(t),
    }
}

/// An inline or table-cell start tag as an [`MdEvent`]: one arm per tag kind.
#[verifier::external_body]
fn md_start_inline(t: Tag<'_>) -> MdEvent {
    match t {
        Tag::Emphasis => MdEvent::StartEmphasis,
        Tag::Strong => MdEvent::StartStrong,
        Tag::Strikethrough => MdEvent::StartStrikethrough,
        Tag::TableCell => MdEvent::StartTableCell,
        _ => MdEvent::Other,
    }
}

/// An end tag as an [`MdEvent`]: one arm per tag kind.
#[verifier::external_body]
fn md_end(t: TagEnd) -> MdEvent {
    match t {
        TagEnd::Table => MdEvent::EndTable, TagEnd::TableHead => MdEvent::EndTableHead,
        TagEnd::TableRow => MdEvent::EndTableRow, TagEnd::TableCell => MdEvent::EndTableCell,
        TagEnd::Heading(_) => MdEvent::EndHeading, TagEnd::Paragraph => MdEvent::EndParagraph,
        TagEnd::Emphasis => MdEvent::EndEmphasis, TagEnd::Strong => MdEvent::EndStrong,
        TagEnd::Strikethrough => MdEvent::EndStrikethrough, TagEnd::Link => MdEvent::EndLink,
        TagEnd::BlockQuote(_) => MdEvent::EndBlockQuote, TagEnd::CodeBlock => MdEvent::EndCodeBlock,
        TagEnd::List(_) => MdEvent::EndList, TagEnd::Image => MdEvent::EndImage,
        _ => MdEvent::Other,
    }
}

} // verus!
