//! The editable path: a source document split into pages and each page
//! converted to Typst markup, joined by explicit page breaks.
use vstd::prelude::*;

use super::escape::{plaintext_markup, plaintext_to_typst};
use super::html::{html_text, html_to_text};
use super::markdown::{markdown_markup, markdown_to_typst};
use super::pages::{page_chunks, paginate};
use super::{InputFormat, PageBreakRule, TypesetInput};
use crate::text::{chars_of, string_of};

verus! {

/// The Typst markup of one page of source text in `format`.
pub open spec fn converted(text: Seq<char>, format: InputFormat, smart: bool) -> Seq<char> {
    match format {
        InputFormat::Markdown => markdown_markup(text, smart),
        InputFormat::Plaintext => plaintext_markup(text),
        InputFormat::Html => plaintext_markup(html_text(text)),
    }
}

/// `chunks` joined with `sep` between neighbours.
pub open spec fn joined(chunks: Seq<Seq<char>>, sep: Seq<char>) -> Seq<char>
    decreases chunks.len(),
{
    if chunks.len() == 0 {
        Seq::empty()
    } else if chunks.len() == 1 {
        chunks[0]
    } else {
        joined(chunks.drop_last(), sep) + sep + chunks.last()
    }
}

/// What separates two converted pages.
pub open spec fn page_break() -> Seq<char> {
    "\n\n#pagebreak()\n\n"@
}

/// The Typst body of `text`: its pages, each converted, joined by page breaks.
pub open spec fn typst_body(text: Seq<char>, format: InputFormat, rules: Seq<PageBreakRule>, smart: bool) -> Seq<char> {
    joined(
        page_chunks(text, rules).map_values(|p: Seq<char>| converted(p, format, smart)),
        page_break(),
    )
}

/// Convert one page of source text.
pub fn convert(text: &[char], format: InputFormat, smart: bool) -> (out: String)
    ensures
        out@ == converted(text@, format, smart),
{
    match format {
        InputFormat::Markdown => {
            let s = string_of(text);
            markdown_to_typst(s.as_str(), smart)
        },
        InputFormat::Plaintext => plaintext_to_typst(text),
        InputFormat::Html => {
            let t = html_to_text(text);
            plaintext_to_typst(t.as_slice())
        },
    }
}

/// Convert a document to a Typst body, inserting `#pagebreak()` at the
/// boundaries that `rules` produce. `smart` enables Markdown smart
/// punctuation.
pub fn to_typst_body(input: &TypesetInput, rules: &[PageBreakRule], smart: bool) -> (out: String)
    ensures
        out@ == typst_body(input.text@, input.format, rules@, smart),
{
    let text = chars_of(input.text.as_str());
    let pages = paginate(text.as_slice(), rules);
    let ghost pv = pages.deep_view();
    let ghost conv = pv.map_values(|p: Seq<char>| converted(p, input.format, smart));
    let mut out = String::new();
    let mut i: usize = 0;
    while i < pages.len()
        invariant
            i <= pages@.len(),
            pv == pages.deep_view(),
            conv == pv.map_values(|p: Seq<char>| converted(p, input.format, smart)),
            out@ == joined(conv.take(i as int), page_break()),
        decreases pages.len() - i,
    {
        assert(pv[i as int] == pages@[i as int]@);
        if i > 0 {
            out.append("\n\n#pagebreak()\n\n");
        }
        let c = convert(pages[i].as_slice(), input.format, smart);
        out.append(c.as_str());
        proof {
            let t = conv.take(i + 1);
            assert(t.drop_last() =~= conv.take(i as int));
            if i == 0 {
                assert(conv.take(0) =~= Seq::<Seq<char>>::empty());
            }
        }
        i += 1;
    }
    assert(conv.take(pages.len() as int) =~= conv);
    out
}

} // verus!
