//! The font side of a flashcard PDF: which glyphs the cards use, how text is
//! encoded as glyph ids, and the `ToUnicode` map that lets readers copy text
//! back out of an Identity-H CID font.
use vstd::prelude::*;

use std::collections::BTreeMap;

use crate::cards::Flashcard;
use crate::text::{decimal, hex_digits, push_char, push_decimal, push_hex};

verus! {

/// The glyph id that `ttf_parser` maps `ch` to in the font `font` (face 0);
/// `None` when the font does not parse or has no glyph for it.
pub uninterp spec fn font_glyph_index(font: Seq<u8>, ch: char) -> Option<u16>;

/// The horizontal advance (font units) `ttf_parser` reports for glyph `glyph`
/// of the font `font` (face 0); `None` when the font does not parse or has no
/// advance for it.
pub uninterp spec fn font_glyph_advance(font: Seq<u8>, glyph: u16) -> Option<u16>;

/// `ttf_parser::Face::glyph_index` on face 0 of `font`. The contract names the
/// result; the font's tables decide it.
#[verifier::external_body]
fn glyph_index(font: &[u8], ch: char) -> (g: Option<u16>)
    ensures
        g == font_glyph_index(font@, ch),
{
    let face = ttf_parser::Face::parse(font, 0).ok()?;
    face.glyph_index(ch).map(|id| id.0)
}

/// `ttf_parser::Face::glyph_hor_advance` on face 0 of `font`. The contract
/// names the result; the font's tables decide it.
#[verifier::external_body]
fn glyph_advance(font: &[u8], glyph: u16) -> (a: Option<u16>)
    ensures
        a == font_glyph_advance(font@, glyph),
{
    let face = ttf_parser::Face::parse(font, 0).ok()?;
    face.glyph_hor_advance(ttf_parser::GlyphId(glyph))
}

/// A glyph the cards use: its id, the first character that mapped to it, and
/// its advance in font units (0 when the font gives none).
#[derive(Debug, Clone, Copy, PartialEq, Eq, Structural)]
pub struct GlyphEntry {
    pub glyph_id: u16,
    pub ch: char,
    pub advance: u16,
}

/// Whether glyph ids strictly increase along `g` (so each id occurs once).
pub open spec fn ids_increasing(g: Seq<GlyphEntry>) -> bool {
    forall|i: int, j: int| 0 <= i < j < g.len() ==> g[i].glyph_id < g[j].glyph_id
}

/// The glyph map of a set of entries.
pub open spec fn entries_map(g: Seq<GlyphEntry>) -> Map<u16, (char, u16)> {
    Map::new(
        |id: u16| exists|i: int| 0 <= i < g.len() && g[i].glyph_id == id,
        |id: u16|
            {
                let i = choose|i: int| 0 <= i < g.len() && g[i].glyph_id == id;
                (g[i].ch, g[i].advance)
            },
    )
}

/// Every character the cards print, card by card, front before back.
pub open spec fn card_chars(cards: Seq<Flashcard>) -> Seq<char>
    decreases cards.len(),
{
    if cards.len() == 0 {
        Seq::empty()
    } else {
        card_chars(cards.drop_last()) + cards.last().front@ + cards.last().back@
    }
}

/// The glyphs `chars` use: each glyph id the font maps a character to, with
/// the first character that reached it and that glyph's advance.
pub open spec fn glyph_map(font: Seq<u8>, chars: Seq<char>) -> Map<u16, (char, u16)>
    decreases chars.len(),
{
    if chars.len() == 0 {
        Map::empty()
    } else {
        let prev = glyph_map(font, chars.drop_last());
        let ch = chars.last();
        match font_glyph_index(font, ch) {
            Some(id) => if prev.contains_key(id) {
                prev
            } else {
                prev.insert(id, (ch, advance_or_zero(font, id)))
            },
            None => prev,
        }
    }
}

/// The glyph map of some characters keeps every glyph it had when more
/// characters follow.
proof fn lemma_glyph_map_grows(font: Seq<u8>, chars: Seq<char>, more: Seq<char>)
    ensures
        forall|id: u16|
            #[trigger] glyph_map(font, chars).contains_key(id) ==> glyph_map(font, chars + more).contains_key(id),
    decreases more.len(),
{
    if more.len() == 0 {
        assert(chars + more =~= chars);
    } else {
        lemma_glyph_map_grows(font, chars, more.drop_last());
        assert((chars + more).drop_last() =~= chars + more.drop_last());
    }
}

/// Every character the font maps has its glyph in the glyph map.
proof fn lemma_glyph_map_covers(font: Seq<u8>, chars: Seq<char>, k: int)
    requires
        0 <= k < chars.len(),
    ensures
        font_glyph_index(font, chars[k]) matches Some(id) ==> glyph_map(font, chars).contains_key(id),
{
    let pre = chars.take(k + 1);
    assert(pre.drop_last() =~= chars.take(k));
    assert(pre.last() == chars[k]);
    lemma_glyph_map_grows(font, pre, chars.skip(k + 1));
    assert(pre + chars.skip(k + 1) =~= chars);
    if let Some(id) = font_glyph_index(font, chars[k]) {
        assert(glyph_map(font, pre).contains_key(id));
    }
}

/// Every glyph in the glyph map is the glyph of one of the characters, which
/// the map keeps with that glyph's advance.
proof fn lemma_glyph_map_sound(font: Seq<u8>, chars: Seq<char>)
    ensures
        forall|id: u16|
            #[trigger] glyph_map(font, chars).contains_key(id) ==> chars.contains(glyph_map(font, chars)[id].0)
                && font_glyph_index(font, glyph_map(font, chars)[id].0) == Some(id)
                && glyph_map(font, chars)[id].1 == advance_or_zero(font, id),
    decreases chars.len(),
{
    if chars.len() > 0 {
        let prev = chars.drop_last();
        lemma_glyph_map_sound(font, prev);
        assert forall|id: u16| #[trigger] glyph_map(font, chars).contains_key(id) implies chars.contains(
            glyph_map(font, chars)[id].0,
        ) && font_glyph_index(font, glyph_map(font, chars)[id].0) == Some(id) && glyph_map(font, chars)[id].1
            == advance_or_zero(font, id) by {
            if glyph_map(font, prev).contains_key(id) && glyph_map(font, chars)[id] == glyph_map(font, prev)[id] {
                let c = glyph_map(font, prev)[id].0;
                let j = choose|j: int| 0 <= j < prev.len() && prev[j] == c;
                assert(chars[j] == c);
            } else {
                assert(chars[chars.len() - 1] == chars.last());
            }
        }
    }
}

/// Where card `i`'s characters stand in the cards' characters: its front at
/// `p`, its back right after.
proof fn lemma_card_chars_hold(cards: Seq<Flashcard>, i: int) -> (p: int)
    requires
        0 <= i < cards.len(),
    ensures
        0 <= p,
        p + cards[i].front@.len() + cards[i].back@.len() <= card_chars(cards).len(),
        card_chars(cards).subrange(p, p + cards[i].front@.len()) == cards[i].front@,
        card_chars(cards).subrange(
            p + cards[i].front@.len(),
            p + cards[i].front@.len() + cards[i].back@.len(),
        ) == cards[i].back@,
    decreases cards.len(),
{
    let prev = cards.drop_last();
    let cc = card_chars(cards);
    let f = cards[i].front@.len() as int;
    let b = cards[i].back@.len() as int;
    if i < cards.len() - 1 {
        let p = lemma_card_chars_hold(prev, i);
        assert(prev[i] == cards[i]);
        assert(cc.subrange(p, p + f) =~= card_chars(prev).subrange(p, p + f));
        assert(cc.subrange(p + f, p + f + b) =~= card_chars(prev).subrange(p + f, p + f + b));
        p
    } else {
        let p = card_chars(prev).len() as int;
        assert(cc.subrange(p, p + f) =~= cards[i].front@);
        assert(cc.subrange(p + f, p + f + b) =~= cards[i].back@);
        p
    }
}

/// The glyphs collected for a deck are exactly those its cards print: every
/// character of every card's front and back that the font maps has its glyph
/// in the map, and every glyph in the map is the glyph of a character some
/// card prints, kept with that glyph's advance.
pub proof fn lemma_glyphs_cover_both_sides(font: Seq<u8>, cards: Seq<Flashcard>)
    ensures
        forall|i: int, j: int|
            0 <= i < cards.len() && 0 <= j < cards[i].front@.len() ==> (font_glyph_index(
                font,
                #[trigger] cards[i].front@[j],
            ) matches Some(id) ==> glyph_map(font, card_chars(cards)).contains_key(id)),
        forall|i: int, j: int|
            0 <= i < cards.len() && 0 <= j < cards[i].back@.len() ==> (font_glyph_index(
                font,
                #[trigger] cards[i].back@[j],
            ) matches Some(id) ==> glyph_map(font, card_chars(cards)).contains_key(id)),
        forall|id: u16|
            #[trigger] glyph_map(font, card_chars(cards)).contains_key(id) ==> exists|i: int, j: int|
                0 <= i < cards.len() && ((0 <= j < cards[i].front@.len() && cards[i].front@[j]
                    == glyph_map(font, card_chars(cards))[id].0) || (0 <= j < cards[i].back@.len()
                    && cards[i].back@[j] == glyph_map(font, card_chars(cards))[id].0))
                && font_glyph_index(font, glyph_map(font, card_chars(cards))[id].0) == Some(id),
{
    let cc = card_chars(cards);
    assert forall|i: int, j: int|
        0 <= i < cards.len() && 0 <= j < cards[i].front@.len() implies (font_glyph_index(
        font,
        #[trigger] cards[i].front@[j],
    ) matches Some(id) ==> glyph_map(font, cc).contains_key(id)) by {
        let p = lemma_card_chars_hold(cards, i);
        let f = cards[i].front@.len() as int;
        let b = cards[i].back@.len() as int;
        assert(cc[p + j] == cc.subrange(p, p + f)[j]);
        lemma_glyph_map_covers(font, cc, p + j);
    }
    assert forall|i: int, j: int|
        0 <= i < cards.len() && 0 <= j < cards[i].back@.len() implies (font_glyph_index(
        font,
        #[trigger] cards[i].back@[j],
    ) matches Some(id) ==> glyph_map(font, cc).contains_key(id)) by {
        let p = lemma_card_chars_hold(cards, i);
        let f = cards[i].front@.len() as int;
        let b = cards[i].back@.len() as int;
        assert(cc[p + f + j] == cc.subrange(p + f, p + f + b)[j]);
        lemma_glyph_map_covers(font, cc, p + f + j);
    }
    lemma_glyph_map_sound(font, cc);
    assert forall|id: u16| #[trigger] glyph_map(font, cc).contains_key(id) implies exists|i: int, j: int|
        0 <= i < cards.len() && ((0 <= j < cards[i].front@.len() && cards[i].front@[j] == glyph_map(
            font,
            cc,
        )[id].0) || (0 <= j < cards[i].back@.len() && cards[i].back@[j] == glyph_map(font, cc)[id].0))
            && font_glyph_index(font, glyph_map(font, cc)[id].0) == Some(id) by {
        let c = glyph_map(font, cc)[id].0;
        let k = choose|k: int| 0 <= k < cc.len() && cc[k] == c;
        lemma_char_from_card(cards, k);
    }
}

/// Each character of the cards' characters comes from some card's front or
/// back.
proof fn lemma_char_from_card(cards: Seq<Flashcard>, k: int)
    requires
        0 <= k < card_chars(cards).len(),
    ensures
        exists|i: int, j: int|
            0 <= i < cards.len() && ((0 <= j < cards[i].front@.len() && cards[i].front@[j]
                == card_chars(cards)[k]) || (0 <= j < cards[i].back@.len() && cards[i].back@[j]
                == card_chars(cards)[k])),
    decreases cards.len(),
{
    let prev = cards.drop_last();
    let cc = card_chars(cards);
    let n = card_chars(prev).len() as int;
    let i = cards.len() - 1;
    let f = cards[i].front@.len() as int;
    if k < n {
        lemma_char_from_card(prev, k);
        let (i0, j0) = choose|i0: int, j0: int|
            0 <= i0 < prev.len() && ((0 <= j0 < prev[i0].front@.len() && prev[i0].front@[j0]
                == card_chars(prev)[k]) || (0 <= j0 < prev[i0].back@.len() && prev[i0].back@[j0]
                == card_chars(prev)[k]));
        assert(prev[i0] == cards[i0]);
        assert(cc[k] == card_chars(prev)[k]);
    } else if k < n + f {
        assert(cc[k] == cards[i].front@[k - n]);
    } else {
        assert(cc[k] == cards[i].back@[k - n - f]);
    }
}

/// Add `ch`'s glyph when it is new.
fn add_glyph(glyphs: &mut BTreeMap<u16, (char, u16)>, font: &[u8], ch: char)
    ensures
        final(glyphs)@ == ({
            let prev = old(glyphs)@;
            match font_glyph_index(font@, ch) {
                Some(id) => if prev.contains_key(id) {
                    prev
                } else {
                    prev.insert(id, (ch, advance_or_zero(font@, id)))
                },
                None => prev,
            }
        }),
{
    proof {
        lemma_glyph_ids_ordered();
    }
    let id = match glyph_index(font, ch) {
        Some(id) => id,
        None => return ,
    };
    if glyphs.contains_key(&id) {
        return ;
    }
    let advance = match glyph_advance(font, id) {
        Some(a) => a,
        None => 0,
    };
    glyphs.insert(id, (ch, advance));
}

/// A glyph's advance, or 0 when the font gives none.
pub open spec fn advance_or_zero(font: Seq<u8>, id: u16) -> u16 {
    match font_glyph_advance(font, id) {
        Some(a) => a,
        None => 0u16,
    }
}

/// Glyph ids are ordered as integers when they key a `BTreeMap`.
proof fn lemma_glyph_ids_ordered()
    ensures
        vstd::laws_cmp::obeys_cmp::<u16>(),
        vstd::std_specs::btree::key_obeys_cmp_spec::<u16>(),
{
    broadcast use vstd::laws_cmp::group_laws_cmp;
    broadcast use vstd::std_specs::btree::group_btree_axioms;

}

/// Add every character of `text` in order.
fn add_glyphs_of(
    glyphs: &mut BTreeMap<u16, (char, u16)>,
    font: &[u8],
    text: &str,
    Ghost(prior): Ghost<Seq<char>>,
)
    requires
        old(glyphs)@ == glyph_map(font@, prior),
    ensures
        final(glyphs)@ == glyph_map(font@, prior + text@),
{
    let chars = crate::text::chars_of(text);
    let mut i: usize = 0;
    assert(prior + chars@.take(0) =~= prior);
    while i < chars.len()
        invariant
            i <= chars@.len(),
            chars@ == text@,
            glyphs@ == glyph_map(font@, prior + chars@.take(i as int)),
        decreases chars.len() - i,
    {
        add_glyph(glyphs, font, chars[i]);
        proof {
            let s = prior + chars@.take(i + 1);
            assert(s.drop_last() =~= prior + chars@.take(i as int));
            assert(s.last() == chars@[i as int]);
        }
        i += 1;
    }
    assert(chars@.take(chars.len() as int) =~= text@);
}

/// Collect the glyphs all cards use, keyed by glyph id: each id once, with
/// the first character (fronts before backs, card by card) that mapped to it
/// and that glyph's advance (0 when the font gives none).
pub fn collect_glyphs(cards: &[Flashcard], font: &[u8]) -> (glyphs: BTreeMap<u16, (char, u16)>)
    ensures
        glyphs@ == glyph_map(font@, card_chars(cards@)),
{
    let mut glyphs: BTreeMap<u16, (char, u16)> = BTreeMap::new();
    assert(glyphs@ =~= glyph_map(font@, card_chars(cards@.take(0))));
    let mut c: usize = 0;
    while c < cards.len()
        invariant
            c <= cards@.len(),
            glyphs@ == glyph_map(font@, card_chars(cards@.take(c as int))),
        decreases cards.len() - c,
    {
        let ghost before = card_chars(cards@.take(c as int));
        add_glyphs_of(&mut glyphs, font, cards[c].front.as_str(), Ghost(before));
        add_glyphs_of(
            &mut glyphs,
            font,
            cards[c].back.as_str(),
            Ghost(before + cards@[c as int].front@),
        );
        proof {
            assert(cards@.take(c + 1).drop_last() =~= cards@.take(c as int));
            assert((before + cards@[c as int].front@) + cards@[c as int].back@ == card_chars(
                cards@.take(c + 1),
            ));
        }
        c += 1;
    }
    assert(cards@.take(cards.len() as int) =~= cards@);
    glyphs
}

/// The glyph id a character is drawn with: its mapped glyph, or 0 (`.notdef`).
pub open spec fn drawn_glyph(font: Seq<u8>, ch: char) -> u16 {
    match font_glyph_index(font, ch) {
        Some(g) => g,
        None => 0,
    }
}

/// The Identity-H encoding of `text`: four upper-case hex digits per character.
pub open spec fn text_hex(font: Seq<u8>, text: Seq<char>) -> Seq<char>
    decreases text.len(),
{
    if text.len() == 0 {
        Seq::empty()
    } else {
        text_hex(font, text.drop_last()) + hex_digits(drawn_glyph(font, text.last()) as nat, 4, true)
    }
}

/// Encode `text` as hex glyph ids for an Identity-H CID font.
pub fn encode_text_hex(text: &str, font: &[u8]) -> (hex: String)
    ensures
        hex@ == text_hex(font@, text@),
{
    let chars = crate::text::chars_of(text);
    let mut hex = String::new();
    let mut i: usize = 0;
    while i < chars.len()
        invariant
            i <= chars@.len(),
            chars@ == text@,
            hex@ == text_hex(font@, chars@.take(i as int)),
        decreases chars.len() - i,
    {
        let g: u16 = match glyph_index(font, chars[i]) {
            Some(g) => g,
            None => 0,
        };
        push_hex(&mut hex, g as u64, 4, true);
        assert(chars@.take(i + 1).drop_last() =~= chars@.take(i as int));
        i += 1;
    }
    assert(chars@.take(chars.len() as int) =~= text@);
    hex
}

} // verus!

verus! {

/// The `ToUnicode` CMap text before the glyph blocks.
pub open spec fn cmap_header() -> Seq<char> {
    "/CIDInit /ProcSet findresource begin\n"@ + "12 dict begin\n"@ + "begincmap\n"@
        + "/CIDSystemInfo << /Registry (Adobe) /Ordering (UCS) /Supplement 0 >> def\n"@
        + "/CMapName /Adobe-Identity-UCS def\n"@ + "/CMapType 2 def\n"@
        + "1 begincodespacerange\n"@ + "<0000> <FFFF>\n"@ + "endcodespacerange\n"@
}

/// The `ToUnicode` CMap text after the glyph blocks.
pub open spec fn cmap_footer() -> Seq<char> {
    "endcmap\n"@ + "CMapName currentdict /CMap defineresource pop\n"@ + "end end\n"@
}

/// High surrogate of a supplementary-plane code point.
pub open spec fn surrogate_high(u: nat) -> nat {
    ((u - 0x10000) as nat) / 1024 + 0xD800
}

/// Low surrogate of a supplementary-plane code point.
pub open spec fn surrogate_low(u: nat) -> nat {
    ((u - 0x10000) as nat) % 1024 + 0xDC00
}

/// The UTF-16 code units of `c` in hex: one unit for the basic plane, a
/// surrogate pair above it.
pub open spec fn utf16_hex(c: char) -> Seq<char> {
    let u = c as u32 as nat;
    if u <= 0xFFFF {
        hex_digits(u, 4, true)
    } else {
        hex_digits(surrogate_high(u), 4, true) + hex_digits(surrogate_low(u), 4, true)
    }
}

/// One `bfchar` line: glyph id to the character's UTF-16 units.
pub open spec fn bfchar_line(e: GlyphEntry) -> Seq<char> {
    "<"@ + hex_digits(e.glyph_id as nat, 4, true) + "> <"@ + utf16_hex(e.ch) + ">\n"@
}

/// The `bfchar` lines of `es`, in order.
pub open spec fn bfchar_lines(es: Seq<GlyphEntry>) -> Seq<char>
    decreases es.len(),
{
    if es.len() == 0 {
        Seq::empty()
    } else {
        bfchar_lines(es.drop_last()) + bfchar_line(es.last())
    }
}

/// A `beginbfchar` ... `endbfchar` block for `es`.
pub open spec fn bfchar_block(es: Seq<GlyphEntry>) -> Seq<char> {
    decimal(es.len()) + " beginbfchar\n"@ + bfchar_lines(es) + "endbfchar\n"@
}

/// The PDF limit on entries per `bfchar` block.
pub open spec fn block_size() -> nat {
    100
}

/// `es` in blocks of at most 100 entries, in order.
pub open spec fn bfchar_blocks(es: Seq<GlyphEntry>) -> Seq<char>
    decreases es.len(),
{
    if es.len() == 0 {
        Seq::empty()
    } else if es.len() <= block_size() {
        bfchar_block(es)
    } else {
        bfchar_block(es.take(block_size() as int)) + bfchar_blocks(es.skip(block_size() as int))
    }
}

/// The whole `ToUnicode` CMap for the glyph list.
pub open spec fn cmap_text(es: Seq<GlyphEntry>) -> Seq<char> {
    cmap_header() + bfchar_blocks(es) + cmap_footer()
}

/// A supplementary-plane code point splits into a high surrogate in
/// `D800..=DBFF` and a low one in `DC00..=DFFF`, and the pair gives the code
/// point back.
pub proof fn lemma_surrogate_pair(u: nat)
    requires
        0x10000 <= u <= 0x10FFFF,
    ensures
        0xD800 <= surrogate_high(u) <= 0xDBFF,
        0xDC00 <= surrogate_low(u) <= 0xDFFF,
        ((surrogate_high(u) - 0xD800) * 1024 + (surrogate_low(u) - 0xDC00) + 0x10000) as nat == u,
{
    let v = (u - 0x10000) as nat;
    assert(v == (v / 1024) * 1024 + v % 1024) by (nonlinear_arith);
    assert(v / 1024 <= 0x3FF) by (nonlinear_arith)
        requires
            v <= 0xFFFFF,
    ;
}

/// Append one `bfchar` line.
fn push_bfchar_line(s: &mut String, e: GlyphEntry)
    ensures
        final(s)@ == old(s)@ + bfchar_line(e),
{
    s.append("<");
    push_hex(s, e.glyph_id as u64, 4, true);
    s.append("> <");
    let unicode = e.ch as u32;
    if unicode <= 0xFFFF {
        push_hex(s, unicode as u64, 4, true);
    } else {
        let hi = (unicode - 0x10000) / 1024 + 0xD800;
        let lo = (unicode - 0x10000) % 1024 + 0xDC00;
        push_hex(s, hi as u64, 4, true);
        push_hex(s, lo as u64, 4, true);
    }
    s.append(">\n");
    assert(s@ =~= old(s)@ + bfchar_line(e));
}

/// Append the `bfchar` block for `glyphs[i..end]`.
fn push_block(cmap: &mut String, glyphs: &[GlyphEntry], i: usize, end: usize)
    requires
        i <= end <= glyphs@.len(),
    ensures
        final(cmap)@ == old(cmap)@ + bfchar_block(glyphs@.subrange(i as int, end as int)),
{
    let ghost chunk = glyphs@.subrange(i as int, end as int);
    let ghost before = cmap@;
    push_decimal(cmap, end - i);
    cmap.append(" beginbfchar\n");
    let mut j: usize = i;
    while j < end
        invariant
            i <= j <= end <= glyphs@.len(),
            chunk == glyphs@.subrange(i as int, end as int),
            cmap@ == before + decimal((end - i) as nat) + " beginbfchar\n"@ + bfchar_lines(
                chunk.take(j - i),
            ),
        decreases end - j,
    {
        push_bfchar_line(cmap, glyphs[j]);
        assert(chunk.take(j + 1 - i).drop_last() =~= chunk.take(j - i));
        assert(chunk.take(j + 1 - i).last() == glyphs@[j as int]);
        j += 1;
    }
    cmap.append("endbfchar\n");
    assert(chunk.take(end - i) =~= chunk);
    assert(cmap@ =~= before + bfchar_block(chunk));
}

/// Emitting the block at `i` and then the blocks from `end` gives the blocks
/// from `i`.
proof fn lemma_blocks_step(es: Seq<GlyphEntry>, i: int, end: int)
    requires
        0 <= i < end <= es.len(),
        end == if es.len() - i <= 100 { es.len() as int } else { i + 100 },
    ensures
        bfchar_block(es.subrange(i, end)) + bfchar_blocks(es.skip(end)) == bfchar_blocks(es.skip(i)),
{
    let rest = es.skip(i);
    if rest.len() <= 100 {
        assert(es.subrange(i, end) =~= rest);
        assert(bfchar_blocks(es.skip(end)) =~= Seq::<char>::empty());
        assert(bfchar_block(rest) + Seq::<char>::empty() =~= bfchar_block(rest));
    } else {
        assert(es.subrange(i, end) =~= rest.take(100));
        assert(rest.skip(100) =~= es.skip(end));
    }
}

/// The glyphs as entries in increasing id order.
fn sorted_entries(glyphs: &BTreeMap<u16, (char, u16)>) -> (es: Vec<GlyphEntry>)
    ensures
        ids_increasing(es@),
        entries_map(es@) == glyphs@,
{
    let ghost m = glyphs@;
    let mut out: Vec<GlyphEntry> = Vec::new();
    let mut id: u32 = 0;
    while id < 0x10000
        invariant
            id <= 0x10000,
            m == glyphs@,
            ids_increasing(out@),
            forall|i: int|
                0 <= i < out@.len() ==> (#[trigger] out@[i]).glyph_id < id && m.contains_key(
                    out@[i].glyph_id,
                ) && m[out@[i].glyph_id] == (out@[i].ch, out@[i].advance),
            forall|k: u16|
                k < id && #[trigger] m.contains_key(k) ==> exists|i: int|
                    0 <= i < out@.len() && out@[i].glyph_id == k,
        decreases 0x10000 - id,
    {
        let k = id as u16;
        let got = glyphs.get(&k);
        assert(k == id && match got {
            Some(v) => m.contains_key(k) && m[k] == *v,
            None => !m.contains_key(k),
        }) by {
            broadcast use vstd::std_specs::btree::group_btree_axioms;

            lemma_glyph_ids_ordered();
        }
        if let Some(val) = got {
            let ghost old_out = out@;
            let e = GlyphEntry { glyph_id: k, ch: val.0, advance: val.1 };
            out.push(e);
            proof {
                lemma_entries_push(m, old_out, e, id as int);
            }
        }
        id += 1;
    }
    proof {
        lemma_entries_cover(m, out@);
    }
    out
}

/// Pushing the entry of key `id` (the largest seen so far) keeps the scan's
/// invariant.
proof fn lemma_entries_push(m: Map<u16, (char, u16)>, es: Seq<GlyphEntry>, e: GlyphEntry, id: int)
    requires
        e.glyph_id == id,
        m.contains_key(e.glyph_id),
        m[e.glyph_id] == (e.ch, e.advance),
        ids_increasing(es),
        forall|i: int|
            0 <= i < es.len() ==> (#[trigger] es[i]).glyph_id < id && m.contains_key(es[i].glyph_id)
                && m[es[i].glyph_id] == (es[i].ch, es[i].advance),
        forall|k: u16|
            k < id && #[trigger] m.contains_key(k) ==> exists|i: int| 0 <= i < es.len() && es[i].glyph_id == k,
    ensures
        ids_increasing(es.push(e)),
        forall|i: int|
            0 <= i < es.push(e).len() ==> (#[trigger] es.push(e)[i]).glyph_id < id + 1 && m.contains_key(
                es.push(e)[i].glyph_id,
            ) && m[es.push(e)[i].glyph_id] == (es.push(e)[i].ch, es.push(e)[i].advance),
        forall|k: u16|
            k < id + 1 && #[trigger] m.contains_key(k) ==> exists|i: int|
                0 <= i < es.push(e).len() && es.push(e)[i].glyph_id == k,
{
    let s = es.push(e);
    assert forall|k: u16| k < id + 1 && #[trigger] m.contains_key(k) implies exists|i: int|
        0 <= i < s.len() && s[i].glyph_id == k by {
        if k < id {
            let i = choose|i: int| 0 <= i < es.len() && es[i].glyph_id == k;
            assert(s[i] == es[i]);
        } else {
            assert(s[s.len() - 1].glyph_id == k);
        }
    }
}

/// Entries that each hold a key of `m` with its value, and cover all of
/// `m`'s keys, make up `m`.
proof fn lemma_entries_cover(m: Map<u16, (char, u16)>, es: Seq<GlyphEntry>)
    requires
        forall|i: int|
            0 <= i < es.len() ==> m.contains_key((#[trigger] es[i]).glyph_id) && m[es[i].glyph_id]
                == (es[i].ch, es[i].advance),
        forall|k: u16| #[trigger] m.contains_key(k) ==> exists|i: int| 0 <= i < es.len() && es[i].glyph_id == k,
    ensures
        entries_map(es) == m,
{
    assert forall|k: u16| #[trigger] entries_map(es).contains_key(k) <==> m.contains_key(k) by {
        if entries_map(es).contains_key(k) {
            let i = choose|i: int| 0 <= i < es.len() && es[i].glyph_id == k;
            assert(m.contains_key(es[i].glyph_id));
        }
    }
    assert forall|k: u16| #[trigger] entries_map(es).contains_key(k) implies entries_map(es)[k]
        == m[k] by {
        let i = choose|i: int| 0 <= i < es.len() && es[i].glyph_id == k;
        assert(m.contains_key(es[i].glyph_id));
    }
    assert(entries_map(es) =~= m);
}

/// In a list of entries with strictly increasing ids, each entry is what the
/// list's glyph map holds for its id.
proof fn lemma_entry_in_map(g: Seq<GlyphEntry>, i: int)
    requires
        ids_increasing(g),
        0 <= i < g.len(),
    ensures
        entries_map(g).contains_key(g[i].glyph_id),
        entries_map(g)[g[i].glyph_id] == (g[i].ch, g[i].advance),
{
    let id = g[i].glyph_id;
    assert(exists|j: int| 0 <= j < g.len() && g[j].glyph_id == id);
    let j = choose|j: int| 0 <= j < g.len() && g[j].glyph_id == id;
    assert(j == i);
}

/// Two lists with strictly increasing ids and the same glyph map agree on the
/// ids of their first `n` entries.
proof fn lemma_ids_agree(a: Seq<GlyphEntry>, b: Seq<GlyphEntry>, n: int)
    requires
        ids_increasing(a),
        ids_increasing(b),
        entries_map(a) == entries_map(b),
        0 <= n <= a.len(),
        n <= b.len(),
    ensures
        forall|i: int| 0 <= i < n ==> #[trigger] a[i].glyph_id == b[i].glyph_id,
    decreases n,
{
    if n > 0 {
        let m = n - 1;
        lemma_ids_agree(a, b, m);
        lemma_entry_in_map(a, m);
        lemma_entry_in_map(b, m);
        if a[m].glyph_id < b[m].glyph_id {
            let id = a[m].glyph_id;
            assert(entries_map(b).contains_key(id));
            let k = choose|k: int| 0 <= k < b.len() && b[k].glyph_id == id;
            if k < m {
                assert(a[k].glyph_id == b[k].glyph_id);
            }
        } else if a[m].glyph_id > b[m].glyph_id {
            let id = b[m].glyph_id;
            assert(entries_map(a).contains_key(id));
            let k = choose|k: int| 0 <= k < a.len() && a[k].glyph_id == id;
            if k < m {
                assert(a[k].glyph_id == b[k].glyph_id);
            }
        }
    }
}

/// A glyph map has one listing in increasing id order: two lists with
/// strictly increasing ids and the same glyph map are equal, so the `ToUnicode`
/// map of a glyph map is determined by it.
pub proof fn lemma_entries_determined(a: Seq<GlyphEntry>, b: Seq<GlyphEntry>)
    requires
        ids_increasing(a),
        ids_increasing(b),
        entries_map(a) == entries_map(b),
    ensures
        a == b,
{
    if a.len() < b.len() {
        lemma_ids_agree(a, b, a.len() as int);
        lemma_entry_in_map(b, a.len() as int);
        let id = b[a.len() as int].glyph_id;
        assert(entries_map(a).contains_key(id));
        let k = choose|k: int| 0 <= k < a.len() && a[k].glyph_id == id;
        assert(a[k].glyph_id == b[k].glyph_id);
    } else if b.len() < a.len() {
        lemma_ids_agree(b, a, b.len() as int);
        lemma_entry_in_map(a, b.len() as int);
        let id = a[b.len() as int].glyph_id;
        assert(entries_map(b).contains_key(id));
        let k = choose|k: int| 0 <= k < b.len() && b[k].glyph_id == id;
        assert(a[k].glyph_id == b[k].glyph_id);
    } else {
        lemma_ids_agree(a, b, a.len() as int);
        assert forall|i: int| 0 <= i < a.len() implies a[i] == b[i] by {
            lemma_entry_in_map(a, i);
            lemma_entry_in_map(b, i);
            assert(a[i].glyph_id == b[i].glyph_id);
        }
        assert(a =~= b);
    }
}

/// Build the `ToUnicode` CMap stream content for the glyphs: the fixed
/// header, the `bfchar` entries in increasing id order in blocks of 100, and
/// the fixed footer.
pub fn build_tounicode_cmap(glyphs: &BTreeMap<u16, (char, u16)>) -> (cmap: String)
    ensures
        exists|es: Seq<GlyphEntry>|
            ids_increasing(es) && entries_map(es) == glyphs@ && #[trigger] cmap_text(es) == cmap@,
{
    let es = sorted_entries(glyphs);
    cmap_of_entries(es.as_slice())
}

/// The `ToUnicode` CMap text of glyph entries in the given order.
fn cmap_of_entries(glyphs: &[GlyphEntry]) -> (cmap: String)
    ensures
        cmap@ == cmap_text(glyphs@),
{
    let mut cmap = String::new();
    cmap.append("/CIDInit /ProcSet findresource begin\n");
    cmap.append("12 dict begin\n");
    cmap.append("begincmap\n");
    cmap.append("/CIDSystemInfo << /Registry (Adobe) /Ordering (UCS) /Supplement 0 >> def\n");
    cmap.append("/CMapName /Adobe-Identity-UCS def\n");
    cmap.append("/CMapType 2 def\n");
    cmap.append("1 begincodespacerange\n");
    cmap.append("<0000> <FFFF>\n");
    cmap.append("endcodespacerange\n");
    assert(cmap@ =~= cmap_header());
    let ghost es = glyphs@;
    let n = glyphs.len();
    let mut i: usize = 0;
    assert(es.skip(0) =~= es);
    while i < n
        invariant
            n == es.len(),
            es == glyphs@,
            i <= n,
            cmap@ + bfchar_blocks(es.skip(i as int)) == cmap_header() + bfchar_blocks(es),
        decreases n - i,
    {
        let end = if n - i <= 100 {
            n
        } else {
            i + 100
        };
        let ghost rest = es.skip(i as int);
        let ghost before = cmap@;
        push_block(&mut cmap, glyphs, i, end);
        proof {
            lemma_blocks_step(es, i as int, end as int);
        }
        i = end;
    }
    assert(bfchar_blocks(es.skip(n as int)) =~= Seq::<char>::empty());
    cmap.append("endcmap\n");
    cmap.append("CMapName currentdict /CMap defineresource pop\n");
    cmap.append("end end\n");
    assert(cmap@ =~= cmap_text(es));
    cmap
}

} // verus!
