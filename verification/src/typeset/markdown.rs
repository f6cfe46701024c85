//! Markdown to Typst: the parser's events drive a small state machine that
//! writes Typst markup, records a heading outline when importing, and
//! resolves images through an asset registry.
use vstd::prelude::*;

use super::asset::{image_file_name, lookup, registered, AssetRegistry, AssetResolver, RegistryView};
use super::escape::{escaped, push_escaped, without_mark, SECTION_MARK};
use super::events::MdEvent;
use super::sections::{import_fits, lemma_outline_in_place, levels_valid, outline_in_place};
use super::outline::{
    apply_markers, byte_offset, entries_view, markers, prefix_bytes, push_entry, set_title,
    shift_offsets, shifted_outline, strip_markers, stripped, EntryView, OutlineEntry,
};
use super::{ImportStats, ImportedDoc};
use super::table::{code_span, new_table, table_markup, table_step, url_escaped, CellTable, TableBuilder};
use crate::text::{
    chars_of, count_lead_ws, decimal, lead_ws, push_char, push_decimal, push_decimal_u64,
    push_repeat, repeat_char, slice_skip, string_of, trim, trim_chars, trim_start,
};

verus! {

/// The converter's state as plain values.
#[verifier::ext_equal]
pub struct MdState {
    /// Markup written so far.
    pub out: Seq<char>,
    /// For each open list: its next number, or `None` for a bullet list.
    pub lists: Seq<Option<u64>>,
    /// Inside a code block (text is copied verbatim).
    pub in_code: bool,
    /// The table being accumulated, if any.
    pub table: Option<CellTable>,
    /// Inside a resolved image (its alt text is dropped).
    pub in_image: bool,
    /// Whether headings are recorded as outline entries.
    pub record: bool,
    /// Recorded headings.
    pub outline: Seq<EntryView>,
    /// The open recorded heading: its entry index and title so far.
    pub heading: Option<(nat, Seq<char>)>,
}

/// The state before any event.
pub open spec fn md_init(record: bool) -> MdState {
    MdState {
        out: Seq::empty(),
        lists: Seq::empty(),
        in_code: false,
        table: None,
        in_image: false,
        record,
        outline: Seq::empty(),
        heading: None,
    }
}

/// `s` with `t` appended to its markup.
pub open spec fn emit(s: MdState, t: Seq<char>) -> MdState {
    MdState { out: s.out + t, ..s }
}

/// Open a heading: a newline, then (recording) a section marker and a fresh
/// outline entry, then `=` per level and a space.
pub open spec fn start_heading(s: MdState, level: u8) -> MdState {
    let out1 = s.out.push('\n');
    if s.record {
        let idx = s.outline.len();
        MdState {
            out: out1 + seq![SECTION_MARK] + decimal(idx) + seq![SECTION_MARK] + repeat_char(
                '=',
                level as nat,
            ) + seq![' '],
            outline: s.outline.push(
                EntryView { id: "md-"@ + decimal(idx), level, title: Seq::empty(), offset: 0 },
            ),
            heading: Some((idx, Seq::empty())),
            ..s
        }
    } else {
        MdState { out: out1 + repeat_char('=', level as nat) + seq![' '], ..s }
    }
}

/// Close a heading: the open entry takes the trimmed title; a blank line follows.
pub open spec fn end_heading(s: MdState) -> MdState {
    let outline = match s.heading {
        Some((idx, title)) => if s.record && idx < s.outline.len() {
            s.outline.update(idx as int, EntryView { title: trim(title), ..s.outline[idx as int] })
        } else {
            s.outline
        },
        None => s.outline,
    };
    MdState { outline, heading: None, out: s.out + "\n\n"@, ..s }
}

/// Add text to the open heading's title.
pub open spec fn note_heading(s: MdState, t: Seq<char>) -> MdState {
    match s.heading {
        Some((i, title)) => MdState { heading: Some((i, title + t)), ..s },
        None => s,
    }
}

/// A list number advanced by one (wrapping).
pub open spec fn next_number(n: u64) -> u64 {
    if n == u64::MAX {
        0
    } else {
        (n + 1) as u64
    }
}

/// `d` levels of list indentation.
pub open spec fn indent(d: nat) -> Seq<char>
    decreases d,
{
    if d == 0 {
        Seq::empty()
    } else {
        indent((d - 1) as nat) + "  "@
    }
}

/// A list item: a newline, indentation by nesting depth, then the number of
/// an ordered list (which advances) or a bullet.
pub open spec fn start_item(s: MdState) -> MdState {
    let depth: nat = if s.lists.len() == 0 {
        0
    } else {
        (s.lists.len() - 1) as nat
    };
    let out1 = s.out.push('\n') + indent(depth);
    if s.lists.len() > 0 && s.lists.last() is Some {
        let n = s.lists.last()->0;
        MdState {
            out: out1 + decimal(n as nat) + ". "@,
            lists: s.lists.update(s.lists.len() - 1, Some(next_number(n))),
            ..s
        }
    } else {
        MdState { out: out1 + "- "@, ..s }
    }
}

/// Close a list; a newline follows the outermost one.
pub open spec fn end_list(s: MdState) -> MdState {
    let lists = if s.lists.len() > 0 {
        s.lists.drop_last()
    } else {
        s.lists
    };
    MdState {
        lists,
        out: if lists.len() == 0 {
            s.out.push('\n')
        } else {
            s.out
        },
        ..s
    }
}

/// One event outside tables and image alt text. `image` is what looking up
/// an image's source gave.
pub open spec fn main_step(s: MdState, e: MdEvent, image: Option<Seq<char>>) -> MdState {
    match e {
        MdEvent::StartTable(a) => MdState { table: Some(new_table(a@)), ..s },
        MdEvent::StartHeading(level) => start_heading(s, level),
        MdEvent::EndHeading => end_heading(s),
        MdEvent::EndParagraph => emit(s, "\n\n"@),
        MdEvent::StartEmphasis => emit(s, seq!['_']),
        MdEvent::EndEmphasis => emit(s, seq!['_']),
        MdEvent::StartStrong => emit(s, seq!['*']),
        MdEvent::EndStrong => emit(s, seq!['*']),
        MdEvent::StartStrikethrough => emit(s, "#strike["@),
        MdEvent::StartBlockQuote => emit(s, "#quote(block: true)[\n"@),
        MdEvent::EndBlockQuote => emit(s, "]\n\n"@),
        MdEvent::StartCodeBlock(lang) => MdState {
            in_code: true,
            out: s.out + "```"@ + (match lang {
                Some(l) => without_mark(l@),
                None => Seq::empty(),
            }) + seq!['\n'],
            ..s
        },
        MdEvent::EndCodeBlock => MdState { in_code: false, out: s.out + "```\n\n"@, ..s },
        MdEvent::StartList(start) => MdState { lists: s.lists.push(start), ..s },
        MdEvent::EndList => end_list(s),
        MdEvent::StartItem => start_item(s),
        MdEvent::StartImage(_) => match image {
            Some(name) => MdState {
                out: s.out + "#box(image(\""@ + without_mark(name) + "\"))"@,
                in_image: true,
                ..s
            },
            None => s,
        },
        MdEvent::StartLink(url) => emit(s, "#link(\""@ + url_escaped(url@) + "\")["@),
        MdEvent::EndStrikethrough => emit(s, seq![']']),
        MdEvent::EndLink => emit(s, seq![']']),
        MdEvent::Text(t) => {
            let t2 = without_mark(t@);
            note_heading(
                emit(
                    s,
                    if s.in_code {
                        t2
                    } else {
                        escaped(t2)
                    },
                ),
                t2,
            )
        },
        MdEvent::Code(t) => note_heading(emit(s, code_span(t@)), without_mark(t@)),
        MdEvent::SoftBreak => emit(s, seq![' ']),
        MdEvent::HardBreak => emit(s, " \\\n"@),
        MdEvent::Rule => emit(s, "\n#line(length: 100%)\n\n"@),
        _ => s,
    }
}

/// One event: inside a table it feeds the table (its end renders it);
/// inside a resolved image's alt text it is dropped (its end closes it).
pub open spec fn md_step(s: MdState, e: MdEvent, image: Option<Seq<char>>) -> MdState {
    match s.table {
        Some(t) => if e is EndTable {
            MdState { out: s.out + table_markup(t), table: None, ..s }
        } else {
            MdState { table: Some(table_step(t, e)), ..s }
        },
        None => if s.in_image {
            if e is EndImage {
                MdState { in_image: false, ..s }
            } else {
                s
            }
        } else {
            main_step(s, e, image)
        },
    }
}

/// Whether event `e` at state `s` looks up an image.
pub open spec fn looks_up_image(s: MdState, e: MdEvent) -> bool {
    s.table is None && !s.in_image && e is StartImage
}

/// The state after `events`, `images[i]` being what the lookup for event `i`
/// gave (ignored when that event looks nothing up).
pub open spec fn md_run(events: Seq<MdEvent>, images: Seq<Option<Seq<char>>>, record: bool) -> MdState
    decreases events.len(),
{
    if events.len() == 0 {
        md_init(record)
    } else {
        md_step(
            md_run(events.drop_last(), images, record),
            events.last(),
            images[events.len() - 1],
        )
    }
}

/// No lookups resolve.
pub open spec fn no_images(n: nat) -> Seq<Option<Seq<char>>> {
    Seq::new(n, |i: int| None::<Seq<char>>)
}

/// Whether `f` may be what fetching `src` gave: anything the resolver may
/// answer when `src` is not registered (it is not fetched otherwise).
pub open spec fn fetch_allowed<R: AssetResolver>(resolver: R, v0: RegistryView, src: Seq<char>, f: Option<Seq<u8>>) -> bool {
    registered(v0.names, src) is None ==> resolver.answers(src, f)
}

/// Event `e` looked an image up, moving the registry from `v0` to `v1` and
/// giving `image`, for some answer the resolver may give.
pub open spec fn looked_up<R: AssetResolver>(
    resolver: R,
    v0: RegistryView,
    e: MdEvent,
    v1: RegistryView,
    image: Option<Seq<char>>,
) -> bool {
    match e {
        MdEvent::StartImage(url) => exists|f: Option<Seq<u8>>|
            #![trigger lookup(v0, url@, f)]
            fetch_allowed(resolver, v0, url@, f) && lookup(v0, url@, f) == (v1, image),
        _ => v1 == v0 && image is None,
    }
}

} // verus!

verus! {

/// The converter's running state: the markup written, open lists, code and
/// table state, and the import context (asset registry, recorded outline,
/// open heading, image alt-text skipping).
pub struct MdCtx<'r, R: AssetResolver> {
    out: String,
    lists: Vec<Option<u64>>,
    in_code: bool,
    table: Option<TableBuilder>,
    assets: Option<AssetRegistry<'r, R>>,
    outline: Option<Vec<OutlineEntry>>,
    heading: Option<(usize, String)>,
    in_image: bool,
}

impl<'r, R: AssetResolver> MdCtx<'r, R> {
    /// The state as plain values.
    pub closed spec fn view(&self) -> MdState {
        MdState {
            out: self.out@,
            lists: self.lists@,
            in_code: self.in_code,
            table: match self.table {
                Some(t) => Some(t.view()),
                None => None,
            },
            in_image: self.in_image,
            record: self.outline is Some,
            outline: match self.outline {
                Some(o) => entries_view(o@),
                None => Seq::empty(),
            },
            heading: match self.heading {
                Some((i, t)) => Some((i as nat, t@)),
                None => None,
            },
        }
    }

    /// Whether images are looked up (an asset registry is present).
    pub closed spec fn resolves_images(&self) -> bool {
        self.assets is Some
    }

    /// The resolver images are fetched through (when they are looked up).
    pub closed spec fn resolver(&self) -> R {
        match self.assets {
            Some(a) => a.resolver(),
            None => vstd::pervasive::arbitrary(),
        }
    }

    /// The asset registry as plain values (empty when images are not looked up).
    pub closed spec fn registry(&self) -> RegistryView {
        match self.assets {
            Some(a) => a.view(),
            None => RegistryView { names: Seq::empty(), assets: Seq::empty(), ok: 0, failed: 0 },
        }
    }

    /// The internal consistency the converter keeps.
    pub closed spec fn wf(&self) -> bool {
        &&& self.table matches Some(t) ==> t.wf()
        &&& self.assets matches Some(a) ==> a.wf()
    }

    /// A fresh converter; `assets` resolves images when present, `record`
    /// turns headings into outline entries.
    pub fn new(assets: Option<AssetRegistry<'r, R>>, record: bool) -> (c: Self)
        requires
            assets matches Some(a) ==> a.wf(),
        ensures
            c.wf(),
            c.view() == md_init(record),
            c.resolves_images() == (assets is Some),
            assets matches Some(a) ==> c.registry() == a.view() && c.resolver() == a.resolver(),
    {
        let c = MdCtx {
            out: String::new(),
            lists: Vec::new(),
            in_code: false,
            table: None,
            assets,
            outline: if record {
                Some(Vec::new())
            } else {
                None
            },
            heading: None,
            in_image: false,
        };
        assert(c.view() =~= md_init(record));
        c
    }

    fn note_heading_text(&mut self, t: &[char])
        ensures
            final(self).view() == note_heading(old(self).view(), t@),
            final(self).wf() == old(self).wf(),
            final(self).resolves_images() == old(self).resolves_images(),
            final(self).registry() == old(self).registry(),
            final(self).resolver() == old(self).resolver(),
    {
        match self.heading.take() {
            Some((i, mut title)) => {
                crate::text::push_chars(&mut title, t);
                self.heading = Some((i, title));
            },
            None => {},
        }
        assert(self.view() =~= note_heading(old(self).view(), t@));
    }

    fn start_heading(&mut self, level: u8)
        ensures
            final(self).view() == start_heading(old(self).view(), level),
            final(self).wf() == old(self).wf(),
            final(self).resolves_images() == old(self).resolves_images(),
            final(self).registry() == old(self).registry(),
            final(self).resolver() == old(self).resolver(),
    {
        push_char(&mut self.out, '\n');
        match self.outline.take() {
            Some(mut ol) => {
                let idx = ol.len();
                let mut id = String::from_str("md-");
                push_decimal(&mut id, idx);
                push_entry(&mut ol, OutlineEntry { id, level, title: String::new(), offset: 0 });
                self.outline = Some(ol);
                push_char(&mut self.out, SECTION_MARK);
                push_decimal(&mut self.out, idx);
                push_char(&mut self.out, SECTION_MARK);
                self.heading = Some((idx, String::new()));
            },
            None => {},
        }
        push_repeat(&mut self.out, '=', level as usize);
        push_char(&mut self.out, ' ');
        assert(self.view() =~= start_heading(old(self).view(), level));
    }

    fn end_heading(&mut self)
        ensures
            final(self).view() == end_heading(old(self).view()),
            final(self).wf() == old(self).wf(),
            final(self).resolves_images() == old(self).resolves_images(),
            final(self).registry() == old(self).registry(),
            final(self).resolver() == old(self).resolver(),
    {
        match self.heading.take() {
            Some((idx, title)) => {
                match self.outline.take() {
                    Some(mut ol) => {
                        if idx < ol.len() {
                            let c = chars_of(title.as_str());
                            let t = trim_chars(c.as_slice());
                            set_title(&mut ol, idx, crate::text::string_of(t.as_slice()));
                        }
                        self.outline = Some(ol);
                    },
                    None => {},
                }
            },
            None => {},
        }
        self.out.append("\n\n");
        assert(self.view() =~= end_heading(old(self).view()));
    }

    fn start_item(&mut self)
        ensures
            final(self).view() == start_item(old(self).view()),
            final(self).wf() == old(self).wf(),
            final(self).resolves_images() == old(self).resolves_images(),
            final(self).registry() == old(self).registry(),
            final(self).resolver() == old(self).resolver(),
    {
        let n = self.lists.len();
        let depth = if n == 0 {
            0
        } else {
            n - 1
        };
        push_char(&mut self.out, '\n');
        let mut ind = String::new();
        let mut d: usize = 0;
        while d < depth
            invariant
                d <= depth,
                ind@ == indent(d as nat),
            decreases depth - d,
        {
            ind.append("  ");
            d += 1;
        }
        self.out.append(ind.as_str());
        if n > 0 {
            match self.lists[n - 1] {
                Some(k) => {
                    push_decimal_u64(&mut self.out, k);
                    self.out.append(". ");
                    let next: u64 = if k == u64::MAX {
                        0
                    } else {
                        k + 1
                    };
                    self.lists.set(n - 1, Some(next));
                },
                None => {
                    self.out.append("- ");
                },
            }
        } else {
            self.out.append("- ");
        }
        assert(self.view() =~= start_item(old(self).view()));
    }

    fn end_list(&mut self)
        ensures
            final(self).view() == end_list(old(self).view()),
            final(self).wf() == old(self).wf(),
            final(self).resolves_images() == old(self).resolves_images(),
            final(self).registry() == old(self).registry(),
            final(self).resolver() == old(self).resolver(),
    {
        self.lists.pop();
        if self.lists.len() == 0 {
            push_char(&mut self.out, '\n');
        }
        assert(self.view() =~= end_list(old(self).view()));
    }
}

} // verus!

verus! {

impl<'r, R: AssetResolver> MdCtx<'r, R> {
    /// Feed one event outside tables and image alt text; returns what an
    /// image lookup gave.
    fn main_step(&mut self, e: &MdEvent) -> (image: Ghost<Option<Seq<char>>>)
        requires
            old(self).wf(),
            old(self).view().table is None,
            !old(self).view().in_image,
        ensures
            final(self).wf(),
            final(self).view() == main_step(old(self).view(), *e, image@),
            final(self).resolves_images() == old(self).resolves_images(),
            !old(self).resolves_images() ==> image@ is None,
            image@ matches Some(n) ==> (*e matches MdEvent::StartImage(url) && n
                == image_file_name(url@)),
            final(self).resolver() == old(self).resolver(),
            if old(self).resolves_images() && *e is StartImage {
                looked_up(old(self).resolver(), old(self).registry(), *e, final(self).registry(), image@)
            } else {
                final(self).registry() == old(self).registry()
            },
    {
        let ghost s0 = self.view();
        match e {
            MdEvent::StartTable(a) => {
                let aligns = crate::text::slice_take(a.as_slice(), a.len());
                assert(aligns@ =~= a@);
                self.table = Some(TableBuilder::new(aligns));
            },
            MdEvent::StartHeading(level) => self.start_heading(*level),
            MdEvent::EndHeading => self.end_heading(),
            MdEvent::EndParagraph => self.out.append("\n\n"),
            MdEvent::StartEmphasis | MdEvent::EndEmphasis => push_char(&mut self.out, '_'),
            MdEvent::StartStrong | MdEvent::EndStrong => push_char(&mut self.out, '*'),
            MdEvent::StartStrikethrough => self.out.append("#strike["),
            MdEvent::StartBlockQuote => self.out.append("#quote(block: true)[\n"),
            MdEvent::EndBlockQuote => self.out.append("]\n\n"),
            MdEvent::StartCodeBlock(lang) => {
                self.in_code = true;
                self.out.append("```");
                match lang {
                    Some(l) => {
                        let l2 = super::escape::mark_free(l.as_str());
                        self.out.append(l2.as_str());
                    },
                    None => {},
                }
                push_char(&mut self.out, '\n');
                assert(self.view().out =~= s0.out + "```"@ + (match lang {
                    Some(l) => without_mark(l@),
                    None => Seq::empty(),
                }) + seq!['\n']);
            },
            MdEvent::EndCodeBlock => {
                self.in_code = false;
                self.out.append("```\n\n");
            },
            MdEvent::StartList(start) => self.lists.push(*start),
            MdEvent::EndList => self.end_list(),
            MdEvent::StartItem => self.start_item(),
            MdEvent::StartImage(url) => {
                match self.assets.take() {
                    Some(mut reg) => {
                        let found = reg.image(url.as_str());
                        self.assets = Some(reg);
                        match found {
                            Some(name) => {
                                self.out.append("#box(image(\"");
                                let shown = super::escape::mark_free(name.as_str());
                                self.out.append(shown.as_str());
                                self.out.append("\"))");
                                self.in_image = true;
                                assert(self.view() =~= main_step(s0, *e, Some(name@)));
                                return Ghost(Some(name@));
                            },
                            None => {},
                        }
                    },
                    None => {},
                }
            },
            MdEvent::StartLink(url) => {
                self.out.append("#link(\"");
                let u = super::table::escape_url(url.as_str());
                self.out.append(u.as_str());
                self.out.append("\")[");
                assert(self.view().out =~= s0.out + ("#link(\""@ + url_escaped(url@) + "\")["@));
            },
            MdEvent::EndStrikethrough | MdEvent::EndLink => push_char(&mut self.out, ']'),
            MdEvent::Text(t) => {
                let c = chars_of(t.as_str());
                let t2 = super::escape::strip_section_mark(c.as_slice());
                if self.in_code {
                    crate::text::push_chars(&mut self.out, t2.as_slice());
                } else {
                    push_escaped(&mut self.out, t2.as_slice());
                }
                let ghost mid = self.view();
                assert(mid =~= emit(
                    s0,
                    if s0.in_code {
                        t2@
                    } else {
                        escaped(t2@)
                    },
                ));
                self.note_heading_text(t2.as_slice());
            },
            MdEvent::Code(t) => {
                let c = chars_of(t.as_str());
                let code = super::escape::strip_section_mark(c.as_slice());
                push_char(&mut self.out, '`');
                crate::text::push_chars(&mut self.out, code.as_slice());
                push_char(&mut self.out, '`');
                let ghost mid = self.view();
                assert(mid =~= emit(s0, code_span(t@)));
                self.note_heading_text(code.as_slice());
            },
            MdEvent::SoftBreak => push_char(&mut self.out, ' '),
            MdEvent::HardBreak => self.out.append(" \\\n"),
            MdEvent::Rule => self.out.append("\n#line(length: 100%)\n\n"),
            _ => {},
        }
        assert(self.view() =~= main_step(s0, *e, None));
        Ghost(None)
    }

    /// Feed one event; returns what an image lookup gave.
    pub fn step(&mut self, e: &MdEvent) -> (image: Ghost<Option<Seq<char>>>)
        requires
            old(self).wf(),
        ensures
            final(self).wf(),
            final(self).view() == md_step(old(self).view(), *e, image@),
            final(self).resolves_images() == old(self).resolves_images(),
            !old(self).resolves_images() ==> image@ is None,
            image@ matches Some(n) ==> (*e matches MdEvent::StartImage(url) && n
                == image_file_name(url@)),
            final(self).resolver() == old(self).resolver(),
            if old(self).resolves_images() && looks_up_image(old(self).view(), *e) {
                looked_up(old(self).resolver(), old(self).registry(), *e, final(self).registry(), image@)
            } else {
                final(self).registry() == old(self).registry()
            },
    {
        let ghost s0 = self.view();
        match self.table.take() {
            Some(mut t) => {
                if t.handle(e) {
                    self.table = Some(t);
                } else {
                    let r = t.render();
                    self.out.append(r.as_str());
                }
                assert(self.view() =~= md_step(s0, *e, None));
                return Ghost(None);
            },
            None => {},
        }
        if self.in_image {
            if matches!(e, MdEvent::EndImage) {
                self.in_image = false;
            }
            assert(self.view() =~= md_step(s0, *e, None));
            return Ghost(None);
        }
        self.main_step(e)
    }

    /// Take the converter apart: its markup, its recorded outline (when
    /// recording) and its asset registry (when resolving images).
    pub fn into_parts(self) -> (r: (String, Option<Vec<OutlineEntry>>, Option<AssetRegistry<'r, R>>))
        ensures
            r.0@ == self.view().out,
            r.1 is Some == self.view().record,
            r.1 matches Some(o) ==> entries_view(o@) == self.view().outline,
            r.2 is Some == self.resolves_images(),
            r.2 matches Some(a) ==> a.view() == self.registry() && a.resolver() == self.resolver()
                && (self.wf() ==> a.wf()),
    {
        (self.out, self.outline, self.assets)
    }

    /// The markup written so far.
    pub fn markup(&self) -> (s: &String)
        ensures
            s@ == self.view().out,
    {
        &self.out
    }
}

/// Run the converter over `events`; returns what each event's image lookup
/// gave (`None` where nothing was looked up) and what each fetch answered.
/// With a registry, the registry ends as [`reg_run`] says, every fetch
/// answering as the resolver may.
pub fn run_events<'r, R: AssetResolver>(conv: &mut MdCtx<'r, R>, events: &[MdEvent]) -> (lk: Ghost<
    (Seq<Option<Seq<char>>>, Seq<Option<Seq<u8>>>),
>)
    requires
        old(conv).wf(),
    ensures
        final(conv).wf(),
        lk@.0.len() == events@.len(),
        lk@.1.len() == events@.len(),
        final(conv).view() == md_run_from(old(conv).view(), events@, lk@.0),
        final(conv).resolves_images() == old(conv).resolves_images(),
        final(conv).resolver() == old(conv).resolver(),
        !old(conv).resolves_images() ==> lk@.0 == no_images(events@.len()),
        !old(conv).resolves_images() ==> final(conv).registry() == old(conv).registry(),
        forall|i: int|
            0 <= i < events@.len() ==> (#[trigger] lk@.0[i] matches Some(n) ==> (
            events@[i] matches MdEvent::StartImage(url) && n == image_file_name(url@))),
        old(conv).resolves_images() ==> lookups_agree(
            old(conv).resolver(),
            old(conv).view(),
            old(conv).registry(),
            events@,
            lk@.0,
            lk@.1,
        ),
        old(conv).resolves_images() ==> final(conv).registry() == reg_run(
            old(conv).view(),
            old(conv).registry(),
            events@,
            lk@.0,
            lk@.1,
        ),
{
    let ghost s0 = conv.view();
    let ghost r0 = conv.registry();
    let ghost res = conv.resolver();
    let ghost mut images: Seq<Option<Seq<char>>> = Seq::empty();
    let ghost mut fetched: Seq<Option<Seq<u8>>> = Seq::empty();
    let mut i: usize = 0;
    proof {
        assert(events@.take(0) =~= Seq::<MdEvent>::empty());
    }
    while i < events.len()
        invariant
            i <= events@.len(),
            conv.wf(),
            images.len() == i,
            fetched.len() == i,
            conv.view() == md_run_from(s0, events@.take(i as int), images),
            conv.resolves_images() == old(conv).resolves_images(),
            conv.resolver() == res,
            res == old(conv).resolver(),
            s0 == old(conv).view(),
            r0 == old(conv).registry(),
            !old(conv).resolves_images() ==> images == no_images(i as nat),
            !old(conv).resolves_images() ==> conv.registry() == r0,
            forall|k: int|
                0 <= k < i ==> (#[trigger] images[k] matches Some(n) ==> (
                events@[k] matches MdEvent::StartImage(url) && n == image_file_name(url@))),
            old(conv).resolves_images() ==> lookups_agree(
                res,
                s0,
                r0,
                events@.take(i as int),
                images,
                fetched,
            ),
            old(conv).resolves_images() ==> conv.registry() == reg_run(
                s0,
                r0,
                events@.take(i as int),
                images,
                fetched,
            ),
        decreases events.len() - i,
    {
        let ghost r1 = conv.registry();
        let ghost st = conv.view();
        let g = conv.step(&events[i]);
        proof {
            let e = events@[i as int];
            let pre = events@.take(i as int);
            let f: Option<Seq<u8>> = if old(conv).resolves_images() && looks_up_image(st, e) {
                match e {
                    MdEvent::StartImage(url) => choose|f: Option<Seq<u8>>|
                        fetch_allowed(res, r1, url@, f) && #[trigger] lookup(r1, url@, f) == (
                            conv.registry(),
                            g@,
                        ),
                    _ => None,
                }
            } else {
                None
            };
            let ni = images.push(g@);
            let nf = fetched.push(f);
            assert(events@.take(i + 1) =~= pre.push(e));
            lemma_run_from_extend(s0, pre, images, g@);
            assert(md_run_from(s0, pre.push(e), ni) == md_step(
                md_run_from(s0, pre, images),
                e,
                g@,
            ));
            if !old(conv).resolves_images() {
                assert(ni =~= no_images((i + 1) as nat));
            } else {
                lemma_lookups_extend(res, s0, r0, pre, images, fetched, e, g@, f);
            }
            images = ni;
            fetched = nf;
        }
        i += 1;
    }
    assert(events@.take(events.len() as int) =~= events@);
    Ghost((images, fetched))
}

/// The registry after running `events` from state `s` and registry `r0`,
/// `images[i]` and `fetched[i]` being what event `i`'s lookup gave and what
/// its fetch answered.
pub open spec fn reg_run(
    s: MdState,
    r0: RegistryView,
    events: Seq<MdEvent>,
    images: Seq<Option<Seq<char>>>,
    fetched: Seq<Option<Seq<u8>>>,
) -> RegistryView
    decreases events.len(),
{
    if events.len() == 0 {
        r0
    } else {
        let prev = events.drop_last();
        let r = reg_run(s, r0, prev, images, fetched);
        if looks_up_image(md_run_from(s, prev, images), events.last()) {
            match events.last() {
                MdEvent::StartImage(url) => lookup(r, url@, fetched[events.len() - 1]).0,
                _ => r,
            }
        } else {
            r
        }
    }
}

/// Every lookup while running `events` gave what [`lookup`] says for its
/// fetch's answer, and every answer is one the resolver may give.
pub open spec fn lookups_agree<R: AssetResolver>(
    resolver: R,
    s: MdState,
    r0: RegistryView,
    events: Seq<MdEvent>,
    images: Seq<Option<Seq<char>>>,
    fetched: Seq<Option<Seq<u8>>>,
) -> bool
    decreases events.len(),
{
    if events.len() == 0 {
        true
    } else {
        let prev = events.drop_last();
        let r = reg_run(s, r0, prev, images, fetched);
        let k = events.len() - 1;
        &&& lookups_agree(resolver, s, r0, prev, images, fetched)
        &&& looks_up_image(md_run_from(s, prev, images), events.last()) ==> match events.last() {
            MdEvent::StartImage(url) => fetch_allowed(resolver, r, url@, fetched[k]) && lookup(
                r,
                url@,
                fetched[k],
            ).1 == images[k],
            _ => true,
        }
    }
}

proof fn lemma_lookups_prefix<R: AssetResolver>(
    resolver: R,
    s: MdState,
    r0: RegistryView,
    events: Seq<MdEvent>,
    images: Seq<Option<Seq<char>>>,
    fetched: Seq<Option<Seq<u8>>>,
    more_i: Seq<Option<Seq<char>>>,
    more_f: Seq<Option<Seq<u8>>>,
)
    requires
        images.len() >= events.len(),
        fetched.len() >= events.len(),
    ensures
        reg_run(s, r0, events, images, fetched) == reg_run(s, r0, events, images + more_i, fetched + more_f),
        lookups_agree(resolver, s, r0, events, images, fetched) == lookups_agree(
            resolver,
            s,
            r0,
            events,
            images + more_i,
            fetched + more_f,
        ),
    decreases events.len(),
{
    if events.len() > 0 {
        let k = events.len() - 1;
        lemma_lookups_prefix(resolver, s, r0, events.drop_last(), images, fetched, more_i, more_f);
        lemma_run_from_prefix(s, events.drop_last(), images, more_i);
        assert((images + more_i)[k] == images[k]);
        assert((fetched + more_f)[k] == fetched[k]);
    }
}

proof fn lemma_lookups_extend<R: AssetResolver>(
    resolver: R,
    s: MdState,
    r0: RegistryView,
    events: Seq<MdEvent>,
    images: Seq<Option<Seq<char>>>,
    fetched: Seq<Option<Seq<u8>>>,
    e: MdEvent,
    g: Option<Seq<char>>,
    f: Option<Seq<u8>>,
)
    requires
        images.len() == events.len(),
        fetched.len() == events.len(),
    ensures
        ({
            let st = md_run_from(s, events, images);
            let r = reg_run(s, r0, events, images, fetched);
            let ne = events.push(e);
            let ni = images.push(g);
            let nf = fetched.push(f);
            &&& reg_run(s, r0, ne, ni, nf) == if looks_up_image(st, e) {
                match e {
                    MdEvent::StartImage(url) => lookup(r, url@, f).0,
                    _ => r,
                }
            } else {
                r
            }
            &&& lookups_agree(resolver, s, r0, ne, ni, nf) == (lookups_agree(
                resolver,
                s,
                r0,
                events,
                images,
                fetched,
            ) && (looks_up_image(st, e) ==> match e {
                MdEvent::StartImage(url) => fetch_allowed(resolver, r, url@, f) && lookup(
                    r,
                    url@,
                    f,
                ).1 == g,
                _ => true,
            }))
        }),
{
    let ne = events.push(e);
    assert(ne.drop_last() =~= events);
    lemma_lookups_prefix(resolver, s, r0, events, images, fetched, seq![g], seq![f]);
    lemma_run_from_prefix(s, events, images, seq![g]);
    assert(images + seq![g] =~= images.push(g));
    assert(fetched + seq![f] =~= fetched.push(f));
}

/// The state after `events` from `s`, `images[i]` answering event `i`.
pub open spec fn md_run_from(s: MdState, events: Seq<MdEvent>, images: Seq<Option<Seq<char>>>) -> MdState
    decreases events.len(),
{
    if events.len() == 0 {
        s
    } else {
        md_step(md_run_from(s, events.drop_last(), images), events.last(), images[events.len() - 1])
    }
}

/// Answers past the events run so far do not matter.
proof fn lemma_run_from_prefix(
    s: MdState,
    events: Seq<MdEvent>,
    images: Seq<Option<Seq<char>>>,
    more: Seq<Option<Seq<char>>>,
)
    requires
        images.len() >= events.len(),
    ensures
        md_run_from(s, events, images) == md_run_from(s, events, images + more),
    decreases events.len(),
{
    if events.len() > 0 {
        lemma_run_from_prefix(s, events.drop_last(), images, more);
        assert((images + more)[events.len() - 1] == images[events.len() - 1]);
    }
}

proof fn lemma_run_from_extend(
    s: MdState,
    events: Seq<MdEvent>,
    images: Seq<Option<Seq<char>>>,
    g: Option<Seq<char>>,
)
    requires
        images.len() == events.len(),
    ensures
        forall|e: MdEvent|
            md_run_from(s, events.push(e), images.push(g)) == md_step(
                md_run_from(s, events, images),
                e,
                g,
            ),
{
    assert forall|e: MdEvent|
        md_run_from(s, events.push(e), images.push(g)) == md_step(
            md_run_from(s, events, images),
            e,
            g,
        ) by {
        assert(events.push(e).drop_last() =~= events);
        lemma_run_from_prefix(s, events, images, seq![g]);
        assert(images + seq![g] =~= images.push(g));
    }
}

/// Whether headings are recorded never changes while running.
pub proof fn lemma_run_keeps_record(s: MdState, events: Seq<MdEvent>, images: Seq<Option<Seq<char>>>)
    ensures
        md_run_from(s, events, images).record == s.record,
    decreases events.len(),
{
    if events.len() > 0 {
        lemma_run_keeps_record(s, events.drop_last(), images);
    }
}

/// `md_run` is running from the initial state.
pub proof fn lemma_run_is_run_from(events: Seq<MdEvent>, images: Seq<Option<Seq<char>>>, record: bool)
    ensures
        md_run(events, images, record) == md_run_from(md_init(record), events, images),
    decreases events.len(),
{
    if events.len() > 0 {
        lemma_run_is_run_from(events.drop_last(), images, record);
    }
}

/// The Typst markup of a Markdown document on the editable path: no image is
/// resolved and no outline recorded.
pub open spec fn markdown_markup(md: Seq<char>, smart: bool) -> Seq<char> {
    let events = super::events::markdown_parse(md, super::events::option_bits(smart));
    md_run(events, no_images(events.len()), false).out
}

/// The Typst markup of parsed Markdown events on the editable path: no image
/// is resolved and no outline recorded.
pub fn events_to_typst(events: &[MdEvent]) -> (out: String)
    ensures
        out@ == md_run(events@, no_images(events@.len()), false).out,
{
    let mut conv: MdCtx<'static, super::asset::NoAssets> = MdCtx::new(None, false);
    let lk = run_events(&mut conv, events);
    proof {
        lemma_run_is_run_from(events@, lk@.0, false);
    }
    let out = conv.markup().clone();
    out
}

/// Convert Markdown for the editable text path: no assets, no recorded
/// outline. `smart` enables smart punctuation.
pub fn markdown_to_typst(md: &str, smart: bool) -> (out: String)
    ensures
        out@ == markdown_markup(md@, smart),
{
    let bits = super::events::markdown_option_bits(smart);
    let events = super::events::parse_markdown(md, bits);
    events_to_typst(events.as_slice())
}

/// Every looked-up image answered consistently: one answer per event, and
/// each found file is named after its event's image source.
pub open spec fn lookups_match(events: Seq<MdEvent>, images: Seq<Option<Seq<char>>>) -> bool {
    &&& images.len() == events.len()
    &&& forall|i: int|
        0 <= i < events.len() ==> (#[trigger] images[i] matches Some(n) ==> (
        events[i] matches MdEvent::StartImage(url) && n == image_file_name(url@)))
}

/// An empty registry.
pub open spec fn empty_registry() -> RegistryView {
    RegistryView { names: Seq::empty(), assets: Seq::empty(), ok: 0, failed: 0 }
}

/// What importing `events` gives when image lookups answer `images` and
/// fetches answer `fetched`: the converted markup without its section markers
/// and leading whitespace; the headings' outline with each offset at its
/// heading's markup; no title; the registered files, in order, each first
/// successful fetch of a source stored under its file name with the fetched
/// bytes; and the tallies of resolved and failed images.
pub open spec fn imported_as(
    events: Seq<MdEvent>,
    images: Seq<Option<Seq<char>>>,
    fetched: Seq<Option<Seq<u8>>>,
    doc: ImportedDoc,
) -> bool {
    let st = md_run_from(md_init(true), events, images);
    let reg = reg_run(md_init(true), empty_registry(), events, images, fetched);
    let body = stripped(st.out);
    &&& doc.body@ == trim_start(body)
    &&& entries_view(doc.outline@) == shifted_outline(
        apply_markers(st.outline, markers(st.out, 0), body),
        byte_offset(body, lead_ws(body)),
    )
    &&& doc.title is None
    &&& doc.assets@.map_values(|p: (String, Vec<u8>)| (p.0@, p.1@)) == reg.assets
    &&& doc.stats.images_ok == reg.ok
    &&& doc.stats.images_failed == reg.failed
    &&& doc.stats.math_tex == 0 && doc.stats.math_image == 0 && doc.stats.math_raw == 0
    &&& doc.stats.citations == 0
}

/// Import parsed Markdown events: images are fetched through `resolver` and
/// every heading becomes an outline entry. When every heading level is 1 to 6
/// and the body's byte offsets fit in `usize`, each entry's offset is the byte
/// position of its heading's `=` markup in the body, and the offsets strictly
/// increase.
pub fn import_events<R: AssetResolver>(events: &[MdEvent], resolver: &R) -> (doc: ImportedDoc)
    ensures
        exists|images: Seq<Option<Seq<char>>>, fetched: Seq<Option<Seq<u8>>>|
            #![trigger imported_as(events@, images, fetched, doc)]
            lookups_match(events@, images) && fetched.len() == events@.len() && lookups_agree(
                *resolver,
                md_init(true),
                empty_registry(),
                events@,
                images,
                fetched,
            ) && imported_as(events@, images, fetched, doc) && (levels_valid(events@)
                && import_fits(events@, images) ==> outline_in_place(doc.body@, doc.outline@)),
{
    let reg = AssetRegistry::new(resolver);
    let mut conv = MdCtx::new(Some(reg), true);
    let lk = run_events(&mut conv, events);
    let ghost images = lk@.0;
    let ghost fetched = lk@.1;
    let ghost st = conv.view();
    let ghost rv = conv.registry();
    let (raw_s, outline_opt, reg_opt) = conv.into_parts();
    let mut outline = match outline_opt {
        Some(o) => o,
        None => Vec::new(),
    };
    let raw = chars_of(raw_s.as_str());
    proof {
        lemma_run_keeps_record(md_init(true), events@, images);
        assert(st.record);
        assert(entries_view(outline@) == st.outline);
        assert(raw@ == st.out);
    }
    let body_chars = strip_markers(raw.as_slice(), &mut outline);
    let ghost marked = entries_view(outline@);
    let lead = count_lead_ws(body_chars.as_slice());
    proof {
        crate::text::lemma_lead_ws(body_chars@);
    }
    let shift = prefix_bytes(body_chars.as_slice(), lead);
    let rest = slice_skip(body_chars.as_slice(), lead);
    shift_offsets(&mut outline, shift);
    proof {
        assert(entries_view(outline@) == shifted_outline(marked, byte_offset(body_chars@, lead as nat)));
    }
    let body = string_of(rest.as_slice());
    let (ok, failed, assets) = match reg_opt {
        Some(r) => {
            let ok = r.ok();
            let failed = r.failed();
            (ok, failed, r.into_assets())
        },
        None => (0, 0, Vec::new()),
    };
    proof {
        assert(assets@.map_values(|p: (String, Vec<u8>)| (p.0@, p.1@)) == rv.assets);
    }
    let stats = ImportStats {
        images_ok: ok,
        images_failed: failed,
        math_tex: 0,
        math_image: 0,
        math_raw: 0,
        citations: 0,
    };
    let doc = ImportedDoc { body, assets, outline, title: None, stats };
    proof {
        lemma_run_is_run_from(events@, images, true);
        assert(lookups_match(events@, images));
        assert(imported_as(events@, images, fetched, doc));
        if levels_valid(events@) && import_fits(events@, images) {
            lemma_outline_in_place(events@, images, fetched, doc);
        }
    }
    doc
}

/// Convert a Markdown document into a typesettable [`ImportedDoc`]: images are
/// fetched through `resolver`, and every heading becomes an outline entry
/// whose offset is the byte position of its `=` markup in the body (when the
/// body's byte offsets fit in `usize`), offsets strictly increasing. No title
/// is taken from the body.
pub fn import_markdown<R: AssetResolver>(md: &str, resolver: &R, smart: bool) -> (doc: ImportedDoc)
    ensures
        ({
            let events = super::events::markdown_parse(md@, super::events::option_bits(smart));
            exists|images: Seq<Option<Seq<char>>>, fetched: Seq<Option<Seq<u8>>>|
                #![trigger imported_as(events, images, fetched, doc)]
                lookups_match(events, images) && fetched.len() == events.len() && lookups_agree(
                    *resolver,
                    md_init(true),
                    empty_registry(),
                    events,
                    images,
                    fetched,
                ) && imported_as(events, images, fetched, doc) && (import_fits(events, images)
                    ==> outline_in_place(doc.body@, doc.outline@))
        }),
{
    let bits = super::events::markdown_option_bits(smart);
    let events = super::events::parse_markdown(md, bits);
    assert(levels_valid(events@));
    import_events(events.as_slice(), resolver)
}

/// An imported body holds no section mark: every marker the converter
/// planted is removed, and so is every stray mark.
pub proof fn lemma_import_body_has_no_mark(
    events: Seq<MdEvent>,
    images: Seq<Option<Seq<char>>>,
    fetched: Seq<Option<Seq<u8>>>,
    doc: ImportedDoc,
)
    requires
        imported_as(events, images, fetched, doc),
    ensures
        !doc.body@.contains(SECTION_MARK),
{
    let st = md_run_from(md_init(true), events, images);
    let body = stripped(st.out);
    super::outline::lemma_stripped_has_no_mark(st.out);
    crate::text::lemma_lead_ws(body);
    if doc.body@.contains(SECTION_MARK) {
        let k = choose|k: int| 0 <= k < doc.body@.len() && doc.body@[k] == SECTION_MARK;
        assert(doc.body@[k] == body[k + lead_ws(body)]);
    }
}

} // verus!
