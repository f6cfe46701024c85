//! Where an imported document's sections start: every heading's outline
//! offset is the byte position of its `=` markup in the imported body (for
//! heading levels 1 to 6 and bodies whose byte offsets fit in `usize`), and
//! the offsets strictly increase.
use vstd::prelude::*;

use super::asset::image_file_name;
use super::escape::{digit_run, escaped, lemma_escaped_has_no_mark, without_mark, SECTION_MARK};
use super::outline::{digits_value, marker_len, markers, stripped};
use super::table::{
    align_list, align_word, body_lines, cell_list, cell_push, column_count, finish_row, flat_cells,
    table_markup, table_step, url_escaped, CellTable,
};
use super::events::MdEvent;
use super::markdown::{imported_as, lookups_match, md_init, md_run, md_run_from, no_images, MdState};
use super::outline::{
    apply_markers, byte_offset, entries_view, shifted_outline, utf8_len, EntryView, OutlineEntry,
};
use super::ImportedDoc;
use crate::text::lead_ws;
use crate::text::{decimal, digit_char, repeat_char, replace_all, trim};

verus! {

/// `s` holds no section mark.
pub open spec fn free(s: Seq<char>) -> bool {
    !s.contains(SECTION_MARK)
}

pub proof fn lemma_free_concat(a: Seq<char>, b: Seq<char>)
    requires
        free(a),
        free(b),
    ensures
        free(a + b),
{
    if (a + b).contains(SECTION_MARK) {
        let k = choose|k: int| 0 <= k < (a + b).len() && (a + b)[k] == SECTION_MARK;
        if k < a.len() {
            assert(a[k] == SECTION_MARK);
        } else {
            assert(b[k - a.len()] == SECTION_MARK);
        }
    }
}

pub proof fn lemma_free_subrange(a: Seq<char>, i: int, j: int)
    requires
        free(a),
        0 <= i <= j <= a.len(),
    ensures
        free(a.subrange(i, j)),
{
    if a.subrange(i, j).contains(SECTION_MARK) {
        let k = choose|k: int| 0 <= k < j - i && a.subrange(i, j)[k] == SECTION_MARK;
        assert(a[i + k] == SECTION_MARK);
    }
}

/// A sequence of ASCII characters is free of marks.
pub proof fn lemma_ascii_free(s: Seq<char>)
    requires
        forall|i: int| 0 <= i < s.len() ==> (#[trigger] s[i] as u32) < 128,
    ensures
        free(s),
{
    if s.contains(SECTION_MARK) {
        let k = choose|k: int| 0 <= k < s.len() && s[k] == SECTION_MARK;
        assert((s[k] as u32) < 128);
    }
}

pub proof fn lemma_decimal_free(n: nat)
    ensures
        free(decimal(n)),
        decimal(n).len() > 0,
        forall|i: int| 0 <= i < decimal(n).len() ==> '0' <= #[trigger] decimal(n)[i] <= '9',
    decreases n,
{
    if n >= 10 {
        lemma_decimal_free(n / 10);
        let p = decimal(n / 10);
        assert(decimal(n) == p.push(digit_char(n % 10)));
        assert forall|i: int| 0 <= i < decimal(n).len() implies '0' <= #[trigger] decimal(n)[i]
            <= '9' by {
            if i < p.len() {
                assert(decimal(n)[i] == p[i]);
            }
        }
    }
    assert forall|i: int| 0 <= i < decimal(n).len() implies (#[trigger] decimal(n)[i] as u32)
        < 128 by {
        assert('0' <= decimal(n)[i] <= '9');
    }
    lemma_ascii_free(decimal(n));
}

pub proof fn lemma_repeat_free(c: char, n: nat)
    requires
        c != SECTION_MARK,
    ensures
        free(repeat_char(c, n)),
{
    if repeat_char(c, n).contains(SECTION_MARK) {
        let k = choose|k: int| 0 <= k < n && repeat_char(c, n)[k] == SECTION_MARK;
        assert(repeat_char(c, n)[k] == c);
    }
}

pub proof fn lemma_without_mark_free(s: Seq<char>)
    ensures
        free(without_mark(s)),
{
    let f = |c: char| c != SECTION_MARK;
    assert(without_mark(s) == s.filter(f));
    if without_mark(s).contains(SECTION_MARK) {
        let k = choose|k: int| 0 <= k < without_mark(s).len() && without_mark(s)[k] == SECTION_MARK;
        s.lemma_filter_pred(f, k);
    }
}

pub proof fn lemma_escaped_free(s: Seq<char>)
    ensures
        free(escaped(s)),
{
    lemma_escaped_has_no_mark(s);
}

pub proof fn lemma_replace_free(s: Seq<char>, pat: Seq<char>, rep: Seq<char>)
    requires
        free(s),
        free(rep),
    ensures
        free(replace_all(s, pat, rep)),
    decreases s.len(),
{
    if s.len() > 0 {
        if pat.len() > 0 && crate::text::occurs_at(s, 0, pat) {
            lemma_free_subrange(s, pat.len() as int, s.len() as int);
            assert(s.skip(pat.len() as int) == s.subrange(pat.len() as int, s.len() as int));
            lemma_replace_free(s.skip(pat.len() as int), pat, rep);
            lemma_free_concat(rep, replace_all(s.skip(pat.len() as int), pat, rep));
        } else {
            lemma_free_subrange(s, 1, s.len() as int);
            assert(s.drop_first() == s.subrange(1, s.len() as int));
            lemma_replace_free(s.drop_first(), pat, rep);
            assert(s[0] != SECTION_MARK);
            assert(!seq![s[0]].contains(SECTION_MARK)) by {
                if seq![s[0]].contains(SECTION_MARK) {
                    assert(seq![s[0]][0] == SECTION_MARK);
                }
            }
            lemma_free_concat(seq![s[0]], replace_all(s.drop_first(), pat, rep));
        }
    }
}

/// Scanning `raw` for markers never runs off its end: every mark the scan
/// meets starts a complete marker.
pub open spec fn clean(raw: Seq<char>) -> bool
    decreases raw.len(),
{
    if raw.len() == 0 {
        true
    } else if raw[0] == SECTION_MARK {
        let m = marker_len(raw);
        m > 0 && clean(raw.skip(m as int))
    } else {
        clean(raw.drop_first())
    }
}

/// The markup that opens a recorded heading: its marker, then `=` per level
/// and a space.
pub open spec fn heading_head(k: nat, level: nat) -> Seq<char> {
    seq![SECTION_MARK] + decimal(k) + seq![SECTION_MARK] + repeat_char('=', level) + seq![' ']
}

proof fn lemma_digit_run_append(x: Seq<char>, y: Seq<char>)
    requires
        digit_run(x) < x.len(),
    ensures
        digit_run(x + y) == digit_run(x),
    decreases x.len(),
{
    if '0' <= x[0] <= '9' {
        assert((x + y).drop_first() =~= x.drop_first() + y);
        lemma_digit_run_append(x.drop_first(), y);
    }
}

proof fn lemma_digit_run_digits(x: Seq<char>, y: Seq<char>)
    requires
        forall|i: int| 0 <= i < x.len() ==> '0' <= #[trigger] x[i] <= '9',
    ensures
        digit_run(x + y) == x.len() + digit_run(y),
    decreases x.len(),
{
    if x.len() > 0 {
        assert((x + y).drop_first() =~= x.drop_first() + y);
        assert forall|i: int| 0 <= i < x.drop_first().len() implies '0' <= #[trigger] x.drop_first()[i]
            <= '9' by {
            assert(x.drop_first()[i] == x[i + 1]);
        }
        lemma_digit_run_digits(x.drop_first(), y);
    } else {
        assert(x + y =~= y);
    }
}

proof fn lemma_digits_value_decimal(n: nat)
    ensures
        digits_value(decimal(n)) == n,
    decreases n,
{
    if n >= 10 {
        lemma_digits_value_decimal(n / 10);
        let p = decimal(n / 10);
        assert(decimal(n).drop_last() =~= p);
        assert(decimal(n).last() == digit_char(n % 10));
        assert((digit_char(n % 10) as u32) == 48 + n % 10);
        assert(digits_value(decimal(n)) == digits_value(p) * 10 + ((decimal(n).last() as u32) - 48) as nat);
        assert(n == (n / 10) * 10 + n % 10);
    } else {
        assert(decimal(n).drop_last() =~= Seq::<char>::empty());
        assert((digit_char(n) as u32) == 48 + n);
        assert(digits_value(Seq::<char>::empty()) == 0);
        assert(digits_value(decimal(n)) == digits_value(decimal(n).drop_last()) * 10 + ((
        decimal(n).last() as u32) - 48) as nat);
    }
}

proof fn lemma_marker_len_append(a: Seq<char>, b: Seq<char>)
    requires
        a.len() > 0,
        marker_len(a) > 0,
    ensures
        marker_len(a + b) == marker_len(a),
        (a + b).subrange(1, marker_len(a) - 1) == a.subrange(1, marker_len(a) - 1),
{
    let d = digit_run(a.drop_first());
    assert((a + b).drop_first() =~= a.drop_first() + b);
    lemma_digit_run_append(a.drop_first(), b);
    assert((a + b).subrange(1, marker_len(a) - 1) =~= a.subrange(1, marker_len(a) - 1));
}

/// Text after a cleanly scanned prefix is scanned on its own.
pub proof fn lemma_scan_append(a: Seq<char>, b: Seq<char>, base: nat)
    requires
        clean(a),
    ensures
        clean(a + b) == clean(b),
        stripped(a + b) == stripped(a) + stripped(b),
        markers(a + b, base) == markers(a, base) + markers(b, base + stripped(a).len()),
    decreases a.len(),
{
    if a.len() == 0 {
        assert(a + b =~= b);
        assert(stripped(a) + stripped(b) =~= stripped(b));
        assert(markers(a, base) + markers(b, base) =~= markers(b, base));
    } else if a[0] == SECTION_MARK {
        let m = marker_len(a);
        lemma_marker_len_append(a, b);
        assert((a + b).skip(m as int) =~= a.skip(m as int) + b);
        lemma_scan_append(a.skip(m as int), b, base);
        assert(stripped(a + b) == stripped((a + b).skip(m as int)));
        assert(stripped(a) == stripped(a.skip(m as int)));
        assert((a + b)[0] == SECTION_MARK);
        let v = digits_value(a.subrange(1, m - 1));
        assert(markers(a + b, base) == seq![(v, base)] + markers((a + b).skip(m as int), base));
        assert(markers(a, base) == seq![(v, base)] + markers(a.skip(m as int), base));
        assert(markers(a + b, base) =~= markers(a, base) + markers(b, base + stripped(a).len()));
    } else {
        assert((a + b).drop_first() =~= a.drop_first() + b);
        lemma_scan_append(a.drop_first(), b, base + 1);
        assert((a + b)[0] == a[0]);
        assert(stripped(a + b) =~= stripped(a) + stripped(b));
        assert(markers(a + b, base) =~= markers(a, base) + markers(b, base + stripped(a).len()));
    }
}

/// Text without marks scans cleanly, strips to itself and has no markers.
pub proof fn lemma_scan_free(t: Seq<char>, base: nat)
    requires
        free(t),
    ensures
        clean(t),
        stripped(t) == t,
        markers(t, base) == Seq::<(nat, nat)>::empty(),
    decreases t.len(),
{
    if t.len() > 0 {
        assert(t[0] != SECTION_MARK) by {
            if t[0] == SECTION_MARK {
                assert(t.contains(SECTION_MARK));
            }
        }
        lemma_free_subrange(t, 1, t.len() as int);
        assert(t.drop_first() == t.subrange(1, t.len() as int));
        lemma_scan_free(t.drop_first(), base + 1);
        assert(stripped(t) =~= t);
    }
}

/// A heading's opening markup scans cleanly to its `=` markup, with one
/// marker numbered `k` at its start.
pub proof fn lemma_scan_head(k: nat, level: nat, base: nat)
    ensures
        clean(heading_head(k, level)),
        stripped(heading_head(k, level)) == repeat_char('=', level) + seq![' '],
        markers(heading_head(k, level), base) == seq![(k, base)],
{
    let h = heading_head(k, level);
    let dk = decimal(k);
    let tail = repeat_char('=', level) + seq![' '];
    lemma_decimal_free(k);
    assert(h =~= seq![SECTION_MARK] + (dk + (seq![SECTION_MARK] + tail)));
    assert(h.drop_first() =~= dk + (seq![SECTION_MARK] + tail));
    lemma_digit_run_digits(dk, seq![SECTION_MARK] + tail);
    assert(digit_run(seq![SECTION_MARK] + tail) == 0);
    let m = dk.len() + 2;
    assert(h[dk.len() as int + 1] == SECTION_MARK);
    assert(marker_len(h) == m);
    assert(h.skip(m as int) =~= tail);
    lemma_repeat_free('=', level);
    assert(!seq![' '].contains(SECTION_MARK)) by {
        if seq![' '].contains(SECTION_MARK) {
            assert(seq![' '][0] == SECTION_MARK);
        }
    }
    lemma_free_concat(repeat_char('=', level), seq![' ']);
    lemma_scan_free(tail, base);
    assert(h.subrange(1, m - 1) =~= dk);
    lemma_digits_value_decimal(k);
    assert(markers(h, base) =~= seq![(k, base)] + markers(tail, base));
}

/// The fixed markup the converter writes holds no mark.
pub proof fn lemma_literals_free()
    ensures
        free("center"@),
        free("right"@),
        free("left"@),
        free(", "@),
        free("  "@),
        free(",\n"@),
        free("  align: ("@),
        free(","@),
        free("),\n"@),
        free("  table.header("@),
        free("#table(\n"@),
        free("  columns: "@),
        free(")\n\n"@),
        free("\n\n"@),
        free("#strike["@),
        free("#quote(block: true)[\n"@),
        free("]\n\n"@),
        free("```"@),
        free("```\n\n"@),
        free("#box(image(\""@),
        free("\"))"@),
        free("#link(\""@),
        free("\")["@),
        free(" \\\n"@),
        free("\n#line(length: 100%)\n\n"@),
        free(". "@),
        free("- "@),
{
    reveal_strlit("center");
    lemma_ascii_free("center"@);
    reveal_strlit("right");
    lemma_ascii_free("right"@);
    reveal_strlit("left");
    lemma_ascii_free("left"@);
    reveal_strlit(", ");
    lemma_ascii_free(", "@);
    reveal_strlit("  ");
    lemma_ascii_free("  "@);
    reveal_strlit(",\n");
    lemma_ascii_free(",\n"@);
    reveal_strlit("  align: (");
    lemma_ascii_free("  align: ("@);
    reveal_strlit(",");
    lemma_ascii_free(","@);
    reveal_strlit("),\n");
    lemma_ascii_free("),\n"@);
    reveal_strlit("  table.header(");
    lemma_ascii_free("  table.header("@);
    reveal_strlit("#table(\n");
    lemma_ascii_free("#table(\n"@);
    reveal_strlit("  columns: ");
    lemma_ascii_free("  columns: "@);
    reveal_strlit(")\n\n");
    lemma_ascii_free(")\n\n"@);
    reveal_strlit("\n\n");
    lemma_ascii_free("\n\n"@);
    reveal_strlit("#strike[");
    lemma_ascii_free("#strike["@);
    reveal_strlit("#quote(block: true)[\n");
    lemma_ascii_free("#quote(block: true)[\n"@);
    reveal_strlit("]\n\n");
    lemma_ascii_free("]\n\n"@);
    reveal_strlit("```");
    lemma_ascii_free("```"@);
    reveal_strlit("```\n\n");
    lemma_ascii_free("```\n\n"@);
    reveal_strlit("#box(image(\"");
    lemma_ascii_free("#box(image(\""@);
    reveal_strlit("\"))");
    lemma_ascii_free("\"))"@);
    reveal_strlit("#link(\"");
    lemma_ascii_free("#link(\""@);
    reveal_strlit("\")[");
    lemma_ascii_free("\")["@);
    reveal_strlit(" \\\n");
    lemma_ascii_free(" \\\n"@);
    reveal_strlit("\n#line(length: 100%)\n\n");
    lemma_ascii_free("\n#line(length: 100%)\n\n"@);
    reveal_strlit(". ");
    lemma_ascii_free(". "@);
    reveal_strlit("- ");
    lemma_ascii_free("- "@);
}

pub proof fn lemma_char_free(c: char)
    requires
        c != SECTION_MARK,
    ensures
        free(seq![c]),
{
    if seq![c].contains(SECTION_MARK) {
        assert(seq![c][0] == SECTION_MARK);
    }
}

/// Every piece of text a table holds is free of marks.
pub open spec fn table_free(t: CellTable) -> bool {
    &&& free(t.cell)
    &&& forall|i: int| 0 <= i < t.row.len() ==> free(#[trigger] t.row[i])
    &&& forall|i: int, j: int|
        0 <= i < t.rows.len() && 0 <= j < t.rows[i].len() ==> free(#[trigger] t.rows[i][j])
}

proof fn lemma_trim_free(s: Seq<char>)
    requires
        free(s),
    ensures
        free(trim(s)),
{
    crate::text::lemma_lead_ws(s);
    let a = s.skip(crate::text::lead_ws(s) as int);
    lemma_free_subrange(s, crate::text::lead_ws(s) as int, s.len() as int);
    assert(a == s.subrange(crate::text::lead_ws(s) as int, s.len() as int));
    crate::text::lemma_trail_ws(a);
    lemma_free_subrange(a, 0, a.len() - crate::text::trail_ws(a));
    assert(trim(s) == a.subrange(0, a.len() - crate::text::trail_ws(a)));
}

pub proof fn lemma_url_escaped_free(url: Seq<char>)
    ensures
        free(url_escaped(url)),
{
    let u = without_mark(url);
    lemma_without_mark_free(url);
    lemma_char_free('\\');
    assert(seq!['\\', '\\'] == seq!['\\'] + seq!['\\']);
    lemma_free_concat(seq!['\\'], seq!['\\']);
    lemma_replace_free(u, seq!['\\'], seq!['\\', '\\']);
    lemma_char_free('"');
    assert(seq!['\\', '"'] == seq!['\\'] + seq!['"']);
    lemma_free_concat(seq!['\\'], seq!['"']);
    lemma_replace_free(replace_all(u, seq!['\\'], seq!['\\', '\\']), seq!['"'], seq!['\\', '"']);
}

/// Inline code as markup holds no mark.
pub proof fn lemma_code_span_free(code: Seq<char>)
    ensures
        free(super::table::code_span(code)),
{
    lemma_char_free('`');
    lemma_without_mark_free(code);
    lemma_free_concat(seq!['`'], without_mark(code));
    lemma_free_concat(seq!['`'] + without_mark(code), seq!['`']);
}

proof fn lemma_cell_push_free(t: CellTable, x: Seq<char>)
    requires
        table_free(t),
        free(x),
    ensures
        table_free(cell_push(t, x)),
{
    lemma_free_concat(t.cell, x);
}

/// Feeding an event keeps a table free of marks.
pub proof fn lemma_table_step_free(t: CellTable, e: MdEvent)
    requires
        table_free(t),
    ensures
        table_free(table_step(t, e)),
{
    lemma_literals_free();
    lemma_char_free('_');
    lemma_char_free('*');
    lemma_char_free(']');
    lemma_char_free(' ');
    lemma_char_free('`');
    match e {
        MdEvent::EndTableHead | MdEvent::EndTableRow => {
            let f = finish_row(t);
            if t.row.len() > 0 {
                assert forall|i: int, j: int|
                    0 <= i < f.rows.len() && 0 <= j < f.rows[i].len() implies free(#[trigger] f.rows[i][j]) by {
                    if i < t.rows.len() {
                        assert(f.rows[i] == t.rows[i]);
                    } else {
                        assert(f.rows[i] == t.row);
                    }
                }
            }
        },
        MdEvent::StartTableCell => {
            assert(!Seq::<char>::empty().contains(SECTION_MARK));
        },
        MdEvent::EndTableCell => {
            lemma_trim_free(t.cell);
            let r = t.row.push(trim(t.cell));
            assert forall|i: int| 0 <= i < r.len() implies free(#[trigger] r[i]) by {
                if i < t.row.len() {
                    assert(r[i] == t.row[i]);
                }
            }
            assert(!Seq::<char>::empty().contains(SECTION_MARK));
        },
        MdEvent::Text(x) => {
            lemma_escaped_free(x@);
            lemma_cell_push_free(t, escaped(x@));
        },
        MdEvent::Code(x) => {
            lemma_code_span_free(x@);
            lemma_cell_push_free(t, super::table::code_span(x@));
        },
        MdEvent::StartEmphasis | MdEvent::EndEmphasis => lemma_cell_push_free(t, seq!['_']),
        MdEvent::StartStrong | MdEvent::EndStrong => lemma_cell_push_free(t, seq!['*']),
        MdEvent::StartStrikethrough => lemma_cell_push_free(t, "#strike["@),
        MdEvent::EndStrikethrough | MdEvent::EndLink => lemma_cell_push_free(t, seq![']']),
        MdEvent::StartLink(url) => {
            lemma_url_escaped_free(url@);
            lemma_free_concat("#link(\""@, url_escaped(url@));
            lemma_free_concat("#link(\""@ + url_escaped(url@), "\")["@);
            lemma_cell_push_free(t, "#link(\""@ + url_escaped(url@) + "\")["@);
        },
        MdEvent::SoftBreak | MdEvent::HardBreak => lemma_cell_push_free(t, seq![' ']),
        _ => {},
    }
}

proof fn lemma_align_list_free(codes: Seq<u8>)
    ensures
        free(align_list(codes)),
    decreases codes.len(),
{
    lemma_literals_free();
    if codes.len() == 1 {
        assert(free(align_word(codes[0])));
    } else if codes.len() > 1 {
        lemma_align_list_free(codes.drop_last());
        assert(free(align_word(codes.last())));
        lemma_free_concat(align_list(codes.drop_last()), ", "@);
        lemma_free_concat(align_list(codes.drop_last()) + ", "@, align_word(codes.last()));
    } else {
        assert(!Seq::<char>::empty().contains(SECTION_MARK));
    }
}

proof fn lemma_cell_list_free(cells: Seq<Seq<char>>)
    requires
        forall|i: int| 0 <= i < cells.len() ==> free(#[trigger] cells[i]),
    ensures
        free(cell_list(cells)),
    decreases cells.len(),
{
    lemma_literals_free();
    lemma_char_free('[');
    lemma_char_free(']');
    if cells.len() == 0 {
        assert(!Seq::<char>::empty().contains(SECTION_MARK));
    } else {
        let last = cells.last();
        assert(free(last));
        lemma_free_concat(seq!['['], last);
        lemma_free_concat(seq!['['] + last, seq![']']);
        if cells.len() > 1 {
            let prev = cells.drop_last();
            assert forall|i: int| 0 <= i < prev.len() implies free(#[trigger] prev[i]) by {
                assert(prev[i] == cells[i]);
            }
            lemma_cell_list_free(prev);
            lemma_free_concat(cell_list(prev), ", "@);
            lemma_free_concat(cell_list(prev) + ", "@, seq!['['] + last + seq![']']);
            assert(cell_list(cells) == cell_list(prev) + ", "@ + seq!['['] + last + seq![']']);
            assert(cell_list(prev) + ", "@ + seq!['['] + last + seq![']'] =~= (cell_list(prev)
                + ", "@) + (seq!['['] + last + seq![']']));
        }
    }
}

/// Every cell of `rows` is free of marks.
pub open spec fn rows_free(rows: Seq<Seq<Seq<char>>>) -> bool {
    forall|i: int, j: int| 0 <= i < rows.len() && 0 <= j < rows[i].len() ==> free(#[trigger] rows[i][j])
}

proof fn lemma_flat_cells_free(rows: Seq<Seq<Seq<char>>>)
    requires
        rows_free(rows),
    ensures
        forall|i: int| 0 <= i < flat_cells(rows).len() ==> free(#[trigger] flat_cells(rows)[i]),
    decreases rows.len(),
{
    if rows.len() > 0 {
        let prev = rows.drop_last();
        assert forall|i: int, j: int| 0 <= i < prev.len() && 0 <= j < prev[i].len() implies free(
            #[trigger] prev[i][j],
        ) by {
            assert(prev[i] == rows[i]);
        }
        lemma_flat_cells_free(prev);
        let f = flat_cells(prev);
        let last = rows.last();
        assert forall|i: int| 0 <= i < flat_cells(rows).len() implies free(
            #[trigger] flat_cells(rows)[i],
        ) by {
            assert(flat_cells(rows) == f + last);
            if i < f.len() {
                assert(flat_cells(rows)[i] == f[i]);
            } else {
                assert(flat_cells(rows)[i] == last[i - f.len()]);
                assert(rows[rows.len() - 1] == last);
            }
        }
    }
}

proof fn lemma_body_lines_free(rows: Seq<Seq<Seq<char>>>)
    requires
        rows_free(rows),
    ensures
        free(body_lines(rows)),
    decreases rows.len(),
{
    lemma_literals_free();
    if rows.len() == 0 {
        assert(!Seq::<char>::empty().contains(SECTION_MARK));
    } else {
        let prev = rows.drop_last();
        assert forall|i: int, j: int| 0 <= i < prev.len() && 0 <= j < prev[i].len() implies free(
            #[trigger] prev[i][j],
        ) by {
            assert(prev[i] == rows[i]);
        }
        lemma_body_lines_free(prev);
        let last = rows.last();
        assert forall|j: int| 0 <= j < last.len() implies free(#[trigger] last[j]) by {
            assert(rows[rows.len() - 1] == last);
        }
        lemma_cell_list_free(last);
        lemma_free_concat(body_lines(prev), "  "@);
        lemma_free_concat(body_lines(prev) + "  "@, cell_list(last));
        lemma_free_concat(body_lines(prev) + "  "@ + cell_list(last), ",\n"@);
    }
}

/// A rendered table of mark-free cells holds no mark.
pub proof fn lemma_table_markup_free(t: CellTable)
    requires
        table_free(t),
    ensures
        free(table_markup(t)),
{
    lemma_literals_free();
    lemma_decimal_free(column_count(t));
    lemma_align_list_free(t.aligns);
    let aligns = if t.aligns.len() == 0 {
        Seq::empty()
    } else {
        "  align: ("@ + align_list(t.aligns) + (if t.aligns.len() == 1 {
            ","@
        } else {
            Seq::<char>::empty()
        }) + "),\n"@
    };
    assert(!Seq::<char>::empty().contains(SECTION_MARK));
    assert(free(aligns)) by {
        if t.aligns.len() > 0 {
            let c = if t.aligns.len() == 1 {
                ","@
            } else {
                Seq::<char>::empty()
            };
            lemma_free_concat("  align: ("@, align_list(t.aligns));
            lemma_free_concat("  align: ("@ + align_list(t.aligns), c);
            lemma_free_concat("  align: ("@ + align_list(t.aligns) + c, "),\n"@);
        }
    }
    let h = if t.header_rows <= t.rows.len() {
        t.header_rows as int
    } else {
        t.rows.len() as int
    };
    assert(rows_free(t.rows));
    let head_rows = t.rows.take(h);
    assert forall|i: int, j: int| 0 <= i < head_rows.len() && 0 <= j < head_rows[i].len() implies free(
        #[trigger] head_rows[i][j],
    ) by {
        assert(head_rows[i] == t.rows[i]);
    }
    let body_rows = t.rows.skip(h);
    assert forall|i: int, j: int| 0 <= i < body_rows.len() && 0 <= j < body_rows[i].len() implies free(
        #[trigger] body_rows[i][j],
    ) by {
        assert(body_rows[i] == t.rows[i + h]);
    }
    lemma_flat_cells_free(head_rows);
    lemma_cell_list_free(flat_cells(head_rows));
    let header = if h > 0 {
        "  table.header("@ + cell_list(flat_cells(head_rows)) + "),\n"@
    } else {
        Seq::empty()
    };
    assert(free(header)) by {
        if h > 0 {
            lemma_free_concat("  table.header("@, cell_list(flat_cells(head_rows)));
            lemma_free_concat("  table.header("@ + cell_list(flat_cells(head_rows)), "),\n"@);
        }
    }
    lemma_body_lines_free(body_rows);
    let a = "#table(\n"@ + "  columns: "@;
    lemma_free_concat("#table(\n"@, "  columns: "@);
    lemma_free_concat(a, decimal(column_count(t)));
    lemma_free_concat(a + decimal(column_count(t)), ",\n"@);
    lemma_free_concat(a + decimal(column_count(t)) + ",\n"@, aligns);
    lemma_free_concat(a + decimal(column_count(t)) + ",\n"@ + aligns, header);
    lemma_free_concat(a + decimal(column_count(t)) + ",\n"@ + aligns + header, body_lines(body_rows));
    lemma_free_concat(
        a + decimal(column_count(t)) + ",\n"@ + aligns + header + body_lines(body_rows),
        ")\n\n"@,
    );
}

/// The heading markup, `=` per level and a space, stands at `pos` of `body`.
pub open spec fn heads_at(body: Seq<char>, pos: nat, level: nat) -> bool {
    &&& pos + level + 1 <= body.len()
    &&& body.subrange(pos as int, (pos + level + 1) as int) == repeat_char('=', level) + seq![' ']
}

/// The converter's state while importing: its markup scans cleanly, its
/// markers are numbered 0, 1, ... one per outline entry, each standing at its
/// entry's heading markup in the stripped text and after the one before, and
/// an open table is free of marks.
pub open spec fn sections_ok(s: MdState) -> bool {
    let ms = markers(s.out, 0);
    &&& !s.record ==> s.outline.len() == 0
    &&& clean(s.out)
    &&& ms.len() == s.outline.len()
    &&& forall|j: int|
        0 <= j < ms.len() ==> (#[trigger] ms[j]).0 == j && heads_at(
            stripped(s.out),
            ms[j].1,
            s.outline[j].level as nat,
        )
    &&& forall|i: int, j: int| 0 <= i < j < ms.len() ==> (#[trigger] ms[i]).1 < (#[trigger] ms[j]).1
    &&& s.table matches Some(t) ==> table_free(t)
    &&& forall|j: int| 0 <= j < s.outline.len() ==> (#[trigger] s.outline[j]).level >= 1
}

/// Every heading event has a level from 1 to 6, as the parser's heading
/// levels do.
pub open spec fn levels_valid(events: Seq<MdEvent>) -> bool {
    forall|i: int|
        0 <= i < events.len() ==> (#[trigger] events[i] matches MdEvent::StartHeading(level) ==> 1
            <= level <= 6)
}

proof fn lemma_heads_at_extend(body: Seq<char>, more: Seq<char>, pos: nat, level: nat)
    requires
        heads_at(body, pos, level),
    ensures
        heads_at(body + more, pos, level),
{
    assert((body + more).subrange(pos as int, (pos + level + 1) as int) =~= body.subrange(
        pos as int,
        (pos + level + 1) as int,
    ));
}

/// Appending mark-free text keeps the state's sections in place.
proof fn lemma_extend_ok(s: MdState, s2: MdState, t: Seq<char>)
    requires
        sections_ok(s),
        free(t),
        s2.out == s.out + t,
        s2.record == s.record,
        s2.outline.len() == s.outline.len(),
        forall|j: int| 0 <= j < s.outline.len() ==> (#[trigger] s2.outline[j]).level == s.outline[j].level,
        s2.table matches Some(t2) ==> table_free(t2),
    ensures
        sections_ok(s2),
{
    let ms = markers(s.out, 0);
    lemma_scan_append(s.out, t, 0);
    lemma_scan_free(t, stripped(s.out).len());
    assert(markers(s2.out, 0) =~= ms);
    assert forall|j: int| 0 <= j < ms.len() implies (#[trigger] ms[j]).0 == j && heads_at(
        stripped(s2.out),
        ms[j].1,
        s2.outline[j].level as nat,
    ) by {
        lemma_heads_at_extend(stripped(s.out), t, ms[j].1, s.outline[j].level as nat);
    }
}

proof fn lemma_indent_free(d: nat)
    ensures
        free(super::markdown::indent(d)),
    decreases d,
{
    lemma_literals_free();
    if d > 0 {
        lemma_indent_free((d - 1) as nat);
        lemma_free_concat(super::markdown::indent((d - 1) as nat), "  "@);
    } else {
        assert(!Seq::<char>::empty().contains(SECTION_MARK));
    }
}

/// Opening a heading adds its marker at the heading's `=` markup.
proof fn lemma_head_ok(s: MdState, level: u8)
    requires
        sections_ok(s),
        s.table is None,
        s.record ==> level >= 1,
    ensures
        sections_ok(super::markdown::start_heading(s, level)),
{
    let s2 = super::markdown::start_heading(s, level);
    if !s.record {
        let t = seq!['\n'] + repeat_char('=', level as nat) + seq![' '];
        lemma_char_free('\n');
        lemma_char_free(' ');
        lemma_repeat_free('=', level as nat);
        lemma_free_concat(seq!['\n'], repeat_char('=', level as nat));
        lemma_free_concat(seq!['\n'] + repeat_char('=', level as nat), seq![' ']);
        assert(s2.out =~= s.out + t);
        lemma_extend_ok(s, s2, t);
    } else {
        let idx = s.outline.len();
        let a = s.out + seq!['\n'];
        let h = heading_head(idx, level as nat);
        assert(s2.out =~= a + h);
        let ms = markers(s.out, 0);
        lemma_char_free('\n');
        lemma_scan_append(s.out, seq!['\n'], 0);
        lemma_scan_free(seq!['\n'], stripped(s.out).len());
        assert(markers(a, 0) =~= ms);
        lemma_scan_head(idx, level as nat, stripped(a).len());
        lemma_scan_append(a, h, 0);
        let ms2 = markers(s2.out, 0);
        assert(ms2 == ms + seq![(idx, stripped(a).len())]);
        let body2 = stripped(s2.out);
        assert(body2 == stripped(a) + repeat_char('=', level as nat) + seq![' ']);
        assert forall|j: int| 0 <= j < ms2.len() implies (#[trigger] ms2[j]).0 == j && heads_at(
            body2,
            ms2[j].1,
            s2.outline[j].level as nat,
        ) by {
            if j < ms.len() {
                assert(ms2[j] == ms[j]);
                assert(s2.outline[j] == s.outline[j]);
                lemma_heads_at_extend(stripped(s.out), seq!['\n'], ms[j].1, s.outline[j].level as nat);
                lemma_heads_at_extend(
                    stripped(a),
                    repeat_char('=', level as nat) + seq![' '],
                    ms[j].1,
                    s.outline[j].level as nat,
                );
                assert(stripped(a) + repeat_char('=', level as nat) + seq![' '] =~= stripped(a) + (
                repeat_char('=', level as nat) + seq![' ']));
            } else {
                assert(ms2[j] == (idx, stripped(a).len()));
                assert(s2.outline[j].level == level);
                assert(body2.subrange(stripped(a).len() as int, stripped(a).len() + level + 1)
                    =~= repeat_char('=', level as nat) + seq![' ']);
            }
        }
    }
}

/// One event outside tables and image alt text keeps the sections in place.
proof fn lemma_main_step_ok(s: MdState, e: MdEvent, image: Option<Seq<char>>)
    requires
        sections_ok(s),
        s.table is None,
        s.record ==> (e matches MdEvent::StartHeading(level) ==> level >= 1),
        image matches Some(n) ==> (e matches MdEvent::StartImage(url) && n == image_file_name(url@)),
    ensures
        sections_ok(super::markdown::main_step(s, e, image)),
{
    lemma_literals_free();
    lemma_char_free('_');
    lemma_char_free('*');
    lemma_char_free(']');
    lemma_char_free(' ');
    lemma_char_free('`');
    lemma_char_free('\n');
    let s2 = super::markdown::main_step(s, e, image);
    let empty = Seq::<char>::empty();
    assert(!empty.contains(SECTION_MARK));
    assert(s.out + empty =~= s.out);
    match e {
        MdEvent::StartTable(a) => {
            let t = super::table::new_table(a@);
            assert(table_free(t));
            lemma_extend_ok(s, s2, empty);
        },
        MdEvent::StartHeading(level) => {
            lemma_head_ok(s, level);
        },
        MdEvent::EndHeading => {
            lemma_extend_ok(s, s2, "\n\n"@);
        },
        MdEvent::EndParagraph => lemma_extend_ok(s, s2, "\n\n"@),
        MdEvent::StartEmphasis | MdEvent::EndEmphasis => lemma_extend_ok(s, s2, seq!['_']),
        MdEvent::StartStrong | MdEvent::EndStrong => lemma_extend_ok(s, s2, seq!['*']),
        MdEvent::StartStrikethrough => lemma_extend_ok(s, s2, "#strike["@),
        MdEvent::StartBlockQuote => lemma_extend_ok(s, s2, "#quote(block: true)[\n"@),
        MdEvent::EndBlockQuote => lemma_extend_ok(s, s2, "]\n\n"@),
        MdEvent::StartCodeBlock(lang) => {
            let l = match lang {
                Some(l) => without_mark(l@),
                None => Seq::empty(),
            };
            if let Some(l0) = lang {
                lemma_without_mark_free(l0@);
            }
            lemma_free_concat("```"@, l);
            lemma_free_concat("```"@ + l, seq!['\n']);
            assert(s2.out =~= s.out + ("```"@ + l + seq!['\n']));
            lemma_extend_ok(s, s2, "```"@ + l + seq!['\n']);
        },
        MdEvent::EndCodeBlock => lemma_extend_ok(s, s2, "```\n\n"@),
        MdEvent::StartList(_) => lemma_extend_ok(s, s2, empty),
        MdEvent::EndList => {
            if s2.out == s.out {
                lemma_extend_ok(s, s2, empty);
            } else {
                lemma_extend_ok(s, s2, seq!['\n']);
            }
        },
        MdEvent::StartItem => {
            let depth: nat = if s.lists.len() == 0 {
                0
            } else {
                (s.lists.len() - 1) as nat
            };
            lemma_indent_free(depth);
            let lead = seq!['\n'] + super::markdown::indent(depth);
            lemma_free_concat(seq!['\n'], super::markdown::indent(depth));
            if s.lists.len() > 0 && s.lists.last() is Some {
                let n = s.lists.last()->0;
                lemma_decimal_free(n as nat);
                lemma_free_concat(lead, decimal(n as nat));
                lemma_free_concat(lead + decimal(n as nat), ". "@);
                assert(s2.out =~= s.out + (lead + decimal(n as nat) + ". "@));
                lemma_extend_ok(s, s2, lead + decimal(n as nat) + ". "@);
            } else {
                lemma_free_concat(lead, "- "@);
                assert(s2.out =~= s.out + (lead + "- "@));
                lemma_extend_ok(s, s2, lead + "- "@);
            }
        },
        MdEvent::StartImage(url) => {
            match image {
                Some(name) => {
                    let shown = without_mark(name);
                    lemma_without_mark_free(name);
                    lemma_free_concat("#box(image(\""@, shown);
                    lemma_free_concat("#box(image(\""@ + shown, "\"))"@);
                    assert(s2.out =~= s.out + ("#box(image(\""@ + shown + "\"))"@));
                    lemma_extend_ok(s, s2, "#box(image(\""@ + shown + "\"))"@);
                },
                None => lemma_extend_ok(s, s2, empty),
            }
        },
        MdEvent::StartLink(url) => {
            lemma_url_escaped_free(url@);
            lemma_free_concat("#link(\""@, url_escaped(url@));
            lemma_free_concat("#link(\""@ + url_escaped(url@), "\")["@);
            lemma_extend_ok(s, s2, "#link(\""@ + url_escaped(url@) + "\")["@);
        },
        MdEvent::EndStrikethrough | MdEvent::EndLink => lemma_extend_ok(s, s2, seq![']']),
        MdEvent::Text(t) => {
            let t2 = without_mark(t@);
            lemma_without_mark_free(t@);
            lemma_escaped_free(t2);
            let x = if s.in_code {
                t2
            } else {
                escaped(t2)
            };
            lemma_extend_ok(s, s2, x);
        },
        MdEvent::Code(t) => {
            lemma_code_span_free(t@);
            lemma_extend_ok(s, s2, super::table::code_span(t@));
        },
        MdEvent::SoftBreak => lemma_extend_ok(s, s2, seq![' ']),
        MdEvent::HardBreak => lemma_extend_ok(s, s2, " \\\n"@),
        MdEvent::Rule => lemma_extend_ok(s, s2, "\n#line(length: 100%)\n\n"@),
        _ => lemma_extend_ok(s, s2, empty),
    }
}

/// Every event keeps the sections in place.
pub proof fn lemma_step_ok(s: MdState, e: MdEvent, image: Option<Seq<char>>)
    requires
        sections_ok(s),
        s.record ==> (e matches MdEvent::StartHeading(level) ==> level >= 1),
        image matches Some(n) ==> (e matches MdEvent::StartImage(url) && n == image_file_name(url@)),
    ensures
        sections_ok(super::markdown::md_step(s, e, image)),
{
    let s2 = super::markdown::md_step(s, e, image);
    let empty = Seq::<char>::empty();
    assert(!empty.contains(SECTION_MARK));
    assert(s.out + empty =~= s.out);
    match s.table {
        Some(t) => {
            if e is EndTable {
                lemma_table_markup_free(t);
                lemma_extend_ok(s, s2, table_markup(t));
            } else {
                lemma_table_step_free(t, e);
                lemma_extend_ok(s, s2, empty);
            }
        },
        None => {
            if s.in_image {
                lemma_extend_ok(s, s2, empty);
            } else {
                lemma_main_step_ok(s, e, image);
            }
        },
    }
}

/// Running events from the start of an import keeps the sections in place.
pub proof fn lemma_run_ok(events: Seq<MdEvent>, images: Seq<Option<Seq<char>>>, record: bool)
    requires
        images.len() >= events.len(),
        record ==> levels_valid(events),
        forall|i: int|
            0 <= i < events.len() ==> (#[trigger] images[i] matches Some(n) ==> (
            events[i] matches MdEvent::StartImage(url) && n == image_file_name(url@))),
    ensures
        sections_ok(super::markdown::md_run_from(super::markdown::md_init(record), events, images)),
    decreases events.len(),
{
    let s0 = super::markdown::md_init(record);
    if events.len() == 0 {
        assert(markers(s0.out, 0) =~= Seq::<(nat, nat)>::empty());
    } else {
        let prev = events.drop_last();
        assert forall|i: int| 0 <= i < prev.len() implies (#[trigger] images[i] matches Some(n) ==> (
        prev[i] matches MdEvent::StartImage(url) && n == image_file_name(url@))) by {
            assert(prev[i] == events[i]);
        }
        assert(record ==> levels_valid(prev)) by {
            if record {
                assert forall|i: int| 0 <= i < prev.len() implies (#[trigger] prev[i] matches MdEvent::StartHeading(
                    level,
                ) ==> 1 <= level <= 6) by {
                    assert(prev[i] == events[i]);
                }
            }
        }
        lemma_run_ok(prev, images, record);
        let k = events.len() - 1;
        assert(record ==> (events[k] matches MdEvent::StartHeading(level) ==> 1 <= level <= 6));
        super::markdown::lemma_run_keeps_record(s0, prev, images);
        assert(images[k] matches Some(n) ==> (events[k] matches MdEvent::StartImage(url) && n
            == image_file_name(url@)));
        lemma_step_ok(super::markdown::md_run_from(s0, prev, images), events.last(), images[k]);
    }
}

proof fn lemma_utf8_len_concat(x: Seq<char>, y: Seq<char>)
    ensures
        utf8_len(x + y) == utf8_len(x) + utf8_len(y),
    decreases y.len(),
{
    if y.len() == 0 {
        assert(x + y =~= x);
    } else {
        assert((x + y).drop_last() =~= x + y.drop_last());
        lemma_utf8_len_concat(x, y.drop_last());
    }
}

proof fn lemma_apply_in_order(outline: Seq<EntryView>, ms: Seq<(nat, nat)>, body: Seq<char>)
    requires
        ms.len() <= outline.len(),
        forall|j: int| 0 <= j < ms.len() ==> (#[trigger] ms[j]).0 == j,
    ensures
        apply_markers(outline, ms, body).len() == outline.len(),
        forall|k: int|
            0 <= k < outline.len() ==> #[trigger] apply_markers(outline, ms, body)[k] == if k
                < ms.len() {
                EntryView { offset: byte_offset(body, ms[k].1), ..outline[k] }
            } else {
                outline[k]
            },
    decreases ms.len(),
{
    if ms.len() > 0 {
        let prev = ms.drop_last();
        assert forall|j: int| 0 <= j < prev.len() implies (#[trigger] prev[j]).0 == j by {
            assert(prev[j] == ms[j]);
        }
        lemma_apply_in_order(outline, prev, body);
        assert(ms.last().0 == ms.len() - 1);
        assert forall|k: int| 0 <= k < outline.len() implies #[trigger] apply_markers(
            outline,
            ms,
            body,
        )[k] == if k < ms.len() {
            EntryView { offset: byte_offset(body, ms[k].1), ..outline[k] }
        } else {
            outline[k]
        } by {
            if k < prev.len() {
                assert(prev[k] == ms[k]);
            }
        }
    }
}

/// `e`'s offset is the byte position in `body` of its heading markup: `=`
/// per level, then a space.
pub open spec fn points_at_heading(body: Seq<char>, e: OutlineEntry) -> bool {
    exists|p: int|
        #![trigger body.take(p)]
        0 <= p <= body.len() && utf8_len(body.take(p)) == e.offset && heads_at(
            body,
            p as nat,
            e.level as nat,
        )
}

/// The imported text, its markers removed, fits in `usize::MAX` bytes, so
/// that no byte offset into it saturates.
pub open spec fn import_fits(events: Seq<MdEvent>, images: Seq<Option<Seq<char>>>) -> bool {
    utf8_len(stripped(md_run_from(md_init(true), events, images).out)) <= usize::MAX
}

/// An outline in place in `body`: every entry's offset is the byte position
/// of its heading's markup, and the offsets strictly increase.
pub open spec fn outline_in_place(body: Seq<char>, outline: Seq<OutlineEntry>) -> bool {
    &&& forall|k: int| 0 <= k < outline.len() ==> points_at_heading(body, #[trigger] outline[k])
    &&& forall|j: int, k: int|
        0 <= j < k < outline.len() ==> (#[trigger] outline[j]).offset < (#[trigger] outline[k]).offset
}

/// The outline of an import is in place in its body (see
/// [`lemma_offsets_point_at_headings`] and [`lemma_offsets_increase`]).
pub proof fn lemma_outline_in_place(
    events: Seq<MdEvent>,
    images: Seq<Option<Seq<char>>>,
    fetched: Seq<Option<Seq<u8>>>,
    doc: ImportedDoc,
)
    requires
        lookups_match(events, images),
        imported_as(events, images, fetched, doc),
        levels_valid(events),
        import_fits(events, images),
    ensures
        outline_in_place(doc.body@, doc.outline@),
{
    lemma_offsets_point_at_headings(events, images, fetched, doc);
    lemma_offsets_increase(events, images, fetched, doc);
}

/// Every heading an import records points at its markup: the entry's offset
/// is the byte position in the body where `=` per level and a space stand.
/// Source text never forges a marker (the converter drops the mark from all
/// of it); this holds whenever heading levels are 1 to 6, as the parser gives
/// them, and the body's byte offsets fit in `usize`.
pub proof fn lemma_offsets_point_at_headings(
    events: Seq<MdEvent>,
    images: Seq<Option<Seq<char>>>,
    fetched: Seq<Option<Seq<u8>>>,
    doc: ImportedDoc,
)
    requires
        lookups_match(events, images),
        imported_as(events, images, fetched, doc),
        levels_valid(events),
        utf8_len(stripped(md_run_from(md_init(true), events, images).out)) <= usize::MAX,
    ensures
        forall|k: int|
            0 <= k < doc.outline@.len() ==> points_at_heading(doc.body@, #[trigger] doc.outline@[k]),
{
    let st = md_run_from(md_init(true), events, images);
    lemma_run_ok(events, images, true);
    let body = stripped(st.out);
    let ms = markers(st.out, 0);
    lemma_apply_in_order(st.outline, ms, body);
    let applied = apply_markers(st.outline, ms, body);
    let lead = lead_ws(body);
    crate::text::lemma_lead_ws(body);
    let shift = byte_offset(body, lead);
    let view = entries_view(doc.outline@);
    assert(view == shifted_outline(applied, shift));
    assert forall|k: int| 0 <= k < doc.outline@.len() implies points_at_heading(
        doc.body@,
        #[trigger] doc.outline@[k],
    ) by {
        assert(view.len() == doc.outline@.len());
        assert(view.len() == applied.len());
        assert(k < ms.len());
        assert(view[k] == doc.outline@[k].view());
        let pos = ms[k].1;
        let level = st.outline[k].level as nat;
        assert(heads_at(body, pos, level));
        assert(applied[k] == EntryView { offset: byte_offset(body, pos), ..st.outline[k] });
        assert(body.subrange(pos as int, (pos + level + 1) as int)[0] == '=');
        assert(body[pos as int] == '=');
        assert(pos >= lead) by {
            if pos < lead {
                assert(crate::text::is_ws(body[pos as int]));
            }
        }
        let p = pos - lead;
        let rest = body.skip(lead as int);
        assert(doc.body@ == rest);
        assert(body.take(pos as int) =~= body.take(lead as int) + rest.take(p));
        lemma_utf8_len_concat(body.take(lead as int), rest.take(p));
        assert(body =~= body.take(pos as int) + body.skip(pos as int));
        lemma_utf8_len_concat(body.take(pos as int), body.skip(pos as int));
        assert(byte_offset(body, pos) == utf8_len(body.take(pos as int)));
        assert(shift == utf8_len(body.take(lead as int)));
        assert(rest.subrange(p, p + level + 1) =~= body.subrange(pos as int, (pos + level + 1) as int));
        assert(heads_at(rest, p as nat, level));
        assert(utf8_len(doc.body@.take(p)) == doc.outline@[k].offset);
    }
}

/// Text that scans cleanly without a single marker holds no mark.
proof fn lemma_clean_without_markers_is_free(raw: Seq<char>, base: nat)
    requires
        clean(raw),
        markers(raw, base).len() == 0,
    ensures
        free(raw),
    decreases raw.len(),
{
    if raw.len() > 0 {
        assert(raw[0] != SECTION_MARK) by {
            if raw[0] == SECTION_MARK {
                assert(markers(raw, base).len() > 0);
            }
        }
        lemma_clean_without_markers_is_free(raw.drop_first(), base + 1);
        assert(free(raw)) by {
            if raw.contains(SECTION_MARK) {
                let k = choose|k: int| 0 <= k < raw.len() && raw[k] == SECTION_MARK;
                assert(raw.drop_first()[k - 1] == SECTION_MARK);
            }
        }
    }
}

/// The editable path never writes a section mark: headings are plain `=`
/// markup and no source text can forge a marker.
pub proof fn lemma_editable_markup_has_no_mark(events: Seq<MdEvent>)
    ensures
        free(md_run(events, no_images(events.len()), false).out),
{
    let images = no_images(events.len());
    lemma_run_ok(events, images, false);
    super::markdown::lemma_run_is_run_from(events, images, false);
    let st = md_run_from(md_init(false), events, images);
    super::markdown::lemma_run_keeps_record(md_init(false), events, images);
    lemma_clean_without_markers_is_free(st.out, 0);
}

/// The levels of the headings that running `events` from `s` records, in
/// order: each heading outside a table and outside a resolved image's alt
/// text.
pub open spec fn recorded_levels(s: MdState, events: Seq<MdEvent>, images: Seq<Option<Seq<char>>>) -> Seq<u8>
    decreases events.len(),
{
    if events.len() == 0 {
        Seq::empty()
    } else {
        let prev = events.drop_last();
        let st = md_run_from(s, prev, images);
        recorded_levels(s, prev, images) + match events.last() {
            MdEvent::StartHeading(level) => if st.table is None && !st.in_image {
                seq![level]
            } else {
                Seq::empty()
            },
            _ => Seq::empty(),
        }
    }
}

/// The id of outline entry `k`.
pub open spec fn entry_id(k: nat) -> Seq<char> {
    "md-"@ + decimal(k)
}

proof fn lemma_step_outline(s: MdState, e: MdEvent, image: Option<Seq<char>>)
    requires
        s.record,
    ensures
        ({
            let s2 = super::markdown::md_step(s, e, image);
            let added: Seq<u8> = match e {
                MdEvent::StartHeading(level) => if s.table is None && !s.in_image {
                    seq![level]
                } else {
                    Seq::empty()
                },
                _ => Seq::empty(),
            };
            &&& s2.record
            &&& s2.outline.len() == s.outline.len() + added.len()
            &&& forall|k: int|
                0 <= k < s.outline.len() ==> (#[trigger] s2.outline[k]).level == s.outline[k].level
                    && s2.outline[k].id == s.outline[k].id
            &&& added.len() == 1 ==> s2.outline.last().level == added[0] && s2.outline.last().id
                == entry_id(s.outline.len())
        }),
{
    let s2 = super::markdown::md_step(s, e, image);
    if s.table is None && !s.in_image {
        match e {
            MdEvent::EndHeading => {
                let s3 = super::markdown::end_heading(s);
                assert(s2 == s3);
            },
            _ => {},
        }
    }
}

/// Running from the start of an import records the headings in order, with
/// their levels and ids.
proof fn lemma_run_outline(events: Seq<MdEvent>, images: Seq<Option<Seq<char>>>)
    ensures
        ({
            let st = md_run_from(md_init(true), events, images);
            let levels = recorded_levels(md_init(true), events, images);
            &&& st.record
            &&& st.outline.len() == levels.len()
            &&& forall|k: int|
                0 <= k < levels.len() ==> (#[trigger] st.outline[k]).level == levels[k]
                    && st.outline[k].id == entry_id(k as nat)
        }),
    decreases events.len(),
{
    if events.len() > 0 {
        let prev = events.drop_last();
        lemma_run_outline(prev, images);
        let st = md_run_from(md_init(true), prev, images);
        lemma_step_outline(st, events.last(), images[events.len() - 1]);
    }
}

/// Every heading outside a table and outside a resolved image's alt text
/// becomes one outline entry, in order: entry `k` has the `k`-th such
/// heading's level and the id `md-k`.
pub proof fn lemma_every_heading_recorded(
    events: Seq<MdEvent>,
    images: Seq<Option<Seq<char>>>,
    fetched: Seq<Option<Seq<u8>>>,
    doc: ImportedDoc,
)
    requires
        imported_as(events, images, fetched, doc),
    ensures
        doc.outline@.len() == recorded_levels(md_init(true), events, images).len(),
        forall|k: int|
            0 <= k < doc.outline@.len() ==> (#[trigger] doc.outline@[k]).level == recorded_levels(
                md_init(true),
                events,
                images,
            )[k] && doc.outline@[k].id@ == entry_id(k as nat),
{
    let st = md_run_from(md_init(true), events, images);
    lemma_run_outline(events, images);
    let body = stripped(st.out);
    let ms = markers(st.out, 0);
    lemma_apply_keeps_entries(st.outline, ms, body);
    let applied = apply_markers(st.outline, ms, body);
    let view = entries_view(doc.outline@);
    assert(view.len() == doc.outline@.len());
    assert forall|k: int| 0 <= k < doc.outline@.len() implies (#[trigger] doc.outline@[k]).level
        == recorded_levels(md_init(true), events, images)[k] && doc.outline@[k].id@ == entry_id(
        k as nat,
    ) by {
        assert(view[k] == doc.outline@[k].view());
    }
}

/// The plain text of heading content: each text or code piece with section
/// marks removed, in order, without any markup escaping.
pub open spec fn plain_text(pieces: Seq<MdEvent>) -> Seq<char>
    decreases pieces.len(),
{
    if pieces.len() == 0 {
        Seq::empty()
    } else {
        plain_text(pieces.drop_last()) + match pieces.last() {
            MdEvent::Text(t) => without_mark(t@),
            MdEvent::Code(t) => without_mark(t@),
            _ => Seq::empty(),
        }
    }
}

/// The state after the first `n` events of a document that opens with a
/// heading of `pieces`, then `rest`.
spec fn opening_run(
    level: u8,
    pieces: Seq<MdEvent>,
    rest: Seq<MdEvent>,
    images: Seq<Option<Seq<char>>>,
    n: int,
) -> MdState {
    md_run_from(
        md_init(true),
        (seq![MdEvent::StartHeading(level)] + pieces + seq![MdEvent::EndHeading] + rest).take(n),
        images,
    )
}

proof fn lemma_opening_run(
    level: u8,
    pieces: Seq<MdEvent>,
    rest: Seq<MdEvent>,
    images: Seq<Option<Seq<char>>>,
    n: int,
)
    requires
        forall|i: int| 0 <= i < pieces.len() ==> (#[trigger] pieces[i] is Text || pieces[i] is Code),
        1 <= n <= pieces.len() + 2 + rest.len(),
    ensures
        ({
            let st = opening_run(level, pieces, rest, images, n);
            &&& st.record
            &&& n <= pieces.len() + 1 ==> {
                &&& st.outline.len() == 1
                &&& st.outline[0].level == level
                &&& st.heading == Some((0nat, plain_text(pieces.take(n - 1))))
                &&& st.table is None
                &&& !st.in_image
            }
            &&& n > pieces.len() + 1 ==> {
                &&& st.outline.len() >= 1
                &&& st.outline[0].level == level
                &&& st.outline[0].title == trim(plain_text(pieces))
                &&& (st.heading matches Some((i, _)) ==> i >= 1)
            }
        }),
    decreases n,
{
    let events = seq![MdEvent::StartHeading(level)] + pieces + seq![MdEvent::EndHeading] + rest;
    let m = pieces.len() as int;
    let st = opening_run(level, pieces, rest, images, n);
    assert(events.take(n).drop_last() =~= events.take(n - 1));
    assert(events.take(n).last() == events[n - 1]);
    if n == 1 {
        assert(events.take(0) =~= Seq::<MdEvent>::empty());
        assert(events[0] == MdEvent::StartHeading(level));
        assert(pieces.take(0) =~= Seq::<MdEvent>::empty());
    } else {
        lemma_opening_run(level, pieces, rest, images, n - 1);
        let prev = opening_run(level, pieces, rest, images, n - 1);
        assert(st == super::markdown::md_step(prev, events[n - 1], images[n - 1]));
        if n <= m + 1 {
            let e = events[n - 1];
            assert(e == pieces[n - 2]);
            assert(pieces.take(n - 1).drop_last() =~= pieces.take(n - 2));
            assert(pieces.take(n - 1).last() == pieces[n - 2]);
        } else if n == m + 2 {
            assert(events[n - 1] == MdEvent::EndHeading);
            assert(pieces.take(m) =~= pieces);
        } else {
            let e = events[n - 1];
            super::markdown::lemma_run_keeps_record(md_init(true), events.take(n - 1), images);
        }
    }
    super::markdown::lemma_run_keeps_record(md_init(true), events.take(n), images);
}

/// A document's first heading is titled with its plain text: the trimmed
/// text and code of the heading, section marks removed, with no markup
/// escaping (so a heading reading `a-b` is titled `a-b`), whatever follows.
pub proof fn lemma_heading_title_is_plain_text(
    level: u8,
    pieces: Seq<MdEvent>,
    rest: Seq<MdEvent>,
    images: Seq<Option<Seq<char>>>,
    fetched: Seq<Option<Seq<u8>>>,
    doc: ImportedDoc,
)
    requires
        forall|i: int| 0 <= i < pieces.len() ==> (#[trigger] pieces[i] is Text || pieces[i] is Code),
        imported_as(
            seq![MdEvent::StartHeading(level)] + pieces + seq![MdEvent::EndHeading] + rest,
            images,
            fetched,
            doc,
        ),
    ensures
        doc.outline@.len() >= 1,
        doc.outline@[0].title@ == trim(plain_text(pieces)),
        doc.outline@[0].level == level,
{
    let events = seq![MdEvent::StartHeading(level)] + pieces + seq![MdEvent::EndHeading] + rest;
    let n = events.len() as int;
    lemma_opening_run(level, pieces, rest, images, n);
    assert(events.take(n) =~= events);
    let st = md_run_from(md_init(true), events, images);
    let body = stripped(st.out);
    let ms = markers(st.out, 0);
    lemma_apply_keeps_entries(st.outline, ms, body);
    let view = entries_view(doc.outline@);
    assert(view.len() == doc.outline@.len());
    assert(view[0] == doc.outline@[0].view());
}

/// Applying markers changes offsets only.
proof fn lemma_apply_keeps_entries(outline: Seq<EntryView>, ms: Seq<(nat, nat)>, body: Seq<char>)
    ensures
        apply_markers(outline, ms, body).len() == outline.len(),
        forall|k: int|
            0 <= k < outline.len() ==> (#[trigger] apply_markers(outline, ms, body)[k]).level
                == outline[k].level && apply_markers(outline, ms, body)[k].id == outline[k].id
                && apply_markers(outline, ms, body)[k].title == outline[k].title,
    decreases ms.len(),
{
    if ms.len() > 0 {
        lemma_apply_keeps_entries(outline, ms.drop_last(), body);
    }
}

/// The markers of `raw` stand in order, within the stripped text.
proof fn lemma_markers_ordered(raw: Seq<char>, base: nat)
    ensures
        forall|i: int|
            0 <= i < markers(raw, base).len() ==> base <= (#[trigger] markers(raw, base)[i]).1
                <= base + stripped(raw).len(),
        forall|i: int, j: int|
            0 <= i < j < markers(raw, base).len() ==> (#[trigger] markers(raw, base)[i]).1 <= (
            #[trigger] markers(raw, base)[j]).1,
    decreases raw.len(),
{
    if raw.len() > 0 {
        if raw[0] == SECTION_MARK {
            let m = marker_len(raw);
            if m > 0 {
                lemma_markers_ordered(raw.skip(m as int), base);
                let rest = markers(raw.skip(m as int), base);
                let v = digits_value(raw.subrange(1, m - 1));
                assert(markers(raw, base) == seq![(v, base)] + rest);
                assert(stripped(raw) == stripped(raw.skip(m as int)));
                assert forall|i: int|
                    0 <= i < markers(raw, base).len() implies base <= (#[trigger] markers(
                    raw,
                    base,
                )[i]).1 <= base + stripped(raw).len() by {
                    if i > 0 {
                        assert(markers(raw, base)[i] == rest[i - 1]);
                    }
                }
                assert forall|i: int, j: int|
                    0 <= i < j < markers(raw, base).len() implies (#[trigger] markers(
                    raw,
                    base,
                )[i]).1 <= (#[trigger] markers(raw, base)[j]).1 by {
                    assert(markers(raw, base)[j] == rest[j - 1]);
                    if i > 0 {
                        assert(markers(raw, base)[i] == rest[i - 1]);
                    }
                }
            } else {
                lemma_markers_ordered(raw.drop_first(), base);
                assert(markers(raw, base) == markers(raw.drop_first(), base));
                assert(stripped(raw) == stripped(raw.drop_first()));
            }
        } else {
            lemma_markers_ordered(raw.drop_first(), base + 1);
            assert(markers(raw, base) == markers(raw.drop_first(), base + 1));
            assert(stripped(raw) == seq![raw[0]] + stripped(raw.drop_first()));
        }
    }
}

/// The outline's offsets strictly increase: sections stand in the body in the
/// order of their headings, each after the one before. (Under the same
/// conditions as [`lemma_offsets_point_at_headings`].)
pub proof fn lemma_offsets_increase(
    events: Seq<MdEvent>,
    images: Seq<Option<Seq<char>>>,
    fetched: Seq<Option<Seq<u8>>>,
    doc: ImportedDoc,
)
    requires
        lookups_match(events, images),
        imported_as(events, images, fetched, doc),
        levels_valid(events),
        utf8_len(stripped(md_run_from(md_init(true), events, images).out)) <= usize::MAX,
    ensures
        forall|j: int, k: int|
            0 <= j < k < doc.outline@.len() ==> (#[trigger] doc.outline@[j]).offset < (
            #[trigger] doc.outline@[k]).offset,
{
    let st = md_run_from(md_init(true), events, images);
    lemma_run_ok(events, images, true);
    let body = stripped(st.out);
    let ms = markers(st.out, 0);
    lemma_markers_ordered(st.out, 0);
    lemma_apply_in_order(st.outline, ms, body);
    let applied = apply_markers(st.outline, ms, body);
    let lead = lead_ws(body);
    crate::text::lemma_lead_ws(body);
    let shift = byte_offset(body, lead);
    let view = entries_view(doc.outline@);
    assert(view == shifted_outline(applied, shift));
    assert(view.len() == doc.outline@.len());
    assert(view.len() == applied.len());
    assert forall|j: int, k: int| 0 <= j < k < doc.outline@.len() implies (
    #[trigger] doc.outline@[j]).offset < (#[trigger] doc.outline@[k]).offset by {
        assert(view[j] == doc.outline@[j].view());
        assert(view[k] == doc.outline@[k].view());
        let pj = ms[j].1;
        let pk = ms[k].1;
        assert(pj < pk);
        assert(heads_at(body, pk, st.outline[k].level as nat));
        assert(pk <= body.len());
        assert(applied[j].offset == byte_offset(body, pj));
        assert(applied[k].offset == byte_offset(body, pk));
        super::asset::lemma_utf8_len_prefix(body, pj as int, pk as int);
        super::asset::lemma_utf8_len_prefix(body, pk as int, body.len() as int);
        assert(body.take(body.len() as int) =~= body);
        assert(pj >= lead) by {
            assert(heads_at(body, pj, st.outline[j].level as nat));
            assert(body.subrange(pj as int, (pj + st.outline[j].level + 1) as int)[0] == '=');
            if pj < lead {
                assert(crate::text::is_ws(body[pj as int]));
            }
        }
        super::asset::lemma_utf8_len_prefix(body, lead as int, pj as int);
    }
}

} // verus!
