//! Markdown tables: cells are accumulated from the parser's events, then
//! rendered as a Typst `#table`. Cell content is inline Typst markup; styling
//! is left to the template's `#set table` rules.
use vstd::prelude::*;

use super::escape::{escaped, push_escaped, strip_section_mark, without_mark};
use super::events::MdEvent;
use crate::text::{chars_of, decimal, push_char, push_decimal, replace_all, replace_chars, trim, trim_chars};

verus! {

/// A link destination quoted for a Typst string: section marks dropped,
/// backslashes doubled, then double quotes backslash-escaped.
pub open spec fn url_escaped(url: Seq<char>) -> Seq<char> {
    replace_all(
        replace_all(without_mark(url), seq!['\\'], seq!['\\', '\\']),
        seq!['"'],
        seq!['\\', '"'],
    )
}

/// Inline code as markup: the code between backticks, section marks dropped.
pub open spec fn code_span(code: Seq<char>) -> Seq<char> {
    seq!['`'] + without_mark(code) + seq!['`']
}

/// Quote a link destination for a Typst string literal.
pub fn escape_url(url: &str) -> (out: String)
    ensures
        out@ == url_escaped(url@),
{
    let c0 = chars_of(url);
    let c = strip_section_mark(c0.as_slice());
    let a = replace_chars(c.as_slice(), &['\\'], &['\\', '\\']);
    let b = replace_chars(a.as_slice(), &['"'], &['\\', '"']);
    assert(['\\']@ =~= seq!['\\']);
    assert(['\\', '\\']@ =~= seq!['\\', '\\']);
    assert(['"']@ =~= seq!['"']);
    assert(['\\', '"']@ =~= seq!['\\', '"']);
    crate::text::string_of(b.as_slice())
}

/// A table being built: alignments, finished rows, the open row and cell, and
/// how many leading rows form the header.
#[verifier::ext_equal]
pub struct CellTable {
    pub aligns: Seq<u8>,
    pub rows: Seq<Seq<Seq<char>>>,
    pub row: Seq<Seq<char>>,
    pub cell: Seq<char>,
    pub header_rows: nat,
}

/// A fresh table with the given alignments.
pub open spec fn new_table(aligns: Seq<u8>) -> CellTable {
    CellTable { aligns, rows: Seq::empty(), row: Seq::empty(), cell: Seq::empty(), header_rows: 0 }
}

/// Close the open row (kept only when it has cells).
pub open spec fn finish_row(t: CellTable) -> CellTable {
    if t.row.len() > 0 {
        CellTable { rows: t.rows.push(t.row), row: Seq::empty(), ..t }
    } else {
        t
    }
}

/// Append text to the open cell.
pub open spec fn cell_push(t: CellTable, s: Seq<char>) -> CellTable {
    CellTable { cell: t.cell + s, ..t }
}

/// The table after one event inside it (any event but the table's end).
pub open spec fn table_step(t: CellTable, e: MdEvent) -> CellTable {
    match e {
        MdEvent::EndTableHead => {
            let f = finish_row(t);
            CellTable { header_rows: f.rows.len(), ..f }
        },
        MdEvent::EndTableRow => finish_row(t),
        MdEvent::StartTableCell => CellTable { cell: Seq::empty(), ..t },
        MdEvent::EndTableCell => CellTable {
            row: t.row.push(trim(t.cell)),
            cell: Seq::empty(),
            ..t
        },
        MdEvent::Text(s) => cell_push(t, escaped(s@)),
        MdEvent::Code(s) => cell_push(t, code_span(s@)),
        MdEvent::StartEmphasis => cell_push(t, seq!['_']),
        MdEvent::EndEmphasis => cell_push(t, seq!['_']),
        MdEvent::StartStrong => cell_push(t, seq!['*']),
        MdEvent::EndStrong => cell_push(t, seq!['*']),
        MdEvent::StartStrikethrough => cell_push(t, "#strike["@),
        MdEvent::EndStrikethrough => cell_push(t, seq![']']),
        MdEvent::EndLink => cell_push(t, seq![']']),
        MdEvent::StartLink(url) => cell_push(t, "#link(\""@ + url_escaped(url@) + "\")["@),
        MdEvent::SoftBreak => cell_push(t, seq![' ']),
        MdEvent::HardBreak => cell_push(t, seq![' ']),
        _ => t,
    }
}

/// The Typst alignment word for a parser alignment code.
pub open spec fn align_word(code: u8) -> Seq<char> {
    if code == 2 {
        "center"@
    } else if code == 3 {
        "right"@
    } else {
        "left"@
    }
}

/// A table's alignment list names each column's alignment in order, by its
/// parser alignment (`Alignment as u8`: none 0, left 1, center 2, right 3):
/// center gives `center`, right gives `right`, none and left give `left`;
/// one more column adds `, ` and its word.
pub proof fn lemma_alignment_words(codes: Seq<u8>, c: u8)
    ensures
        align_list(seq![c]) == (if c == 2 {
            "center"@
        } else if c == 3 {
            "right"@
        } else {
            "left"@
        }),
        codes.len() > 0 ==> align_list(codes.push(c)) == align_list(codes) + ", "@ + (if c == 2 {
            "center"@
        } else if c == 3 {
            "right"@
        } else {
            "left"@
        }),
{
    assert(seq![c][0] == c);
    assert(codes.push(c).drop_last() =~= codes);
    assert(codes.push(c).last() == c);
}

/// The longest row length.
pub open spec fn max_row_len(rows: Seq<Seq<Seq<char>>>) -> nat
    decreases rows.len(),
{
    if rows.len() == 0 {
        0
    } else {
        let m = max_row_len(rows.drop_last());
        if rows.last().len() > m {
            rows.last().len()
        } else {
            m
        }
    }
}

/// The column count: the most of the alignments and the row lengths, at least 1.
pub open spec fn column_count(t: CellTable) -> nat {
    let a = if t.aligns.len() > max_row_len(t.rows) {
        t.aligns.len()
    } else {
        max_row_len(t.rows)
    };
    if a == 0 {
        1
    } else {
        a
    }
}

/// The alignment words of `codes`, comma-separated.
pub open spec fn align_list(codes: Seq<u8>) -> Seq<char>
    decreases codes.len(),
{
    if codes.len() == 0 {
        Seq::empty()
    } else if codes.len() == 1 {
        align_word(codes[0])
    } else {
        align_list(codes.drop_last()) + ", "@ + align_word(codes.last())
    }
}

/// Cells as Typst content blocks, comma-separated.
pub open spec fn cell_list(cells: Seq<Seq<char>>) -> Seq<char>
    decreases cells.len(),
{
    if cells.len() == 0 {
        Seq::empty()
    } else if cells.len() == 1 {
        seq!['['] + cells[0] + seq![']']
    } else {
        cell_list(cells.drop_last()) + ", "@ + seq!['['] + cells.last() + seq![']']
    }
}

/// The cells of several rows, row after row.
pub open spec fn flat_cells(rows: Seq<Seq<Seq<char>>>) -> Seq<Seq<char>>
    decreases rows.len(),
{
    if rows.len() == 0 {
        Seq::empty()
    } else {
        flat_cells(rows.drop_last()) + rows.last()
    }
}

/// The body rows, one line each.
pub open spec fn body_lines(rows: Seq<Seq<Seq<char>>>) -> Seq<char>
    decreases rows.len(),
{
    if rows.len() == 0 {
        Seq::empty()
    } else {
        body_lines(rows.drop_last()) + "  "@ + cell_list(rows.last()) + ",\n"@
    }
}

/// The rendered `#table`: columns, alignments (a one-element tuple keeps its
/// trailing comma), the header rows wrapped in `table.header`, then the body.
pub open spec fn table_markup(t: CellTable) -> Seq<char> {
    let aligns = if t.aligns.len() == 0 {
        Seq::empty()
    } else {
        "  align: ("@ + align_list(t.aligns) + (if t.aligns.len() == 1 {
            ","@
        } else {
            Seq::<char>::empty()
        }) + "),\n"@
    };
    let h = if t.header_rows <= t.rows.len() {
        t.header_rows as int
    } else {
        t.rows.len() as int
    };
    let header = if h > 0 {
        "  table.header("@ + cell_list(flat_cells(t.rows.take(h))) + "),\n"@
    } else {
        Seq::empty()
    };
    "#table(\n"@ + "  columns: "@ + decimal(column_count(t)) + ",\n"@ + aligns + header + body_lines(
        t.rows.skip(h),
    ) + ")\n\n"@
}

/// Accumulates a Markdown table's cells, then renders a Typst `#table`.
pub struct TableBuilder {
    aligns: Vec<u8>,
    rows: Vec<Vec<String>>,
    cur_row: Vec<String>,
    cur_cell: String,
    /// Number of leading rows that form the header.
    header_rows: usize,
}

impl TableBuilder {
    /// The table this builder holds.
    pub closed spec fn view(&self) -> CellTable {
        CellTable {
            aligns: self.aligns@,
            rows: self.rows.deep_view(),
            row: self.cur_row.deep_view(),
            cell: self.cur_cell@,
            header_rows: self.header_rows as nat,
        }
    }

    /// Whether the header count never exceeds the rows.
    pub closed spec fn wf(&self) -> bool {
        self.header_rows <= self.rows@.len()
    }

    /// A fresh table with the given alignments.
    pub fn new(aligns: Vec<u8>) -> (t: Self)
        ensures
            t.view() == new_table(aligns@),
            t.wf(),
    {
        let t = TableBuilder {
            aligns,
            rows: Vec::new(),
            cur_row: Vec::new(),
            cur_cell: String::new(),
            header_rows: 0,
        };
        assert(t.rows.deep_view() =~= Seq::<Seq<Seq<char>>>::empty());
        assert(t.cur_row.deep_view() =~= Seq::<Seq<char>>::empty());
        t
    }

    fn finish_row(&mut self)
        requires
            old(self).wf(),
        ensures
            final(self).wf(),
            final(self).view() == finish_row(old(self).view()),
    {
        if self.cur_row.len() > 0 {
            let mut row: Vec<String> = Vec::new();
            std::mem::swap(&mut row, &mut self.cur_row);
            let ghost old_rows = self.rows@;
            let ghost old_dv = self.rows.deep_view();
            let ghost rv = row.deep_view();
            self.rows.push(row);
            proof {
                assert(self.rows@ == old_rows.push(row));
                assert forall|k: int| 0 <= k < self.rows@.len() implies #[trigger] self.rows.deep_view()[k]
                    == old_dv.push(rv)[k] by {
                    if k < old_rows.len() {
                        assert(self.rows@[k] == old_rows[k]);
                    }
                }
                assert(self.rows.deep_view() =~= old_dv.push(rv));
                assert(self.cur_row.deep_view() =~= Seq::<Seq<char>>::empty());
            }
        }
    }

    fn finish_cell(&mut self)
        ensures
            final(self).wf() == old(self).wf(),
            final(self).view() == (CellTable {
                row: old(self).view().row.push(trim(old(self).view().cell)),
                cell: Seq::empty(),
                ..old(self).view()
            }),
    {
        let mut cell = String::new();
        std::mem::swap(&mut cell, &mut self.cur_cell);
        let chars = chars_of(cell.as_str());
        let t = trim_chars(chars.as_slice());
        let s = crate::text::string_of(t.as_slice());
        let ghost old_row = self.cur_row@;
        let ghost old_dv = self.cur_row.deep_view();
        self.cur_row.push(s);
        proof {
            assert forall|k: int| 0 <= k < self.cur_row@.len() implies #[trigger] self.cur_row.deep_view()[k]
                == old_dv.push(t@)[k] by {
                if k < old_row.len() {
                    assert(self.cur_row@[k] == old_row[k]);
                }
            }
            assert(self.cur_row.deep_view() =~= old_dv.push(t@));
        }
    }

    /// Feed one event inside the table. Returns `false` only for the table's
    /// end, leaving the builder unchanged so the caller can render it.
    pub fn handle(&mut self, event: &MdEvent) -> (consumed: bool)
        requires
            old(self).wf(),
        ensures
            final(self).wf(),
            consumed == !(*event is EndTable),
            consumed ==> final(self).view() == table_step(old(self).view(), *event),
            !consumed ==> final(self).view() == old(self).view(),
    {
        match event {
            MdEvent::EndTable => {
                return false;
            },
            MdEvent::EndTableHead => {
                self.finish_row();
                self.header_rows = self.rows.len();
                assert(self.rows.deep_view().len() == self.rows@.len());
                assert(self.view() =~= table_step(old(self).view(), *event));
            },
            MdEvent::EndTableRow => {
                self.finish_row();
                assert(self.view() =~= table_step(old(self).view(), *event));
            },
            MdEvent::StartTableCell => {
                self.cur_cell = String::new();
                assert(self.cur_cell@ =~= Seq::<char>::empty());
            },
            MdEvent::EndTableCell => {
                self.finish_cell();
                assert(self.view() =~= table_step(old(self).view(), *event));
            },
            MdEvent::Text(t) => {
                let c = chars_of(t.as_str());
                push_escaped(&mut self.cur_cell, c.as_slice());
                assert(self.view() =~= table_step(old(self).view(), *event));
            },
            MdEvent::Code(t) => {
                push_char(&mut self.cur_cell, '`');
                let c = chars_of(t.as_str());
                let code = strip_section_mark(c.as_slice());
                crate::text::push_chars(&mut self.cur_cell, code.as_slice());
                push_char(&mut self.cur_cell, '`');
                assert(self.cur_cell@ =~= old(self).cur_cell@ + code_span(t@));
            },
            MdEvent::StartEmphasis | MdEvent::EndEmphasis => {
                push_char(&mut self.cur_cell, '_');
            },
            MdEvent::StartStrong | MdEvent::EndStrong => {
                push_char(&mut self.cur_cell, '*');
            },
            MdEvent::StartStrikethrough => {
                self.cur_cell.append("#strike[");
            },
            MdEvent::EndStrikethrough | MdEvent::EndLink => {
                push_char(&mut self.cur_cell, ']');
            },
            MdEvent::StartLink(url) => {
                self.cur_cell.append("#link(\"");
                let u = escape_url(url.as_str());
                self.cur_cell.append(u.as_str());
                self.cur_cell.append("\")[");
                assert(self.cur_cell@ =~= old(self).cur_cell@ + ("#link(\""@ + url_escaped(url@)
                    + "\")["@));
            },
            MdEvent::SoftBreak | MdEvent::HardBreak => {
                push_char(&mut self.cur_cell, ' ');
            },
            _ => {},
        }
        assert(self.view() =~= table_step(old(self).view(), *event));
        true
    }

    /// Render the table as a Typst `#table` call.
    pub fn render(&self) -> (out: String)
        requires
            self.wf(),
        ensures
            out@ == table_markup(self.view()),
    {
        let ghost t = self.view();
        let mut max_len: usize = 0;
        let mut i: usize = 0;
        while i < self.rows.len()
            invariant
                i <= self.rows@.len(),
                t == self.view(),
                max_len == max_row_len(t.rows.take(i as int)),
            decreases self.rows.len() - i,
        {
            assert(t.rows.take(i + 1).drop_last() =~= t.rows.take(i as int));
            assert(t.rows[i as int].len() == self.rows@[i as int]@.len());
            if self.rows[i].len() > max_len {
                max_len = self.rows[i].len();
            }
            i += 1;
        }
        assert(t.rows.take(self.rows.len() as int) =~= t.rows);
        let a = if self.aligns.len() > max_len {
            self.aligns.len()
        } else {
            max_len
        };
        let columns = if a == 0 {
            1
        } else {
            a
        };
        let mut out = String::new();
        out.append("#table(\n");
        out.append("  columns: ");
        push_decimal(&mut out, columns);
        out.append(",\n");
        let ghost head = out@;
        if self.aligns.len() > 0 {
            out.append("  align: (");
            push_align_list(&mut out, self.aligns.as_slice());
            if self.aligns.len() == 1 {
                out.append(",");
            }
            out.append("),\n");
        }
        let ghost aligns_part = out@.skip(head.len() as int);
        assert(out@ =~= head + aligns_part);
        let h = self.header_rows;
        let ghost mid = out@;
        if h > 0 {
            out.append("  table.header(");
            push_header_cells(&mut out, self.rows.as_slice(), h);
            out.append("),\n");
        }
        let ghost header_part = out@.skip(mid.len() as int);
        assert(out@ =~= mid + header_part);
        push_body_lines(&mut out, self.rows.as_slice(), h);
        out.append(")\n\n");
        proof {
            if self.aligns.len() == 0 {
                assert(aligns_part =~= Seq::<char>::empty());
            } else if self.aligns.len() == 1 {
                assert(aligns_part =~= "  align: ("@ + align_list(t.aligns) + ","@ + "),\n"@);
            } else {
                assert(aligns_part =~= "  align: ("@ + align_list(t.aligns) + Seq::<char>::empty() + "),\n"@);
            }
            if h == 0 {
                assert(header_part =~= Seq::<char>::empty());
            }
        }
        assert(out@ =~= table_markup(t));
        out
    }
}

/// Append the alignment words of `codes`.
fn push_align_list(out: &mut String, codes: &[u8])
    ensures
        final(out)@ == old(out)@ + align_list(codes@),
{
    let ghost start = out@;
    let mut i: usize = 0;
    while i < codes.len()
        invariant
            i <= codes@.len(),
            out@ == start + align_list(codes@.take(i as int)),
        decreases codes.len() - i,
    {
        if i > 0 {
            out.append(", ");
        }
        let code = codes[i];
        if code == 2 {
            out.append("center");
        } else if code == 3 {
            out.append("right");
        } else {
            out.append("left");
        }
        proof {
            let p = codes@.take(i + 1);
            assert(p.drop_last() =~= codes@.take(i as int));
            if i == 0 {
                assert(align_list(p) == align_word(codes@[0]));
            }
        }
        i += 1;
    }
    assert(codes@.take(codes.len() as int) =~= codes@);
}

/// Append one cell as `[text]`, with a separating comma unless first.
fn push_cell(out: &mut String, cell: &String, first: bool)
    ensures
        final(out)@ == old(out)@ + (if first {
            Seq::<char>::empty()
        } else {
            ", "@
        }) + seq!['['] + cell@ + seq![']'],
{
    if !first {
        out.append(", ");
    }
    push_char(out, '[');
    out.append(cell.as_str());
    push_char(out, ']');
    if first {
        assert(out@ =~= old(out)@ + Seq::<char>::empty() + seq!['['] + cell@ + seq![']']);
    } else {
        assert(out@ =~= old(out)@ + ", "@ + seq!['['] + cell@ + seq![']']);
    }
}

proof fn lemma_cell_list_push(cells: Seq<Seq<char>>, c: Seq<char>)
    ensures
        cell_list(cells.push(c)) == cell_list(cells) + (if cells.len() == 0 {
            Seq::<char>::empty()
        } else {
            ", "@
        }) + seq!['['] + c + seq![']'],
{
    let p = cells.push(c);
    assert(p.drop_last() =~= cells);
    if cells.len() == 0 {
        assert(cell_list(cells) =~= Seq::<char>::empty());
        assert(cell_list(p) =~= cell_list(cells) + Seq::<char>::empty() + seq!['['] + c + seq![']']);
    }
}

/// Append the cells of `rows[..h]`, comma-separated.
fn push_header_cells(out: &mut String, rows: &[Vec<String>], h: usize)
    requires
        h <= rows@.len(),
    ensures
        final(out)@ == old(out)@ + cell_list(flat_cells(rows.deep_view().take(h as int))),
{
    let ghost start = out@;
    let ghost dv = rows.deep_view();
    let mut first = true;
    let mut r: usize = 0;
    while r < h
        invariant
            r <= h <= rows@.len(),
            dv == rows.deep_view(),
            first == (flat_cells(dv.take(r as int)).len() == 0),
            out@ == start + cell_list(flat_cells(dv.take(r as int))),
        decreases h - r,
    {
        let row = &rows[r];
        assert(dv[r as int] == row.deep_view());
        let ghost before_cells = flat_cells(dv.take(r as int));
        let mut c: usize = 0;
        while c < row.len()
            invariant
                c <= row@.len(),
                row.deep_view() == dv[r as int],
                before_cells == flat_cells(dv.take(r as int)),
                first == ((before_cells + dv[r as int].take(c as int)).len() == 0),
                out@ == start + cell_list(before_cells + dv[r as int].take(c as int)),
            decreases row.len() - c,
        {
            let ghost cells = before_cells + dv[r as int].take(c as int);
            assert(row.deep_view()[c as int] == row@[c as int]@);
            push_cell(out, &row[c], first);
            first = false;
            proof {
                lemma_cell_list_push(cells, row@[c as int]@);
                assert(before_cells + dv[r as int].take(c + 1) =~= cells.push(row@[c as int]@));
            }
            c += 1;
        }
        proof {
            assert(dv[r as int].take(row@.len() as int) =~= dv[r as int]);
            assert(dv.take(r + 1).drop_last() =~= dv.take(r as int));
        }
        r += 1;
    }
}

/// Append the body rows `rows[h..]`, one line each.
fn push_body_lines(out: &mut String, rows: &[Vec<String>], h: usize)
    requires
        h <= rows@.len(),
    ensures
        final(out)@ == old(out)@ + body_lines(rows.deep_view().skip(h as int)),
{
    let ghost start = out@;
    let ghost dv = rows.deep_view();
    let mut r: usize = h;
    assert(dv.skip(h as int).take(0) =~= Seq::<Seq<Seq<char>>>::empty());
    while r < rows.len()
        invariant
            h <= r <= rows@.len(),
            dv == rows.deep_view(),
            out@ == start + body_lines(dv.skip(h as int).take(r - h)),
        decreases rows.len() - r,
    {
        let row = &rows[r];
        assert(dv[r as int] == row.deep_view());
        let ghost line_start = out@;
        out.append("  ");
        let mut c: usize = 0;
        while c < row.len()
            invariant
                c <= row@.len(),
                row.deep_view() == dv[r as int],
                out@ == line_start + "  "@ + cell_list(dv[r as int].take(c as int)),
            decreases row.len() - c,
        {
            assert(row.deep_view()[c as int] == row@[c as int]@);
            push_cell(out, &row[c], c == 0);
            proof {
                lemma_cell_list_push(dv[r as int].take(c as int), row@[c as int]@);
                assert(dv[r as int].take(c + 1) =~= dv[r as int].take(c as int).push(
                    row@[c as int]@,
                ));
            }
            c += 1;
        }
        out.append(",\n");
        proof {
            assert(dv[r as int].take(row@.len() as int) =~= dv[r as int]);
            let s = dv.skip(h as int).take(r + 1 - h);
            assert(s.drop_last() =~= dv.skip(h as int).take(r - h));
            assert(s.last() == dv[r as int]);
        }
        r += 1;
    }
    assert(dv.skip(h as int).take(rows@.len() - h) =~= dv.skip(h as int));
}

} // verus!
