//! Document outlines: one entry per imported heading, located in the body by
//! the section markers the converter plants and [`strip_markers`] removes.
use vstd::prelude::*;

use super::escape::{digit_run, SECTION_MARK};

verus! {

/// One heading of an imported document.
pub struct OutlineEntry {
    /// Stable section id.
    pub id: String,
    /// Heading depth, 1 for a top-level heading.
    pub level: u8,
    /// The heading's plain text.
    pub title: String,
    /// Byte offset of the heading's markup in the body.
    pub offset: usize,
}

/// An outline entry as plain values.
#[verifier::ext_equal]
pub struct EntryView {
    pub id: Seq<char>,
    pub level: u8,
    pub title: Seq<char>,
    pub offset: nat,
}

impl OutlineEntry {
    pub open spec fn view(&self) -> EntryView {
        EntryView { id: self.id@, level: self.level, title: self.title@, offset: self.offset as nat }
    }
}

/// The views of a list of entries.
pub open spec fn entries_view(es: Seq<OutlineEntry>) -> Seq<EntryView> {
    es.map_values(|e: OutlineEntry| e.view())
}

/// UTF-8 length of one character (`char::len_utf8`).
pub open spec fn utf8_char_len(c: char) -> nat {
    let u = c as u32;
    if u < 0x80 {
        1
    } else if u < 0x800 {
        2
    } else if u < 0x10000 {
        3
    } else {
        4
    }
}

/// UTF-8 length of a character sequence.
pub open spec fn utf8_len(s: Seq<char>) -> nat
    decreases s.len(),
{
    if s.len() == 0 {
        0
    } else {
        utf8_len(s.drop_last()) + utf8_char_len(s.last())
    }
}

/// `char::len_utf8`.
pub fn char_utf8_len(c: char) -> (n: usize)
    ensures
        n == utf8_char_len(c),
{
    let u = c as u32;
    if u < 0x80 {
        1
    } else if u < 0x800 {
        2
    } else if u < 0x10000 {
        3
    } else {
        4
    }
}

/// The length of a well-formed marker (mark, at least one digit, mark) at the
/// start of `raw`, or 0 when none starts there.
pub open spec fn marker_len(raw: Seq<char>) -> nat {
    let d = digit_run(raw.drop_first());
    if raw.len() > 0 && raw[0] == SECTION_MARK && d > 0 && d + 1 < raw.len() && raw[d as int + 1]
        == SECTION_MARK {
        d + 2
    } else {
        0
    }
}

/// The decimal value of a digit string.
pub open spec fn digits_value(s: Seq<char>) -> nat
    decreases s.len(),
{
    if s.len() == 0 {
        0
    } else {
        digits_value(s.drop_last()) * 10 + ((s.last() as u32) - 48) as nat
    }
}

/// `raw` without its markers; a mark that starts no well-formed marker is
/// dropped on its own.
pub open spec fn stripped(raw: Seq<char>) -> Seq<char>
    decreases raw.len(),
{
    if raw.len() == 0 {
        Seq::empty()
    } else if raw[0] == SECTION_MARK {
        let m = marker_len(raw);
        if m > 0 {
            stripped(raw.skip(m as int))
        } else {
            stripped(raw.drop_first())
        }
    } else {
        seq![raw[0]] + stripped(raw.drop_first())
    }
}

/// The markers of `raw` in order: each marker's number and the position in
/// the stripped text where it stood (counting from `base`).
pub open spec fn markers(raw: Seq<char>, base: nat) -> Seq<(nat, nat)>
    decreases raw.len(),
{
    if raw.len() == 0 {
        Seq::empty()
    } else if raw[0] == SECTION_MARK {
        let m = marker_len(raw);
        if m > 0 {
            seq![(digits_value(raw.subrange(1, m - 1)), base)] + markers(raw.skip(m as int), base)
        } else {
            markers(raw.drop_first(), base)
        }
    } else {
        markers(raw.drop_first(), base + 1)
    }
}

/// The byte offset recorded for a marker at character position `pos` of
/// `body` (saturating at `usize::MAX`).
pub open spec fn byte_offset(body: Seq<char>, pos: nat) -> nat {
    let b = utf8_len(body.take(pos as int));
    if b <= usize::MAX {
        b
    } else {
        usize::MAX as nat
    }
}

/// The outline after applying the markers in order: a marker numbered `k`
/// sets entry `k`'s offset; numbers past the outline are ignored.
pub open spec fn apply_markers(outline: Seq<EntryView>, ms: Seq<(nat, nat)>, body: Seq<char>) -> Seq<
    EntryView,
>
    decreases ms.len(),
{
    if ms.len() == 0 {
        outline
    } else {
        let prev = apply_markers(outline, ms.drop_last(), body);
        let (k, pos) = ms.last();
        if k < prev.len() {
            prev.update(k as int, EntryView { offset: byte_offset(body, pos), ..prev[k as int] })
        } else {
            prev
        }
    }
}

/// Whether `s` contains the section mark.
pub open spec fn has_mark(s: Seq<char>) -> bool {
    s.contains(SECTION_MARK)
}

/// Read the marker number at `raw[from..to]` (all digits), capped at `cap`.
fn marker_number(raw: &[char], from: usize, to: usize, cap: usize) -> (v: usize)
    requires
        from <= to <= raw@.len(),
        forall|i: int| from <= i < to ==> '0' <= #[trigger] raw@[i] <= '9',
    ensures
        v == if digits_value(raw@.subrange(from as int, to as int)) < cap {
            digits_value(raw@.subrange(from as int, to as int))
        } else {
            cap as nat
        },
{
    let mut v: usize = 0;
    let mut i: usize = from;
    while i < to
        invariant
            from <= i <= to <= raw@.len(),
            forall|j: int| from <= j < to ==> '0' <= #[trigger] raw@[j] <= '9',
            v == if digits_value(raw@.subrange(from as int, i as int)) < cap {
                digits_value(raw@.subrange(from as int, i as int))
            } else {
                cap as nat
            },
        decreases to - i,
    {
        let d = (raw[i] as u32 - 48) as usize;
        let ghost p = raw@.subrange(from as int, i as int);
        let ghost q = raw@.subrange(from as int, i + 1);
        assert(q.drop_last() =~= p);
        assert(q.last() == raw@[i as int]);
        assert(digits_value(q) == digits_value(p) * 10 + d);
        if v < cap {
            v = match v.checked_mul(10) {
                Some(t) => match t.checked_add(d) {
                    Some(u) => if u < cap {
                        u
                    } else {
                        cap
                    },
                    None => cap,
                },
                None => cap,
            };
        } else {
            assert(digits_value(p) >= cap);
            assert(digits_value(p) * 10 + d >= cap) by (nonlinear_arith)
                requires
                    digits_value(p) >= cap,
            ;
        }
        i += 1;
    }
    v
}

/// The length of the well-formed marker at `raw[pos]`, or 0.
fn marker_at(raw: &[char], pos: usize) -> (m: usize)
    requires
        pos < raw.len(),
        raw@[pos as int] == SECTION_MARK,
    ensures
        m == marker_len(raw@.skip(pos as int)),
        m > 0 ==> pos + m <= raw@.len() && forall|i: int|
            pos + 1 <= i < pos + m - 1 ==> '0' <= #[trigger] raw@[i] <= '9',
{
    let ghost r = raw@.skip(pos as int);
    let mut e = pos + 1;
    assert(r.drop_first() =~= raw@.skip(pos + 1));
    while e < raw.len() && '0' <= raw[e] && raw[e] <= '9'
        invariant
            pos + 1 <= e <= raw@.len(),
            digit_run(r.drop_first()) == (e - pos - 1) + digit_run(raw@.skip(e as int)),
            forall|i: int| pos + 1 <= i < e ==> '0' <= #[trigger] raw@[i] <= '9',
        decreases raw.len() - e,
    {
        assert(raw@.skip(e as int).drop_first() =~= raw@.skip(e + 1));
        e += 1;
    }
    proof {
        if e < raw.len() {
            assert(raw@.skip(e as int)[0] == raw@[e as int]);
        }
    }
    let d = e - pos - 1;
    if d > 0 && e < raw.len() && raw[e] == SECTION_MARK {
        assert(r[d as int + 1] == raw@[e as int]);
        d + 2
    } else {
        proof {
            if d > 0 && e < raw.len() {
                assert(r[d as int + 1] == raw@[e as int]);
            }
        }
        0
    }
}

/// Applying markers never changes the outline's length.
proof fn lemma_apply_len(outline: Seq<EntryView>, ms: Seq<(nat, nat)>, body: Seq<char>)
    ensures
        apply_markers(outline, ms, body).len() == outline.len(),
    decreases ms.len(),
{
    if ms.len() > 0 {
        lemma_apply_len(outline, ms.drop_last(), body);
    }
}

/// Set the offset of entry `k`.
fn set_offset(outline: &mut Vec<OutlineEntry>, k: usize, offset: usize)
    requires
        k < old(outline)@.len(),
    ensures
        final(outline)@.len() == old(outline)@.len(),
        entries_view(final(outline)@) == entries_view(old(outline)@).update(
            k as int,
            EntryView { offset: offset as nat, ..entries_view(old(outline)@)[k as int] },
        ),
{
    let e = &outline[k];
    let id = e.id.clone();
    let title = e.title.clone();
    let level = e.level;
    let ghost old_v = entries_view(outline@);
    outline.set(k, OutlineEntry { id, level, title, offset });
    assert(entries_view(outline@) =~= old_v.update(
        k as int,
        EntryView { offset: offset as nat, ..old_v[k as int] },
    ));
}

/// Remove the section markers from `raw`, setting each marked entry's offset
/// to the byte position where its marker stood in the returned body.
pub fn strip_markers(raw: &[char], outline: &mut Vec<OutlineEntry>) -> (body: Vec<char>)
    ensures
        body@ == stripped(raw@),
        entries_view(final(outline)@) == apply_markers(
            entries_view(old(outline)@),
            markers(raw@, 0),
            stripped(raw@),
        ),
{
    let ghost full = stripped(raw@);
    let ghost start_outline = entries_view(outline@);
    let ghost mut done: Seq<(nat, nat)> = Seq::empty();
    let mut body: Vec<char> = Vec::new();
    let mut bytes: usize = 0;
    let mut pos: usize = 0;
    assert(raw@.skip(0) =~= raw@);
    assert(done + markers(raw@, 0) =~= markers(raw@, 0));
    while pos < raw.len()
        invariant
            pos <= raw@.len(),
            full == stripped(raw@),
            body@ + stripped(raw@.skip(pos as int)) == full,
            bytes == (if utf8_len(body@) <= usize::MAX {
                utf8_len(body@)
            } else {
                usize::MAX as nat
            }),
            start_outline.len() == outline@.len(),
            markers(raw@, 0) == done + markers(raw@.skip(pos as int), body@.len()),
            entries_view(outline@) == apply_markers(start_outline, done, full),
        decreases raw.len() - pos,
    {
        let ghost rest = raw@.skip(pos as int);
        let c = raw[pos];
        assert(rest[0] == c);
        if c == SECTION_MARK {
            let m = marker_at(raw, pos);
            if m > 0 {
                let k = marker_number(raw, pos + 1, pos + m - 1, outline.len());
                let ghost v = digits_value(raw@.subrange(pos + 1, pos + m - 1));
                proof {
                    assert(rest.subrange(1, m - 1) =~= raw@.subrange(pos + 1, pos + m - 1));
                    assert(rest.skip(m as int) =~= raw@.skip(pos + m));
                    assert(full.take(body@.len() as int) =~= body@);
                    lemma_apply_len(start_outline, done, full);
                }
                if k < outline.len() {
                    set_offset(outline, k, bytes);
                }
                proof {
                    let nd = done.push((v, body@.len()));
                    assert(nd.drop_last() =~= done);
                    assert(done + markers(rest, body@.len()) =~= nd + markers(
                        raw@.skip(pos + m),
                        body@.len(),
                    ));
                    done = nd;
                }
                pos = pos + m;
            } else {
                proof {
                    assert(rest.drop_first() =~= raw@.skip(pos + 1));
                }
                pos = pos + 1;
            }
        } else {
            let ghost old_body = body@;
            body.push(c);
            let w = char_utf8_len(c);
            bytes = bytes.saturating_add(w);
            proof {
                assert(body@.drop_last() =~= old_body);
                assert(rest.drop_first() =~= raw@.skip(pos + 1));
                assert(old_body + stripped(rest) =~= body@ + stripped(raw@.skip(pos + 1)));
            }
            pos = pos + 1;
        }
    }
    assert(body@ + Seq::<char>::empty() =~= body@);
    assert(done + Seq::<(nat, nat)>::empty() =~= done);
    body
}

} // verus!

verus! {

/// Set the title of entry `k`.
pub fn set_title(outline: &mut Vec<OutlineEntry>, k: usize, title: String)
    requires
        k < old(outline)@.len(),
    ensures
        final(outline)@.len() == old(outline)@.len(),
        entries_view(final(outline)@) == entries_view(old(outline)@).update(
            k as int,
            EntryView { title: title@, ..entries_view(old(outline)@)[k as int] },
        ),
{
    let e = &outline[k];
    let id = e.id.clone();
    let level = e.level;
    let offset = e.offset;
    let ghost old_v = entries_view(outline@);
    let ghost tv = title@;
    outline.set(k, OutlineEntry { id, level, title, offset });
    assert(entries_view(outline@) =~= old_v.update(
        k as int,
        EntryView { title: tv, ..old_v[k as int] },
    ));
}

/// Push an entry.
pub fn push_entry(outline: &mut Vec<OutlineEntry>, e: OutlineEntry)
    ensures
        entries_view(final(outline)@) == entries_view(old(outline)@).push(e.view()),
{
    let ghost old_v = entries_view(outline@);
    let ghost ev = e.view();
    outline.push(e);
    assert(entries_view(outline@) =~= old_v.push(ev));
}

} // verus!

verus! {

/// Every entry's offset moved `shift` bytes earlier, stopping at 0.
pub open spec fn shifted_outline(outline: Seq<EntryView>, shift: nat) -> Seq<EntryView> {
    outline.map_values(
        |e: EntryView|
            EntryView {
                offset: if e.offset >= shift {
                    (e.offset - shift) as nat
                } else {
                    0
                },
                ..e
            },
    )
}

/// The byte length of the first `n` characters of `s` (`byte_offset`), computed.
pub fn prefix_bytes(s: &[char], n: usize) -> (b: usize)
    requires
        n <= s@.len(),
    ensures
        b == byte_offset(s@, n as nat),
{
    let mut b: usize = 0;
    let mut i: usize = 0;
    while i < n
        invariant
            i <= n <= s@.len(),
            b == (if utf8_len(s@.take(i as int)) <= usize::MAX {
                utf8_len(s@.take(i as int))
            } else {
                usize::MAX as nat
            }),
        decreases n - i,
    {
        assert(s@.take(i + 1).drop_last() =~= s@.take(i as int));
        b = b.saturating_add(char_utf8_len(s[i]));
        i += 1;
    }
    b
}

/// Move every entry's offset `shift` bytes earlier, stopping at 0.
pub fn shift_offsets(outline: &mut Vec<OutlineEntry>, shift: usize)
    ensures
        entries_view(final(outline)@) == shifted_outline(entries_view(old(outline)@), shift as nat),
{
    let ghost start = entries_view(outline@);
    let mut k: usize = 0;
    while k < outline.len()
        invariant
            k <= outline@.len(),
            start.len() == outline@.len(),
            forall|j: int|
                0 <= j < k ==> #[trigger] entries_view(outline@)[j] == shifted_outline(
                    start,
                    shift as nat,
                )[j],
            forall|j: int| k <= j < outline@.len() ==> #[trigger] entries_view(outline@)[j] == start[j],
        decreases outline.len() - k,
    {
        let off = outline[k].offset;
        let ghost before = entries_view(outline@);
        set_offset(outline, k, off.saturating_sub(shift));
        assert forall|j: int| 0 <= j < k + 1 implies #[trigger] entries_view(outline@)[j]
            == shifted_outline(start, shift as nat)[j] by {
            if j < k {
                assert(entries_view(outline@)[j] == before[j]);
            }
        }
        assert forall|j: int| k + 1 <= j < outline@.len() implies #[trigger] entries_view(
            outline@,
        )[j] == start[j] by {
            assert(entries_view(outline@)[j] == before[j]);
        }
        k += 1;
    }
    assert(entries_view(outline@) =~= shifted_outline(start, shift as nat));
}

} // verus!

verus! {

/// Stripping leaves no section mark behind.
pub proof fn lemma_stripped_has_no_mark(raw: Seq<char>)
    ensures
        forall|i: int| 0 <= i < stripped(raw).len() ==> #[trigger] stripped(raw)[i] != SECTION_MARK,
    decreases raw.len(),
{
    if raw.len() > 0 {
        if raw[0] == SECTION_MARK {
            let m = marker_len(raw);
            if m > 0 {
                lemma_stripped_has_no_mark(raw.skip(m as int));
                assert(stripped(raw) == stripped(raw.skip(m as int)));
            } else {
                lemma_stripped_has_no_mark(raw.drop_first());
                assert(stripped(raw) == stripped(raw.drop_first()));
            }
        } else {
            lemma_stripped_has_no_mark(raw.drop_first());
            let rest = stripped(raw.drop_first());
            assert forall|i: int| 0 <= i < stripped(raw).len() implies #[trigger] stripped(raw)[i]
                != SECTION_MARK by {
                assert(stripped(raw) == seq![raw[0]] + rest);
                if i > 0 {
                    assert(stripped(raw)[i] == rest[i - 1]);
                }
            }
        }
    }
}

} // verus!
