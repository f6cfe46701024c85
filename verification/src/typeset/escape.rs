//! Escaping literal text for Typst markup.
use vstd::prelude::*;

use crate::text::{chars_of, is_ws, lead_ws, lines, push_char, push_chars, split_lines};

verus! {

/// The private-use character that brackets importer section markers in raw
/// markup; source text may never produce one.
pub const SECTION_MARK: char = '\u{E000}';

/// Characters with markup meaning in Typst, escaped with a backslash when
/// emitted as literal text. Brackets are included so literal `[`/`]` do not
/// open or close content blocks.
pub open spec fn is_inline_special(c: char) -> bool {
    ||| c == '\\'
    ||| c == '`'
    ||| c == '*'
    ||| c == '_'
    ||| c == '#'
    ||| c == '$'
    ||| c == '<'
    ||| c == '>'
    ||| c == '@'
    ||| c == '~'
    ||| c == '='
    ||| c == '-'
    ||| c == '+'
    ||| c == '['
    ||| c == ']'
}

/// Whether `c` is one of the Typst inline specials.
pub fn inline_special(c: char) -> (b: bool)
    ensures
        b == is_inline_special(c),
{
    c == '\\' || c == '`' || c == '*' || c == '_' || c == '#' || c == '$' || c == '<' || c == '>'
        || c == '@' || c == '~' || c == '=' || c == '-' || c == '+' || c == '[' || c == ']'
}

/// One character of escaped inline text: dropped if it is the section mark,
/// backslash-prefixed if special.
pub open spec fn escape_char(c: char) -> Seq<char> {
    if c == SECTION_MARK {
        Seq::empty()
    } else if is_inline_special(c) {
        seq!['\\', c]
    } else {
        seq![c]
    }
}

/// `s` escaped for literal inline use in Typst.
pub open spec fn escaped(s: Seq<char>) -> Seq<char>
    decreases s.len(),
{
    if s.len() == 0 {
        Seq::empty()
    } else {
        escaped(s.drop_last()) + escape_char(s.last())
    }
}

/// Append `s` escaped for literal inline use.
pub fn push_escaped(out: &mut String, s: &[char])
    ensures
        final(out)@ == old(out)@ + escaped(s@),
{
    let ghost start = out@;
    let mut i: usize = 0;
    while i < s.len()
        invariant
            i <= s@.len(),
            out@ == start + escaped(s@.take(i as int)),
        decreases s.len() - i,
    {
        let ch = s[i];
        if ch != SECTION_MARK {
            if inline_special(ch) {
                push_char(out, '\\');
            }
            push_char(out, ch);
        }
        assert(s@.take(i + 1).drop_last() =~= s@.take(i as int));
        assert(out@ =~= start + escaped(s@.take(i + 1)));
        i += 1;
    }
    assert(s@.take(s.len() as int) =~= s@);
}

/// Escape literal text for inline Typst: specials get a backslash, and the
/// section mark is dropped so source text cannot forge an importer marker.
pub fn escape_inline(s: &str) -> (out: String)
    ensures
        out@ == escaped(s@),
{
    let chars = chars_of(s);
    let mut out = String::new();
    push_escaped(&mut out, chars.as_slice());
    out
}

/// `s` without section marks.
pub open spec fn without_mark(s: Seq<char>) -> Seq<char> {
    s.filter(|c: char| c != SECTION_MARK)
}

/// Drop the section mark from source text, so that it can never counterfeit
/// a section marker.
pub fn strip_section_mark(s: &[char]) -> (out: Vec<char>)
    ensures
        out@ == without_mark(s@),
{
    let mut out: Vec<char> = Vec::new();
    let mut i: usize = 0;
    while i < s.len()
        invariant
            i <= s@.len(),
            out@ == without_mark(s@.take(i as int)),
        decreases s.len() - i,
    {
        assert(s@.take(i + 1).drop_last() =~= s@.take(i as int));
        reveal_with_fuel(Seq::<char>::filter, 1);
        if s[i] != SECTION_MARK {
            out.push(s[i]);
        }
        i += 1;
    }
    assert(s@.take(s.len() as int) =~= s@);
    out
}

/// `s` without section marks, as a string.
pub fn mark_free(s: &str) -> (out: String)
    ensures
        out@ == without_mark(s@),
{
    let c = chars_of(s);
    let v = strip_section_mark(c.as_slice());
    crate::text::string_of(v.as_slice())
}

/// Length of the run of ASCII digits at the start of `s`.
pub open spec fn digit_run(s: Seq<char>) -> nat
    decreases s.len(),
{
    if s.len() > 0 && '0' <= s[0] <= '9' {
        1 + digit_run(s.drop_first())
    } else {
        0
    }
}

/// The position of a numbered-list separator (`1.` / `2)` after optional
/// indentation, followed by a space or the line end), if the line has one.
pub open spec fn enum_separator(line: Seq<char>) -> Option<int> {
    let lead = lead_ws(line) as int;
    let digits = digit_run(line.skip(lead)) as int;
    let sep = lead + digits;
    if digits > 0 && sep < line.len() && (line[sep] == '.' || line[sep] == ')') && (sep + 1
        >= line.len() || line[sep + 1] == ' ') {
        Some(sep)
    } else {
        None
    }
}

/// The first `n` characters of a plaintext line, escaped: specials and the
/// enumerator separator `sep` get a backslash.
pub open spec fn plain_escaped(line: Seq<char>, sep: Option<int>, n: int) -> Seq<char>
    decreases n,
{
    if n <= 0 {
        Seq::empty()
    } else {
        let c = line[n - 1];
        let prev = plain_escaped(line, sep, n - 1);
        if is_inline_special(c) || sep == Some(n - 1) {
            prev + seq!['\\', c]
        } else {
            prev.push(c)
        }
    }
}

/// A plaintext line escaped for Typst.
pub open spec fn escape_plain_line(line: Seq<char>) -> Seq<char> {
    plain_escaped(line, enum_separator(line), line.len() as int)
}

/// Count the ASCII digits starting at `from`.
fn count_digits(s: &[char], from: usize) -> (n: usize)
    requires
        from <= s.len(),
    ensures
        n == digit_run(s@.skip(from as int)),
        from + n <= s.len(),
{
    let mut i: usize = from;
    assert(s@.skip(from as int) =~= s@.skip(from as int));
    while i < s.len() && '0' <= s[i] && s[i] <= '9'
        invariant
            from <= i <= s@.len(),
            digit_run(s@.skip(from as int)) == (i - from) + digit_run(s@.skip(i as int)),
        decreases s.len() - i,
    {
        assert(s@.skip(i as int).drop_first() =~= s@.skip(i + 1));
        i += 1;
    }
    i - from
}

/// Escape one plaintext line: inline specials everywhere, plus a leading
/// numbered-list separator (`1.` / `2)`) so the line is not read as a list.
pub fn escape_plaintext_line(line: &[char]) -> (out: String)
    ensures
        out@ == escape_plain_line(line@),
{
    let lead = crate::text::count_lead_ws(line);
    proof {
        crate::text::lemma_lead_ws(line@);
    }
    let digits = count_digits(line, lead);
    let sep = lead + digits;
    let mut enum_sep: Option<usize> = None;
    if digits > 0 && sep < line.len() && (line[sep] == '.' || line[sep] == ')') && (sep + 1
        >= line.len() || line[sep + 1] == ' ') {
        enum_sep = Some(sep);
    }
    let ghost spec_sep = enum_separator(line@);
    assert(match enum_sep {
        Some(k) => spec_sep == Some(k as int),
        None => spec_sep is None,
    });
    let mut out = String::new();
    let mut i: usize = 0;
    while i < line.len()
        invariant
            i <= line@.len(),
            match enum_sep {
                Some(k) => spec_sep == Some(k as int),
                None => spec_sep is None,
            },
            out@ == plain_escaped(line@, spec_sep, i as int),
        decreases line.len() - i,
    {
        let ch = line[i];
        let is_sep = match enum_sep {
            Some(k) => k == i,
            None => false,
        };
        if inline_special(ch) || is_sep {
            push_char(&mut out, '\\');
        }
        push_char(&mut out, ch);
        i += 1;
    }
    out
}

/// Plain text as Typst: every line escaped and newline-terminated, so blank
/// lines survive as paragraph breaks.
pub open spec fn plaintext_markup(text: Seq<char>) -> Seq<char> {
    lines_markup(lines(text))
}

/// The escaped lines of `ls`, each followed by a newline.
pub open spec fn lines_markup(ls: Seq<Seq<char>>) -> Seq<char>
    decreases ls.len(),
{
    if ls.len() == 0 {
        Seq::empty()
    } else {
        lines_markup(ls.drop_last()) + escape_plain_line(ls.last()).push('\n')
    }
}

/// Convert plain text to Typst markup line by line.
pub fn plaintext_to_typst(text: &[char]) -> (out: String)
    ensures
        out@ == plaintext_markup(text@),
{
    let ls = split_lines(text);
    let ghost lsv = ls.deep_view();
    let mut out = String::new();
    let mut i: usize = 0;
    while i < ls.len()
        invariant
            i <= ls@.len(),
            lsv == ls.deep_view(),
            lsv == lines(text@),
            out@ == lines_markup(lsv.take(i as int)),
        decreases ls.len() - i,
    {
        assert(ls.deep_view()[i as int] == ls@[i as int]@);
        let esc = escape_plaintext_line(ls[i].as_slice());
        out.append(esc.as_str());
        push_char(&mut out, '\n');
        assert(lsv.take(i + 1).drop_last() =~= lsv.take(i as int));
        i += 1;
    }
    assert(lsv.take(ls.len() as int) =~= lsv);
    out
}

/// Escaping marks exactly Typst's special characters (backslash, backtick,
/// `* _ # $ < > @ ~ = - + [ ]`): appending one of them to any text appends
/// it behind a backslash, both to inline-escaped text and at the end of an
/// escaped plaintext line (so `$5` can never open math mode); any other
/// character but the section mark is appended as it is to inline-escaped
/// text, and the section mark is dropped.
pub proof fn lemma_escaping_marks_specials(s: Seq<char>, c: char)
    ensures
        (c == '\\' || c == '`' || c == '*' || c == '_' || c == '#' || c == '$' || c == '<' || c == '>'
            || c == '@' || c == '~' || c == '=' || c == '-' || c == '+' || c == '[' || c == ']') ==> {
            &&& escaped(s.push(c)) == escaped(s) + seq!['\\', c]
            &&& escape_plain_line(s.push(c)).len() >= 2
            &&& escape_plain_line(s.push(c)).subrange(
                escape_plain_line(s.push(c)).len() - 2,
                escape_plain_line(s.push(c)).len() as int,
            ) == seq!['\\', c]
        },
        !(c == '\\' || c == '`' || c == '*' || c == '_' || c == '#' || c == '$' || c == '<' || c
            == '>' || c == '@' || c == '~' || c == '=' || c == '-' || c == '+' || c == '[' || c == ']')
            && c != SECTION_MARK ==> escaped(s.push(c)) == escaped(s).push(c),
        c == SECTION_MARK ==> escaped(s.push(c)) == escaped(s),
{
    let line = s.push(c);
    assert(line.drop_last() =~= s);
    let n = line.len() as int;
    assert(line[n - 1] == c);
    let prev = plain_escaped(line, enum_separator(line), n - 1);
    if is_inline_special(c) {
        let out = escape_plain_line(line);
        assert(out == prev + seq!['\\', c]);
        assert(out.subrange(out.len() - 2, out.len() as int) =~= seq!['\\', c]);
    }
    if c == SECTION_MARK {
        assert(escaped(s) + Seq::<char>::empty() =~= escaped(s));
    }
}

/// Escaped inline text never holds the section mark.
pub proof fn lemma_escaped_has_no_mark(s: Seq<char>)
    ensures
        !escaped(s).contains(SECTION_MARK),
    decreases s.len(),
{
    if s.len() > 0 {
        lemma_escaped_has_no_mark(s.drop_last());
        let p = escaped(s.drop_last());
        let e = escape_char(s.last());
        assert(escaped(s) == p + e);
        if escaped(s).contains(SECTION_MARK) {
            let k = choose|k: int| 0 <= k < escaped(s).len() && escaped(s)[k] == SECTION_MARK;
            if k < p.len() {
                assert(p[k] == SECTION_MARK);
            } else {
                assert(e[k - p.len()] == SECTION_MARK);
            }
        }
    }
}

} // verus!
