//! Splitting source text into pages at lines that match page-break rules.
use vstd::prelude::*;

use super::{BreakPosition, PageBreakRule};
use crate::text::{chars_equal, chars_of, count_lead_ws, lead_ws, lines, split_lines, trim, trim_chars};

verus! {

/// Whether a line matches a rule's pattern: the trimmed pattern is non-empty
/// and equals the trimmed line.
pub open spec fn rule_matches(line: Seq<char>, pattern: Seq<char>) -> bool {
    trim(pattern).len() > 0 && trim(line) == trim(pattern)
}

/// The position of the first rule whose pattern the line matches.
pub open spec fn first_match(line: Seq<char>, rules: Seq<PageBreakRule>) -> Option<BreakPosition>
    decreases rules.len(),
{
    if rules.len() == 0 {
        None
    } else if rule_matches(line, rules[0].pattern@) {
        Some(rules[0].position)
    } else {
        first_match(line, rules.drop_first())
    }
}

/// Append `line` and a newline to the last page.
pub open spec fn push_line(pages: Seq<Seq<char>>, line: Seq<char>) -> Seq<Seq<char>> {
    if pages.len() == 0 {
        pages
    } else {
        pages.update(pages.len() - 1, pages.last() + line.push('\n'))
    }
}

/// The pages after one more line.
pub open spec fn page_step(pages: Seq<Seq<char>>, line: Seq<char>, rules: Seq<PageBreakRule>) -> Seq<
    Seq<char>,
> {
    match first_match(line, rules) {
        Some(BreakPosition::Replace) => pages.push(Seq::empty()),
        Some(BreakPosition::Before) => push_line(pages.push(Seq::empty()), line),
        Some(BreakPosition::After) => push_line(pages, line).push(Seq::empty()),
        None => push_line(pages, line),
    }
}

/// The pages, blank ones included, after the lines `ls`.
pub open spec fn raw_pages(ls: Seq<Seq<char>>, rules: Seq<PageBreakRule>) -> Seq<Seq<char>>
    decreases ls.len(),
{
    if ls.len() == 0 {
        seq![Seq::empty()]
    } else {
        page_step(raw_pages(ls.drop_last(), rules), ls.last(), rules)
    }
}

/// Whether a page holds only whitespace.
pub open spec fn blank(p: Seq<char>) -> bool {
    lead_ws(p) == p.len()
}

/// The non-blank pages of `ps`, in order.
pub open spec fn non_blank(ps: Seq<Seq<char>>) -> Seq<Seq<char>>
    decreases ps.len(),
{
    if ps.len() == 0 {
        Seq::empty()
    } else if blank(ps.last()) {
        non_blank(ps.drop_last())
    } else {
        non_blank(ps.drop_last()).push(ps.last())
    }
}

/// The page chunks of `text`: the non-blank pages, or one empty page when
/// every page is blank.
pub open spec fn page_chunks(text: Seq<char>, rules: Seq<PageBreakRule>) -> Seq<Seq<char>> {
    let kept = non_blank(raw_pages(lines(text), rules));
    if kept.len() == 0 {
        seq![Seq::empty()]
    } else {
        kept
    }
}

/// Whether `line` matches `pattern` (see [`rule_matches`]).
pub fn line_matches(line: &[char], pattern: &[char]) -> (b: bool)
    ensures
        b == rule_matches(line@, pattern@),
{
    let p = trim_chars(pattern);
    if p.len() == 0 {
        return false;
    }
    let l = trim_chars(line);
    chars_equal(l.as_slice(), p.as_slice())
}

/// The position of the first rule the line matches, computed.
fn find_rule(line: &[char], rules: &[PageBreakRule]) -> (r: Option<BreakPosition>)
    ensures
        r == first_match(line@, rules@),
{
    let mut i: usize = 0;
    assert(rules@.skip(0) =~= rules@);
    while i < rules.len()
        invariant
            i <= rules@.len(),
            first_match(line@, rules@) == first_match(line@, rules@.skip(i as int)),
        decreases rules.len() - i,
    {
        let pat = chars_of(rules[i].pattern.as_str());
        assert(rules@.skip(i as int)[0] == rules@[i as int]);
        if line_matches(line, pat.as_slice()) {
            return Some(rules[i].position);
        }
        assert(rules@.skip(i as int).drop_first() =~= rules@.skip(i + 1));
        i += 1;
    }
    None
}

/// Append `line` and a newline to the last page.
fn push_line_exec(pages: &mut Vec<Vec<char>>, line: &[char])
    ensures
        final(pages).deep_view() == push_line(old(pages).deep_view(), line@),
{
    let ghost old_dv = pages.deep_view();
    match crate::text::pop_seq(pages) {
        Some(mut last) => {
            let mut k: usize = 0;
            let ghost start = last@;
            while k < line.len()
                invariant
                    k <= line@.len(),
                    last@ == start + line@.take(k as int),
                decreases line.len() - k,
            {
                last.push(line[k]);
                assert(line@.take(k + 1) =~= line@.take(k as int).push(line@[k as int]));
                k += 1;
            }
            last.push('\n');
            assert(line@.take(line.len() as int) =~= line@);
            crate::text::push_seq(pages, last);
            assert(pages.deep_view() =~= push_line(old_dv, line@));
        },
        None => {
            assert(old_dv.len() == 0);
        },
    }
}

/// Push an empty page.
fn push_page(pages: &mut Vec<Vec<char>>)
    ensures
        final(pages).deep_view() == old(pages).deep_view().push(Seq::empty()),
{
    let e: Vec<char> = Vec::new();
    assert(e@ =~= Seq::<char>::empty());
    crate::text::push_seq(pages, e);
}

/// Split source text into page chunks at lines matching a rule; blank pages
/// are dropped, leaving one empty page when nothing remains.
pub fn paginate(text: &[char], rules: &[PageBreakRule]) -> (pages: Vec<Vec<char>>)
    ensures
        pages.deep_view() == page_chunks(text@, rules@),
{
    let ls = split_lines(text);
    let ghost lsv = ls.deep_view();
    let mut pages: Vec<Vec<char>> = Vec::new();
    push_page(&mut pages);
    assert(pages.deep_view() =~= raw_pages(lsv.take(0), rules@));
    let mut i: usize = 0;
    while i < ls.len()
        invariant
            i <= ls@.len(),
            lsv == ls.deep_view(),
            lsv == lines(text@),
            pages.deep_view() == raw_pages(lsv.take(i as int), rules@),
        decreases ls.len() - i,
    {
        let line = ls[i].as_slice();
        assert(lsv[i as int] == line@);
        match find_rule(line, rules) {
            Some(BreakPosition::Replace) => {
                push_page(&mut pages);
            },
            Some(BreakPosition::Before) => {
                push_page(&mut pages);
                push_line_exec(&mut pages, line);
            },
            Some(BreakPosition::After) => {
                push_line_exec(&mut pages, line);
                push_page(&mut pages);
            },
            None => {
                push_line_exec(&mut pages, line);
            },
        }
        assert(lsv.take(i + 1).drop_last() =~= lsv.take(i as int));
        i += 1;
    }
    assert(lsv.take(ls.len() as int) =~= lsv);
    let ghost all = pages.deep_view();
    let mut out: Vec<Vec<char>> = Vec::new();
    let mut j: usize = 0;
    while j < pages.len()
        invariant
            j <= pages@.len(),
            all == pages.deep_view(),
            out.deep_view() == non_blank(all.take(j as int)),
        decreases pages.len() - j,
    {
        assert(all.take(j + 1).drop_last() =~= all.take(j as int));
        assert(all[j as int] == pages@[j as int]@);
        let p = pages[j].clone();
        assert(p@ == all[j as int]);
        if count_lead_ws(p.as_slice()) != p.len() {
            crate::text::push_seq(&mut out, p);
        }
        j += 1;
    }
    assert(all.take(pages.len() as int) =~= all);
    if out.len() == 0 {
        let mut one: Vec<Vec<char>> = Vec::new();
        push_page(&mut one);
        assert(one.deep_view() =~= seq![Seq::<char>::empty()]);
        return one;
    }
    out
}

} // verus!
