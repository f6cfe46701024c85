//! Basic HTML to text: tags are dropped (block-level ones become blank
//! lines) and common entities are decoded.
use vstd::prelude::*;

use crate::text::{chars_equal, replace_all, replace_chars};

verus! {

/// Index of the first `'>'` in `s`, or its length.
pub open spec fn tag_end(s: Seq<char>) -> nat
    decreases s.len(),
{
    if s.len() == 0 || s[0] == '>' {
        0
    } else {
        1 + tag_end(s.drop_first())
    }
}

/// Number of leading `'/'` characters.
pub open spec fn slash_run(s: Seq<char>) -> nat
    decreases s.len(),
{
    if s.len() > 0 && s[0] == '/' {
        1 + slash_run(s.drop_first())
    } else {
        0
    }
}

/// Whether `c` is an ASCII letter or digit.
pub open spec fn is_ascii_alnum(c: char) -> bool {
    ('0' <= c <= '9') || ('a' <= c <= 'z') || ('A' <= c <= 'Z')
}

/// `c` with ASCII upper-case letters lowered.
pub open spec fn ascii_lower(c: char) -> char {
    if 'A' <= c <= 'Z' {
        ((c as u32) + 32) as char
    } else {
        c
    }
}

/// The lower-cased leading ASCII-alphanumeric run of `s`.
pub open spec fn alnum_lower(s: Seq<char>) -> Seq<char>
    decreases s.len(),
{
    if s.len() > 0 && is_ascii_alnum(s[0]) {
        seq![ascii_lower(s[0])] + alnum_lower(s.drop_first())
    } else {
        Seq::empty()
    }
}

/// The element name of a tag's inner text (`/p class=x` gives `p`).
pub open spec fn tag_name(tag: Seq<char>) -> Seq<char> {
    alnum_lower(tag.skip(slash_run(tag) as int))
}

/// Block-level element names: their tags become blank lines.
pub open spec fn is_block_name(n: Seq<char>) -> bool {
    ||| n == seq!['p']
    ||| n == seq!['d', 'i', 'v']
    ||| n == seq!['b', 'r']
    ||| n == seq!['h', '1']
    ||| n == seq!['h', '2']
    ||| n == seq!['h', '3']
    ||| n == seq!['h', '4']
    ||| n == seq!['h', '5']
    ||| n == seq!['h', '6']
    ||| n == seq!['l', 'i']
    ||| n == seq!['u', 'l']
    ||| n == seq!['o', 'l']
    ||| n == seq!['b', 'l', 'o', 'c', 'k', 'q', 'u', 'o', 't', 'e']
    ||| n == seq!['s', 'e', 'c', 't', 'i', 'o', 'n']
    ||| n == seq!['a', 'r', 't', 'i', 'c', 'l', 'e']
    ||| n == seq!['h', 'e', 'a', 'd', 'e', 'r']
    ||| n == seq!['f', 'o', 'o', 't', 'e', 'r']
    ||| n == seq!['p', 'r', 'e']
    ||| n == seq!['t', 'a', 'b', 'l', 'e']
    ||| n == seq!['t', 'r']
}

/// `html` with tags removed (block-level tags become `"\n\n"`), before
/// entity decoding. A `<` without a closing `>` swallows the rest.
pub open spec fn strip_tags(html: Seq<char>) -> Seq<char>
    decreases html.len(),
{
    if html.len() == 0 {
        Seq::empty()
    } else if html[0] == '<' {
        let rest = html.drop_first();
        let k = tag_end(rest);
        let after = if k < rest.len() {
            rest.skip(k as int + 1)
        } else {
            Seq::empty()
        };
        let gap = if is_block_name(tag_name(rest.take(k as int))) {
            seq!['\n', '\n']
        } else {
            Seq::empty()
        };
        gap + strip_tags(after)
    } else {
        seq![html[0]] + strip_tags(html.drop_first())
    }
}

/// Lower-case ASCII letters and digits, at least one: how element names are
/// written in the tag lists.
pub open spec fn lower_word(n: Seq<char>) -> bool {
    &&& n.len() > 0
    &&& forall|i: int| 0 <= i < n.len() ==> ('a' <= #[trigger] n[i] <= 'z' || '0' <= n[i] <= '9')
}

/// Text without `<` passes through tag stripping unchanged.
proof fn lemma_strip_plain_prefix(x: Seq<char>, y: Seq<char>)
    requires
        !x.contains('<'),
    ensures
        strip_tags(x + y) == x + strip_tags(y),
    decreases x.len(),
{
    if x.len() > 0 {
        assert(x[0] != '<') by {
            if x[0] == '<' {
                assert(x.contains('<'));
            }
        }
        let x1 = x.drop_first();
        assert(!x1.contains('<')) by {
            if x1.contains('<') {
                let k = choose|k: int| 0 <= k < x1.len() && x1[k] == '<';
                assert(x[k + 1] == '<');
            }
        }
        lemma_strip_plain_prefix(x1, y);
        assert((x + y).drop_first() =~= x1 + y);
        assert(seq![x[0]] + (x1 + y) =~= x + y);
        assert(seq![x[0]] + x1 =~= x);
        assert(seq![x[0]] + (x1 + strip_tags(y)) =~= x + strip_tags(y));
    } else {
        assert(x + y =~= y);
        assert(x + strip_tags(y) =~= strip_tags(y));
    }
}

proof fn lemma_tag_end_word(n: Seq<char>, rest: Seq<char>)
    requires
        !n.contains('>'),
    ensures
        tag_end(n + seq!['>'] + rest) == n.len(),
    decreases n.len(),
{
    if n.len() > 0 {
        assert(n[0] != '>') by {
            if n[0] == '>' {
                assert(n.contains('>'));
            }
        }
        let n1 = n.drop_first();
        assert(!n1.contains('>')) by {
            if n1.contains('>') {
                let k = choose|k: int| 0 <= k < n1.len() && n1[k] == '>';
                assert(n[k + 1] == '>');
            }
        }
        lemma_tag_end_word(n1, rest);
        assert((n + seq!['>'] + rest).drop_first() =~= n1 + seq!['>'] + rest);
    } else {
        assert((n + seq!['>'] + rest)[0] == '>');
    }
}

proof fn lemma_alnum_lower_word(n: Seq<char>)
    requires
        forall|i: int| 0 <= i < n.len() ==> ('a' <= #[trigger] n[i] <= 'z' || '0' <= n[i] <= '9'),
    ensures
        alnum_lower(n) == n,
    decreases n.len(),
{
    if n.len() > 0 {
        let n1 = n.drop_first();
        assert forall|i: int| 0 <= i < n1.len() implies ('a' <= #[trigger] n1[i] <= 'z' || '0' <= n1[i]
            <= '9') by {
            assert(n1[i] == n[i + 1]);
        }
        lemma_alnum_lower_word(n1);
        assert(n[0] == n[0]);
        assert(seq![n[0]] + n1 =~= n);
    }
}

/// `<name>x</name>` for a lower-case element name and text `x` without tags:
/// the tags become blank lines around `x` when the name is a block name, and
/// vanish otherwise.
proof fn lemma_strip_element(name: Seq<char>, x: Seq<char>)
    requires
        lower_word(name),
        !x.contains('<'),
    ensures
        strip_tags(seq!['<'] + name + seq!['>'] + x + seq!['<', '/'] + name + seq!['>']) == if is_block_name(
            name,
        ) {
            seq!['\n', '\n'] + x + seq!['\n', '\n']
        } else {
            x
        },
{
    let gap: Seq<char> = if is_block_name(name) {
        seq!['\n', '\n']
    } else {
        Seq::empty()
    };
    assert(!name.contains('>')) by {
        if name.contains('>') {
            let k = choose|k: int| 0 <= k < name.len() && name[k] == '>';
            assert('a' <= name[k] <= 'z' || '0' <= name[k] <= '9');
        }
    }
    lemma_alnum_lower_word(name);
    // The closing tag.
    let close = seq!['<', '/'] + name + seq!['>'];
    let crest = close.drop_first();
    assert(crest =~= (seq!['/'] + name) + seq!['>'] + Seq::<char>::empty());
    assert(!(seq!['/'] + name).contains('>')) by {
        if (seq!['/'] + name).contains('>') {
            let k = choose|k: int| 0 <= k < name.len() + 1 && (seq!['/'] + name)[k] == '>';
            assert(k > 0);
            assert(name[k - 1] == '>');
        }
    }
    lemma_tag_end_word(seq!['/'] + name, Seq::<char>::empty());
    let ctag = crest.take(name.len() as int + 1);
    assert(ctag =~= seq!['/'] + name);
    assert(name[0] != '/');
    assert(slash_run(ctag.drop_first()) == 0);
    assert(ctag.drop_first() =~= name);
    assert(slash_run(ctag) == 1);
    assert(ctag.skip(1) =~= name);
    assert(crest.skip(name.len() as int + 2) =~= Seq::<char>::empty());
    assert(strip_tags(close) == gap + strip_tags(Seq::<char>::empty()));
    assert(strip_tags(close) =~= gap);
    // The opening tag.
    let tail = x + close;
    let html = seq!['<'] + name + seq!['>'] + x + seq!['<', '/'] + name + seq!['>'];
    assert(html =~= seq!['<'] + (name + seq!['>'] + tail));
    let orest = html.drop_first();
    assert(orest =~= name + seq!['>'] + tail);
    lemma_tag_end_word(name, tail);
    assert(orest.take(name.len() as int) =~= name);
    assert(slash_run(name) == 0);
    assert(name.skip(0) =~= name);
    assert(orest.skip(name.len() as int + 1) =~= tail);
    lemma_strip_plain_prefix(x, close);
    assert(strip_tags(html) == gap + strip_tags(tail));
    if is_block_name(name) {
        assert(gap + (x + gap) =~= seq!['\n', '\n'] + x + seq!['\n', '\n']);
    } else {
        assert(gap + (x + gap) =~= x);
    }
}

/// Every block-level element of HTML's usual set (`p`, `div`, `br`, `h1` to
/// `h6`, `li`, `ul`, `ol`, `blockquote`, `section`, `article`, `header`,
/// `footer`, `pre`, `table`, `tr`) stands apart: `<name>x</name>` around text
/// `x` without tags strips to `x` between blank lines. Any other lower-case
/// element's tags vanish.
pub proof fn lemma_block_elements_break_lines(name: Seq<char>, x: Seq<char>)
    requires
        lower_word(name),
        !x.contains('<'),
    ensures
        ({
            let html = seq!['<'] + name + seq!['>'] + x + seq!['<', '/'] + name + seq!['>'];
            &&& (name == seq!['p'] || name == seq!['d', 'i', 'v'] || name == seq!['b', 'r'] || name
                == seq!['h', '1'] || name == seq!['h', '2'] || name == seq!['h', '3'] || name
                == seq!['h', '4'] || name == seq!['h', '5'] || name == seq!['h', '6'] || name
                == seq!['l', 'i'] || name == seq!['u', 'l'] || name == seq!['o', 'l'] || name
                == seq!['b', 'l', 'o', 'c', 'k', 'q', 'u', 'o', 't', 'e'] || name
                == seq!['s', 'e', 'c', 't', 'i', 'o', 'n'] || name
                == seq!['a', 'r', 't', 'i', 'c', 'l', 'e'] || name
                == seq!['h', 'e', 'a', 'd', 'e', 'r'] || name == seq!['f', 'o', 'o', 't', 'e', 'r']
                || name == seq!['p', 'r', 'e'] || name == seq!['t', 'a', 'b', 'l', 'e'] || name
                == seq!['t', 'r']) ==> strip_tags(html) == seq!['\n', '\n'] + x + seq!['\n', '\n']
            &&& !(name == seq!['p'] || name == seq!['d', 'i', 'v'] || name == seq!['b', 'r'] || name
                == seq!['h', '1'] || name == seq!['h', '2'] || name == seq!['h', '3'] || name
                == seq!['h', '4'] || name == seq!['h', '5'] || name == seq!['h', '6'] || name
                == seq!['l', 'i'] || name == seq!['u', 'l'] || name == seq!['o', 'l'] || name
                == seq!['b', 'l', 'o', 'c', 'k', 'q', 'u', 'o', 't', 'e'] || name
                == seq!['s', 'e', 'c', 't', 'i', 'o', 'n'] || name
                == seq!['a', 'r', 't', 'i', 'c', 'l', 'e'] || name
                == seq!['h', 'e', 'a', 'd', 'e', 'r'] || name == seq!['f', 'o', 'o', 't', 'e', 'r']
                || name == seq!['p', 'r', 'e'] || name == seq!['t', 'a', 'b', 'l', 'e'] || name
                == seq!['t', 'r']) ==> strip_tags(html) == x
        }),
{
    lemma_strip_element(name, x);
}

/// The common entities decoded in order: `&amp;`, `&lt;`, `&gt;`, `&quot;`,
/// `&#39;`, `&apos;`, `&nbsp;`.
pub open spec fn decoded(s: Seq<char>) -> Seq<char> {
    let s1 = replace_all(s, seq!['&', 'a', 'm', 'p', ';'], seq!['&']);
    let s2 = replace_all(s1, seq!['&', 'l', 't', ';'], seq!['<']);
    let s3 = replace_all(s2, seq!['&', 'g', 't', ';'], seq!['>']);
    let s4 = replace_all(s3, seq!['&', 'q', 'u', 'o', 't', ';'], seq!['"']);
    let s5 = replace_all(s4, seq!['&', '#', '3', '9', ';'], seq!['\'']);
    let s6 = replace_all(s5, seq!['&', 'a', 'p', 'o', 's', ';'], seq!['\'']);
    replace_all(s6, seq!['&', 'n', 'b', 's', 'p', ';'], seq![' '])
}

/// The readable text of `html`.
pub open spec fn html_text(html: Seq<char>) -> Seq<char> {
    decoded(strip_tags(html))
}

/// Whether `name` is a block-level element name, computed.
fn block_name(name: &[char]) -> (b: bool)
    ensures
        b == is_block_name(name@),
{
    let r = chars_equal(name, &['p']) || chars_equal(name, &['d', 'i', 'v']) || chars_equal(
        name,
        &['b', 'r'],
    ) || chars_equal(name, &['h', '1']) || chars_equal(name, &['h', '2']) || chars_equal(
        name,
        &['h', '3'],
    ) || chars_equal(name, &['h', '4']) || chars_equal(name, &['h', '5']) || chars_equal(
        name,
        &['h', '6'],
    ) || chars_equal(name, &['l', 'i']) || chars_equal(name, &['u', 'l']) || chars_equal(
        name,
        &['o', 'l'],
    ) || chars_equal(name, &['b', 'l', 'o', 'c', 'k', 'q', 'u', 'o', 't', 'e']) || chars_equal(
        name,
        &['s', 'e', 'c', 't', 'i', 'o', 'n'],
    ) || chars_equal(name, &['a', 'r', 't', 'i', 'c', 'l', 'e']) || chars_equal(
        name,
        &['h', 'e', 'a', 'd', 'e', 'r'],
    ) || chars_equal(name, &['f', 'o', 'o', 't', 'e', 'r']) || chars_equal(
        name,
        &['p', 'r', 'e'],
    ) || chars_equal(name, &['t', 'a', 'b', 'l', 'e']) || chars_equal(name, &['t', 'r']);
    assert(seq!['p'] =~= ['p']@);
    r
}

/// The element name of the tag text `s[from..to]`.
fn element_name(s: &[char], from: usize, to: usize) -> (name: Vec<char>)
    requires
        from <= to <= s@.len(),
    ensures
        name@ == tag_name(s@.subrange(from as int, to as int)),
{
    let ghost tag = s@.subrange(from as int, to as int);
    let mut i: usize = from;
    assert(tag.skip(0) =~= tag);
    while i < to && s[i] == '/'
        invariant
            from <= i <= to <= s@.len(),
            tag == s@.subrange(from as int, to as int),
            slash_run(tag) == (i - from) + slash_run(tag.skip(i - from)),
        decreases to - i,
    {
        assert(tag.skip(i - from).drop_first() =~= tag.skip(i + 1 - from));
        i += 1;
    }
    proof {
        if i < to {
            assert(tag.skip(i - from)[0] == s@[i as int]);
        }
    }
    let ghost body = tag.skip(i - from);
    assert(tag.skip(slash_run(tag) as int) == body);
    let mut name: Vec<char> = Vec::new();
    let start = i;
    assert(body.skip(0) =~= body);
    while i < to && (('0' <= s[i] && s[i] <= '9') || ('a' <= s[i] && s[i] <= 'z') || ('A' <= s[i]
        && s[i] <= 'Z'))
        invariant
            start <= i <= to <= s@.len(),
            body == s@.subrange(start as int, to as int),
            alnum_lower(body) == name@ + alnum_lower(body.skip(i - start)),
        decreases to - i,
    {
        let c = s[i];
        let lc = if 'A' <= c && c <= 'Z' {
            ((c as u32) + 32) as u8 as char
        } else {
            c
        };
        assert(lc == ascii_lower(c));
        assert(body.skip(i - start)[0] == c);
        assert(body.skip(i - start).drop_first() =~= body.skip(i + 1 - start));
        name.push(lc);
        assert(alnum_lower(body) =~= name@ + alnum_lower(body.skip(i + 1 - start)));
        i += 1;
    }
    proof {
        if i < to {
            assert(body.skip(i - start)[0] == s@[i as int]);
        }
    }
    assert(name@ + alnum_lower(body.skip(i - start)) =~= name@);
    name
}

/// Strip HTML tags to readable text: block-level tags become blank lines and
/// common entities are decoded.
pub fn html_to_text(html: &[char]) -> (out: Vec<char>)
    ensures
        out@ == html_text(html@),
{
    let mut out: Vec<char> = Vec::new();
    let mut pos: usize = 0;
    assert(html@.skip(0) =~= html@);
    while pos < html.len()
        invariant
            pos <= html@.len(),
            out@ + strip_tags(html@.skip(pos as int)) == strip_tags(html@),
        decreases html.len() - pos,
    {
        let ghost rest = html@.skip(pos as int);
        let ghost before = out@;
        if html[pos] == '<' {
            let ghost inner = rest.drop_first();
            let mut end = pos + 1;
            assert(inner =~= html@.skip(pos + 1));
            while end < html.len() && html[end] != '>'
                invariant
                    pos + 1 <= end <= html@.len(),
                    inner == html@.skip(pos + 1),
                    tag_end(inner) == (end - pos - 1) + tag_end(html@.skip(end as int)),
                decreases html.len() - end,
            {
                assert(html@.skip(end as int).drop_first() =~= html@.skip(end + 1));
                end += 1;
            }
            assert(inner.take(tag_end(inner) as int) =~= html@.subrange(pos + 1, end as int));
            let name = element_name(html, pos + 1, end);
            if block_name(name.as_slice()) {
                out.push('\n');
                out.push('\n');
            }
            if end < html.len() {
                assert(inner.skip(tag_end(inner) as int + 1) =~= html@.skip(end + 1));
                pos = end + 1;
            } else {
                assert(html@.skip(end as int) =~= Seq::<char>::empty());
                pos = end;
            }
        } else {
            out.push(html[pos]);
            assert(rest.drop_first() =~= html@.skip(pos + 1));
            pos += 1;
        }
        assert(out@ + strip_tags(html@.skip(pos as int)) =~= before + strip_tags(rest));
    }
    assert(strip_tags(html@.skip(pos as int)) =~= Seq::<char>::empty());
    assert(out@ + Seq::<char>::empty() =~= out@);
    decode_entities(out.as_slice())
}

/// Decode the common HTML entities, in the order of [`decoded`].
pub fn decode_entities(s: &[char]) -> (out: Vec<char>)
    ensures
        out@ == decoded(s@),
{
    let s1 = replace_chars(s, &['&', 'a', 'm', 'p', ';'], &['&']);
    let s2 = replace_chars(s1.as_slice(), &['&', 'l', 't', ';'], &['<']);
    let s3 = replace_chars(s2.as_slice(), &['&', 'g', 't', ';'], &['>']);
    let s4 = replace_chars(s3.as_slice(), &['&', 'q', 'u', 'o', 't', ';'], &['"']);
    let s5 = replace_chars(s4.as_slice(), &['&', '#', '3', '9', ';'], &['\'']);
    let s6 = replace_chars(s5.as_slice(), &['&', 'a', 'p', 'o', 's', ';'], &['\'']);
    let out = replace_chars(s6.as_slice(), &['&', 'n', 'b', 's', 'p', ';'], &[' ']);
    assert(['&', 'a', 'm', 'p', ';']@ =~= seq!['&', 'a', 'm', 'p', ';']);
    assert(['&']@ =~= seq!['&']);
    assert(['&', 'l', 't', ';']@ =~= seq!['&', 'l', 't', ';']);
    assert(['<']@ =~= seq!['<']);
    assert(['&', 'g', 't', ';']@ =~= seq!['&', 'g', 't', ';']);
    assert(['>']@ =~= seq!['>']);
    assert(['&', 'q', 'u', 'o', 't', ';']@ =~= seq!['&', 'q', 'u', 'o', 't', ';']);
    assert(['"']@ =~= seq!['"']);
    assert(['&', '#', '3', '9', ';']@ =~= seq!['&', '#', '3', '9', ';']);
    assert(['\'']@ =~= seq!['\'']);
    assert(['&', 'a', 'p', 'o', 's', ';']@ =~= seq!['&', 'a', 'p', 'o', 's', ';']);
    assert(['&', 'n', 'b', 's', 'p', ';']@ =~= seq!['&', 'n', 'b', 's', 'p', ';']);
    assert([' ']@ =~= seq![' ']);
    out
}

} // verus!
