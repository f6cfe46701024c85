//! Character-level helpers shared by the importers: building strings,
//! reading them back as characters, and the whitespace classes that `str`'s
//! trimming and line splitting use.
use vstd::prelude::*;

verus! {

/// Append one character to a `String` (`String::push`).
#[verifier::external_body]
pub fn push_char(s: &mut String, c: char)
    ensures
        final(s)@ == old(s)@.push(c),
{
    s.push(c);
}

/// The characters of `s`, in order.
pub fn chars_of(s: &str) -> (v: Vec<char>)
    ensures
        v@ == s@,
{
    let mut v: Vec<char> = Vec::new();
    for c in it: s.chars()
        invariant
            v@ == it.seq().take(it.index() as int),
            it.seq() == s@,
    {
        assert(it.seq().take(it.index() + 1) =~= it.seq().take(it.index() as int).push(c));
        v.push(c);
    }
    v
}

/// A `String` holding exactly the characters of `v`.
pub fn string_of(v: &[char]) -> (s: String)
    ensures
        s@ == v@,
{
    let mut s = String::new();
    let mut i: usize = 0;
    while i < v.len()
        invariant
            i <= v.len(),
            s@ == v@.take(i as int),
        decreases v.len() - i,
    {
        push_char(&mut s, v[i]);
        assert(v@.take(i + 1) =~= v@.take(i as int).push(v[i as int]));
        i += 1;
    }
    assert(v@.take(v.len() as int) =~= v@);
    s
}

/// Append every character of `t` to `s`.
pub fn push_chars(s: &mut String, tv: &[char])
    ensures
        final(s)@ == old(s)@ + tv@,
{
    let ghost start = s@;
    let ghost t = tv@;
    let mut i: usize = 0;
    while i < tv.len()
        invariant
            i <= tv.len(),
            tv@ == t,
            s@ == start + t.take(i as int),
        decreases tv.len() - i,
    {
        push_char(s, tv[i]);
        assert(t.take(i + 1) =~= t.take(i as int).push(t[i as int]));
        i += 1;
    }
    assert(t.take(tv.len() as int) =~= t);
}

/// Unicode `White_Space`, the class `char::is_whitespace` tests.
pub open spec fn is_ws(c: char) -> bool {
    let u = c as u32;
    ||| 0x09 <= u <= 0x0D
    ||| u == 0x20
    ||| u == 0x85
    ||| u == 0xA0
    ||| u == 0x1680
    ||| 0x2000 <= u <= 0x200A
    ||| u == 0x2028
    ||| u == 0x2029
    ||| u == 0x202F
    ||| u == 0x205F
    ||| u == 0x3000
}

/// `char::is_whitespace`.
pub fn is_whitespace(c: char) -> (b: bool)
    ensures
        b == is_ws(c),
{
    let u = c as u32;
    (0x09 <= u && u <= 0x0D) || u == 0x20 || u == 0x85 || u == 0xA0 || u == 0x1680 || (0x2000
        <= u && u <= 0x200A) || u == 0x2028 || u == 0x2029 || u == 0x202F || u == 0x205F || u
        == 0x3000
}

/// Index of the first non-whitespace character (or the length).
pub open spec fn lead_ws(s: Seq<char>) -> nat
    decreases s.len(),
{
    if s.len() > 0 && is_ws(s[0]) {
        1 + lead_ws(s.drop_first())
    } else {
        0
    }
}

/// Number of trailing whitespace characters.
pub open spec fn trail_ws(s: Seq<char>) -> nat
    decreases s.len(),
{
    if s.len() > 0 && is_ws(s.last()) {
        1 + trail_ws(s.drop_last())
    } else {
        0
    }
}

/// `str::trim_start`.
pub open spec fn trim_start(s: Seq<char>) -> Seq<char> {
    s.skip(lead_ws(s) as int)
}

/// `str::trim_end`.
pub open spec fn trim_end(s: Seq<char>) -> Seq<char> {
    s.take(s.len() - trail_ws(s))
}

/// `str::trim`.
pub open spec fn trim(s: Seq<char>) -> Seq<char> {
    trim_end(trim_start(s))
}

/// Whether `s` holds only whitespace (its trim is empty).
pub open spec fn is_blank(s: Seq<char>) -> bool {
    forall|i: int| 0 <= i < s.len() ==> is_ws(#[trigger] s[i])
}

pub proof fn lemma_lead_ws(s: Seq<char>)
    ensures
        lead_ws(s) <= s.len(),
        forall|i: int| 0 <= i < lead_ws(s) ==> is_ws(#[trigger] s[i]),
        lead_ws(s) < s.len() ==> !is_ws(s[lead_ws(s) as int]),
    decreases s.len(),
{
    if s.len() > 0 && is_ws(s[0]) {
        lemma_lead_ws(s.drop_first());
        assert forall|i: int| 0 <= i < lead_ws(s) implies is_ws(#[trigger] s[i]) by {
            if i > 0 {
                assert(s[i] == s.drop_first()[i - 1]);
            }
        }
    }
}

pub proof fn lemma_trail_ws(s: Seq<char>)
    ensures
        trail_ws(s) <= s.len(),
        forall|i: int| s.len() - trail_ws(s) <= i < s.len() ==> is_ws(#[trigger] s[i]),
        trail_ws(s) < s.len() ==> !is_ws(s[s.len() - trail_ws(s) - 1]),
    decreases s.len(),
{
    if s.len() > 0 && is_ws(s.last()) {
        lemma_trail_ws(s.drop_last());
        assert forall|i: int| s.len() - trail_ws(s) <= i < s.len() implies is_ws(
            #[trigger] s[i],
        ) by {
            if i < s.len() - 1 {
                assert(s[i] == s.drop_last()[i]);
            }
        }
    }
}

/// `lead_ws`, computed.
pub fn count_lead_ws(s: &[char]) -> (n: usize)
    ensures
        n == lead_ws(s@),
{
    let mut i: usize = 0;
    assert(s@.skip(0) =~= s@);
    while i < s.len() && is_whitespace(s[i])
        invariant
            i <= s.len(),
            forall|j: int| 0 <= j < i ==> is_ws(#[trigger] s@[j]),
            lead_ws(s@) == i + lead_ws(s@.skip(i as int)),
        decreases s.len() - i,
    {
        assert(s@.skip(i as int).drop_first() =~= s@.skip(i + 1));
        i += 1;
    }
    i
}

/// `trail_ws`, computed.
pub fn count_trail_ws(s: &[char]) -> (n: usize)
    ensures
        n == trail_ws(s@),
{
    let mut k: usize = 0;
    assert(s@.take(s.len() as int) =~= s@);
    while k < s.len() && is_whitespace(s[s.len() - 1 - k])
        invariant
            k <= s.len(),
            trail_ws(s@) == k + trail_ws(s@.take(s.len() - k)),
        decreases s.len() - k,
    {
        assert(s@.take(s.len() - k).drop_last() =~= s@.take(s.len() - k - 1));
        k += 1;
    }
    k
}

/// `str::trim`, computed on characters.
pub fn trim_chars(s: &[char]) -> (t: Vec<char>)
    ensures
        t@ == trim(s@),
{
    let a = count_lead_ws(s);
    proof {
        lemma_lead_ws(s@);
    }
    let rest = slice_skip(s, a);
    let b = count_trail_ws(rest.as_slice());
    proof {
        lemma_trail_ws(rest@);
    }
    slice_take(rest.as_slice(), rest.len() - b)
}

/// A copy of `s` without its first `n` elements.
pub fn slice_skip<T: Copy>(s: &[T], n: usize) -> (v: Vec<T>)
    requires
        n <= s.len(),
    ensures
        v@ == s@.skip(n as int),
{
    let mut v: Vec<T> = Vec::new();
    let mut i: usize = n;
    while i < s.len()
        invariant
            n <= i <= s.len(),
            v@ == s@.subrange(n as int, i as int),
        decreases s.len() - i,
    {
        v.push(s[i]);
        assert(s@.subrange(n as int, i + 1) =~= s@.subrange(n as int, i as int).push(s@[i as int]));
        i += 1;
    }
    assert(s@.subrange(n as int, s.len() as int) =~= s@.skip(n as int));
    v
}

/// A copy of the first `n` elements of `s`.
pub fn slice_take<T: Copy>(s: &[T], n: usize) -> (v: Vec<T>)
    requires
        n <= s.len(),
    ensures
        v@ == s@.take(n as int),
{
    let mut v: Vec<T> = Vec::new();
    let mut i: usize = 0;
    while i < n
        invariant
            i <= n <= s.len(),
            v@ == s@.take(i as int),
        decreases n - i,
    {
        v.push(s[i]);
        assert(s@.take(i + 1) =~= s@.take(i as int).push(s@[i as int]));
        i += 1;
    }
    v
}

} // verus!

verus! {

/// The decimal digit character for `d < 10`.
pub open spec fn digit_char(d: nat) -> char {
    (48 + d) as char
}

/// The decimal spelling of `n`, without leading zeros.
pub open spec fn decimal(n: nat) -> Seq<char>
    decreases n,
{
    if n < 10 {
        seq![digit_char(n)]
    } else {
        decimal(n / 10).push(digit_char(n % 10))
    }
}

/// Append the decimal spelling of `n`.
pub fn push_decimal(s: &mut String, n: usize)
    ensures
        final(s)@ == old(s)@ + decimal(n as nat),
    decreases n,
{
    if n >= 10 {
        push_decimal(s, n / 10);
    }
    let d = (n % 10) as u8;
    push_char(s, (48u8 + d) as char);
    proof {
        if n >= 10 {
            assert(old(s)@ + decimal(n as nat) =~= old(s)@ + decimal((n / 10) as nat) + seq![
                digit_char((n % 10) as nat),
            ]);
        } else {
            assert(old(s)@ + decimal(n as nat) =~= old(s)@.push(digit_char(n as nat)));
        }
    }
}

} // verus!

verus! {

/// The hexadecimal digit for `d < 16`, upper- or lower-case.
pub open spec fn hex_digit(d: nat, upper: bool) -> char {
    if d < 10 {
        (48 + d) as char
    } else if upper {
        (55 + d) as char
    } else {
        (87 + d) as char
    }
}

/// The last `width` hexadecimal digits of `v`, most significant first
/// (zero-padded; `{:0width$X}` / `{:0width$x}` for values that fit).
pub open spec fn hex_digits(v: nat, width: nat, upper: bool) -> Seq<char>
    decreases width,
{
    if width == 0 {
        Seq::empty()
    } else {
        hex_digits(v / 16, (width - 1) as nat, upper).push(hex_digit(v % 16, upper))
    }
}

/// The hexadecimal digit of `d < 16`, computed.
pub fn hex_digit_char(d: u64, upper: bool) -> (c: char)
    requires
        d < 16,
    ensures
        c == hex_digit(d as nat, upper),
{
    let b: u8 = if d < 10 {
        48 + d as u8
    } else if upper {
        55 + d as u8
    } else {
        87 + d as u8
    };
    b as char
}

/// Append the last `width` hexadecimal digits of `v`.
pub fn push_hex(s: &mut String, v: u64, width: usize, upper: bool)
    ensures
        final(s)@ == old(s)@ + hex_digits(v as nat, width as nat, upper),
    decreases width,
{
    if width > 0 {
        push_hex(s, v / 16, width - 1, upper);
        push_char(s, hex_digit_char(v % 16, upper));
        assert(old(s)@ + hex_digits(v as nat, width as nat, upper) =~= old(s)@ + hex_digits(
            (v / 16) as nat,
            (width - 1) as nat,
            upper,
        ) + seq![hex_digit((v % 16) as nat, upper)]);
    } else {
        assert(old(s)@ + hex_digits(v as nat, 0, upper) =~= old(s)@);
    }
}

} // verus!

verus! {

/// Index of the first `'\n'` in `s`, or its length.
pub open spec fn first_newline(s: Seq<char>) -> nat
    decreases s.len(),
{
    if s.len() == 0 {
        0
    } else if s[0] == '\n' {
        0
    } else {
        1 + first_newline(s.drop_first())
    }
}

/// A line without its `'\r'` when one ends it.
pub open spec fn strip_cr(l: Seq<char>) -> Seq<char> {
    if l.len() > 0 && l.last() == '\r' {
        l.drop_last()
    } else {
        l
    }
}

/// `str::lines`: split at `'\n'` (dropping a `'\r'` just before it); the final
/// line ending is optional, so no empty last line follows it.
pub open spec fn lines(s: Seq<char>) -> Seq<Seq<char>>
    decreases s.len(),
{
    if s.len() == 0 {
        Seq::empty()
    } else {
        let k = first_newline(s);
        if k >= s.len() {
            seq![s]
        } else {
            seq![strip_cr(s.take(k as int))] + lines(s.skip(k as int + 1))
        }
    }
}

/// Split `s` into its lines (see [`lines`]).
pub fn split_lines(s: &[char]) -> (out: Vec<Vec<char>>)
    ensures
        out.deep_view() == lines(s@),
{
    let mut out: Vec<Vec<char>> = Vec::new();
    let mut pos: usize = 0;
    assert(s@.skip(0) =~= s@);
    while pos < s.len()
        invariant
            pos <= s@.len(),
            out.deep_view() + lines(s@.skip(pos as int)) == lines(s@),
        decreases s.len() - pos,
    {
        let ghost rest = s@.skip(pos as int);
        let mut end: usize = pos;
        while end < s.len() && s[end] != '\n'
            invariant
                pos <= end <= s@.len(),
                first_newline(rest) == (end - pos) + first_newline(s@.skip(end as int)),
            decreases s.len() - end,
        {
            assert(s@.skip(end as int).drop_first() =~= s@.skip(end + 1));
            end += 1;
        }
        proof {
            if end == s.len() {
                assert(s@.skip(end as int).len() == 0);
            }
        }
        let mut line = slice_range(s, pos, end);
        assert(line@ =~= rest.take((end - pos) as int));
        if line.len() > 0 && line[line.len() - 1] == '\r' && end < s.len() {
            line.pop();
        }
        let ghost before = out.deep_view();
        let ghost old_out = out@;
        assert(line.deep_view() =~= line@);
        out.push(line);
        proof {
            assert(out@ == old_out.push(line));
            assert forall|k: int| 0 <= k < out@.len() implies #[trigger] out.deep_view()[k] == before.push(line@)[k] by {
                if k < old_out.len() {
                    assert(out@[k] == old_out[k]);
                }
            }
            assert(out.deep_view() =~= before.push(line@));
            if end < s.len() {
                assert(rest.skip(first_newline(rest) as int + 1) =~= s@.skip(end + 1));
                assert(lines(rest) =~= seq![line@] + lines(s@.skip(end + 1)));
            } else {
                assert(rest.take((end - pos) as int) =~= rest);
                assert(lines(rest) =~= seq![line@]);
                assert(s@.skip(end as int).len() == 0);
                assert(lines(s@.skip(end as int)) =~= Seq::<Seq<char>>::empty());
            }
        }
        pos = if end < s.len() {
            end + 1
        } else {
            end
        };
        assert(out.deep_view() + lines(s@.skip(pos as int)) =~= before + lines(rest));
    }
    assert(lines(s@.skip(pos as int)) =~= Seq::<Seq<char>>::empty());
    assert(out.deep_view() + Seq::<Seq<char>>::empty() =~= out.deep_view());
    out
}

/// A copy of `s[from..to]`.
pub fn slice_range<T: Copy>(s: &[T], from: usize, to: usize) -> (v: Vec<T>)
    requires
        from <= to <= s.len(),
    ensures
        v@ == s@.subrange(from as int, to as int),
{
    let mut v: Vec<T> = Vec::new();
    let mut i: usize = from;
    while i < to
        invariant
            from <= i <= to <= s.len(),
            v@ == s@.subrange(from as int, i as int),
        decreases to - i,
    {
        v.push(s[i]);
        assert(s@.subrange(from as int, i + 1) =~= s@.subrange(from as int, i as int).push(
            s@[i as int],
        ));
        i += 1;
    }
    v
}

} // verus!

verus! {

/// Whether `pat` occurs in `s` at `pos`.
pub open spec fn occurs_at(s: Seq<char>, pos: int, pat: Seq<char>) -> bool {
    pos + pat.len() <= s.len() && s.subrange(pos, pos + pat.len()) == pat
}

/// Whether `pat` occurs in `s` at `pos`, computed.
pub fn matches_at(s: &[char], pos: usize, pat: &[char]) -> (b: bool)
    requires
        pos <= s.len(),
    ensures
        b == occurs_at(s@, pos as int, pat@),
{
    if pat.len() > s.len() - pos {
        return false;
    }
    let mut k: usize = 0;
    while k < pat.len()
        invariant
            k <= pat@.len(),
            pos <= s@.len(),
            s@.len() == s.len(),
            pos + pat@.len() <= s@.len(),
            forall|j: int| 0 <= j < k ==> s@[pos + j] == pat@[j],
        decreases pat.len() - k,
    {
        if s[pos + k] != pat[k] {
            assert(s@.subrange(pos as int, pos + pat@.len())[k as int] != pat@[k as int]);
            return false;
        }
        k += 1;
    }
    assert(s@.subrange(pos as int, pos + pat@.len()) =~= pat@);
    true
}

/// Whether two character sequences are equal, computed.
pub fn chars_equal(a: &[char], b: &[char]) -> (r: bool)
    ensures
        r == (a@ == b@),
{
    if a.len() != b.len() {
        return false;
    }
    let r = matches_at(a, 0, b);
    assert(a@.subrange(0, b@.len() as int) =~= a@);
    r
}

/// `str::replace` with a non-empty pattern: every leftmost non-overlapping
/// occurrence of `pat` replaced by `rep`.
pub open spec fn replace_all(s: Seq<char>, pat: Seq<char>, rep: Seq<char>) -> Seq<char>
    recommends
        pat.len() > 0,
    decreases s.len(),
{
    if s.len() == 0 {
        Seq::empty()
    } else if pat.len() > 0 && occurs_at(s, 0, pat) {
        rep + replace_all(s.skip(pat.len() as int), pat, rep)
    } else {
        seq![s[0]] + replace_all(s.drop_first(), pat, rep)
    }
}

/// Replace every leftmost non-overlapping occurrence of `pat` by `rep`.
pub fn replace_chars(s: &[char], pat: &[char], rep: &[char]) -> (out: Vec<char>)
    requires
        pat@.len() > 0,
    ensures
        out@ == replace_all(s@, pat@, rep@),
{
    let mut out: Vec<char> = Vec::new();
    let mut pos: usize = 0;
    assert(s@.skip(0) =~= s@);
    while pos < s.len()
        invariant
            pos <= s@.len(),
            pat@.len() > 0,
            out@ + replace_all(s@.skip(pos as int), pat@, rep@) == replace_all(s@, pat@, rep@),
        decreases s.len() - pos,
    {
        let ghost rest = s@.skip(pos as int);
        let ghost before = out@;
        if matches_at(s, pos, pat) {
            assert(rest.subrange(0, pat@.len() as int) =~= s@.subrange(
                pos as int,
                pos + pat@.len(),
            ));
            let mut k: usize = 0;
            while k < rep.len()
                invariant
                    k <= rep@.len(),
                    out@ == before + rep@.take(k as int),
                decreases rep.len() - k,
            {
                out.push(rep[k]);
                assert(rep@.take(k + 1) =~= rep@.take(k as int).push(rep@[k as int]));
                k += 1;
            }
            assert(rep@.take(rep.len() as int) =~= rep@);
            assert(rest.skip(pat@.len() as int) =~= s@.skip(pos + pat@.len()));
            pos = pos + pat.len();
        } else {
            assert(!occurs_at(rest, 0, pat@)) by {
                if pos + pat@.len() <= s@.len() {
                    assert(rest.subrange(0, pat@.len() as int) =~= s@.subrange(
                        pos as int,
                        pos + pat@.len(),
                    ));
                }
            }
            out.push(s[pos]);
            assert(rest.drop_first() =~= s@.skip(pos + 1));
            pos = pos + 1;
        }
        assert(out@ + replace_all(s@.skip(pos as int), pat@, rep@) =~= before + replace_all(
            rest,
            pat@,
            rep@,
        ));
    }
    assert(replace_all(s@.skip(pos as int), pat@, rep@) =~= Seq::<char>::empty());
    assert(out@ + Seq::<char>::empty() =~= out@);
    out
}

} // verus!

verus! {

/// Push `x` onto a vector of character vectors.
pub fn push_seq(v: &mut Vec<Vec<char>>, x: Vec<char>)
    ensures
        final(v).deep_view() == old(v).deep_view().push(x@),
{
    let ghost old_v = v@;
    let ghost old_dv = v.deep_view();
    let ghost xv = x@;
    assert(x.deep_view() =~= x@);
    v.push(x);
    assert(v@ == old_v.push(x));
    assert forall|k: int| 0 <= k < v@.len() implies #[trigger] v.deep_view()[k] == old_dv.push(
        xv,
    )[k] by {
        if k < old_v.len() {
            assert(v@[k] == old_v[k]);
        }
    }
    assert(v.deep_view() =~= old_dv.push(xv));
}

/// Pop the last element of a vector of character vectors.
pub fn pop_seq(v: &mut Vec<Vec<char>>) -> (x: Option<Vec<char>>)
    ensures
        old(v)@.len() == 0 ==> x is None && final(v)@.len() == 0,
        old(v)@.len() > 0 ==> (x matches Some(x) && x@ == old(v).deep_view().last()
            && final(v).deep_view() == old(v).deep_view().drop_last()),
{
    let ghost old_v = v@;
    let ghost old_dv = v.deep_view();
    let x = v.pop();
    proof {
        if old_v.len() > 0 {
            assert(v@ == old_v.drop_last());
            assert forall|k: int| 0 <= k < v@.len() implies #[trigger] v.deep_view()[k]
                == old_dv.drop_last()[k] by {
                assert(v@[k] == old_v[k]);
            }
            assert(v.deep_view() =~= old_dv.drop_last());
        }
    }
    x
}

} // verus!

verus! {

/// Append the decimal spelling of a `u64`.
pub fn push_decimal_u64(s: &mut String, n: u64)
    ensures
        final(s)@ == old(s)@ + decimal(n as nat),
    decreases n,
{
    if n >= 10 {
        push_decimal_u64(s, n / 10);
    }
    let d = (n % 10) as u8;
    push_char(s, (48u8 + d) as char);
    proof {
        if n >= 10 {
            assert(old(s)@ + decimal(n as nat) =~= old(s)@ + decimal((n / 10) as nat) + seq![
                digit_char((n % 10) as nat),
            ]);
        } else {
            assert(old(s)@ + decimal(n as nat) =~= old(s)@.push(digit_char(n as nat)));
        }
    }
}

/// `n` copies of `c`.
pub open spec fn repeat_char(c: char, n: nat) -> Seq<char> {
    Seq::new(n, |i: int| c)
}

/// Append `n` copies of `c`.
pub fn push_repeat(s: &mut String, c: char, n: usize)
    ensures
        final(s)@ == old(s)@ + repeat_char(c, n as nat),
{
    let ghost start = s@;
    let mut i: usize = 0;
    while i < n
        invariant
            i <= n,
            s@ == start + repeat_char(c, i as nat),
        decreases n - i,
    {
        push_char(s, c);
        assert(repeat_char(c, (i + 1) as nat) =~= repeat_char(c, i as nat).push(c));
        i += 1;
    }
}

} // verus!
