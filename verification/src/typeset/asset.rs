//! Image assets for the importers: each referenced image is fetched once
//! through an [`AssetResolver`] and registered under a stable file name.
use vstd::prelude::*;

use std::collections::hash_map::DefaultHasher;
use std::hash::Hasher;
use vstd::std_specs::hash::DefaultHasherAdditionalSpecFns;
use vstd::string::StringSliceAdditionalSpecFns;

use super::outline::utf8_len;
use crate::text::{chars_of, hex_digits, push_char, push_hex, string_of};

verus! {

/// Where the importers get image bytes from (a local directory, the network,
/// or nowhere).
pub trait AssetResolver {
    /// Whether `r` is an answer the resolver may give when asked for `src`
    /// (any answer, unless a resolver says more).
    open spec fn answers(&self, src: Seq<char>, r: Option<Seq<u8>>) -> bool {
        true
    }

    /// The bytes of the image at `src`, or `None` when it cannot be fetched.
    fn fetch(&self, src: &str) -> (r: Option<Vec<u8>>)
        ensures
            self.answers(src@, bytes_view(r)),
    ;
}

/// The bytes an optional buffer holds, as plain values.
pub open spec fn bytes_view(r: Option<Vec<u8>>) -> Option<Seq<u8>> {
    match r {
        Some(b) => Some(b@),
        None => None,
    }
}

/// A resolver that never finds anything.
pub struct NoAssets;

impl AssetResolver for NoAssets {
    open spec fn answers(&self, src: Seq<char>, r: Option<Seq<u8>>) -> bool {
        r is None
    }

    fn fetch(&self, src: &str) -> (r: Option<Vec<u8>>) {
        None
    }
}

/// `char::is_alphanumeric` of `c` (Unicode alphabetic or numeric).
pub uninterp spec fn char_is_alphanumeric(c: char) -> bool;

/// Whether `c` is an ASCII letter or digit.
pub open spec fn ascii_alnum(c: char) -> bool {
    ('0' <= c <= '9') || ('a' <= c <= 'z') || ('A' <= c <= 'Z')
}

/// Whether `char::is_alphanumeric` holds of `c`: always for ASCII letters and
/// digits, and as Unicode's tables say for the rest.
pub open spec fn alphanumeric(c: char) -> bool {
    ascii_alnum(c) || char_is_alphanumeric(c)
}

/// `char::is_alphanumeric`: the contract names the result, which Unicode's
/// tables decide, and states what the documentation gives for ASCII letters
/// and digits.
#[verifier::external_body]
fn is_alphanumeric(c: char) -> (b: bool)
    ensures
        b == char_is_alphanumeric(c),
        ascii_alnum(c) ==> b,
{
    c.is_alphanumeric()
}

/// Index of the first `'?'` or `'#'`, or the length.
pub open spec fn query_start(s: Seq<char>) -> nat
    decreases s.len(),
{
    if s.len() == 0 || s[0] == '?' || s[0] == '#' {
        0
    } else {
        1 + query_start(s.drop_first())
    }
}

/// Index of the last `c` in `s`.
pub open spec fn last_index(s: Seq<char>, c: char) -> Option<int>
    decreases s.len(),
{
    if s.len() == 0 {
        None
    } else if s.last() == c {
        Some(s.len() - 1)
    } else {
        last_index(s.drop_last(), c)
    }
}

/// `c` with an ASCII upper-case letter lowered (`to_ascii_lowercase`).
pub open spec fn lower_ascii(c: char) -> char {
    if 'A' <= c <= 'Z' {
        ((c as u32) + 32) as char
    } else {
        c
    }
}

/// The extension of a URL or path: the part after the last `.` of its last
/// `/`-segment, ignoring any query or fragment.
pub open spec fn raw_extension(src: Seq<char>) -> Option<Seq<char>> {
    let path = src.take(query_start(src) as int);
    let seg = match last_index(path, '/') {
        Some(i) => path.skip(i + 1),
        None => path,
    };
    match last_index(seg, '.') {
        Some(i) => Some(seg.skip(i + 1)),
        None => None,
    }
}

/// The file extension (with its dot, lower-cased) of a URL or path, `.png`
/// when there is none or it is longer than 5 bytes or not alphanumeric.
pub open spec fn extension_of(src: Seq<char>) -> Seq<char> {
    match raw_extension(src) {
        Some(ext) => if utf8_len(ext) <= 5 && (forall|i: int|
            0 <= i < ext.len() ==> alphanumeric(#[trigger] ext[i])) {
            seq!['.'] + ext.map_values(|c: char| lower_ascii(c))
        } else {
            ".png"@
        },
        None => ".png"@,
    }
}

/// The hash of a source string: `DefaultHasher` fed the UTF-8 bytes and the
/// `0xFF` terminator `str`'s `Hash` writes.
pub open spec fn source_hash(src: Seq<char>) -> u64 {
    DefaultHasher::spec_finish(seq![vstd::utf8::encode_utf8(src), seq![0xffu8]])
}

/// The file name an image source is registered under.
pub open spec fn image_file_name(src: Seq<char>) -> Seq<char> {
    "img-"@ + hex_digits(source_hash(src) as nat, 16, false) + extension_of(src)
}

/// Index of the last `c` in `s[..end]`, computed.
fn find_last(s: &[char], end: usize, c: char) -> (r: Option<usize>)
    requires
        end <= s@.len(),
    ensures
        match last_index(s@.take(end as int), c) {
            Some(i) => r == Some(i as usize),
            None => r is None,
        },
{
    let mut k: usize = end;
    while k > 0
        invariant
            k <= end <= s@.len(),
            last_index(s@.take(end as int), c) == last_index(s@.take(k as int), c),
        decreases k,
    {
        assert(s@.take(k as int).last() == s@[k - 1]);
        if s[k - 1] == c {
            return Some(k - 1);
        }
        assert(s@.take(k as int).drop_last() =~= s@.take(k - 1));
        k -= 1;
    }
    None
}

pub(crate) proof fn lemma_last_index_bound(s: Seq<char>, c: char)
    ensures
        last_index(s, c) matches Some(i) ==> 0 <= i < s.len() && s[i] == c,
    decreases s.len(),
{
    if s.len() > 0 && s.last() != c {
        lemma_last_index_bound(s.drop_last(), c);
    }
}

/// File extension from a URL/path, lower-cased with its dot; `.png` when
/// there is none.
pub fn ext_of(src: &str) -> (ext: String)
    ensures
        ext@ == extension_of(src@),
{
    let s = chars_of(src);
    let mut q: usize = 0;
    assert(src@.skip(0) =~= src@);
    while q < s.len() && s[q] != '?' && s[q] != '#'
        invariant
            q <= s@.len(),
            s@ == src@,
            query_start(src@) == q + query_start(src@.skip(q as int)),
        decreases s.len() - q,
    {
        assert(src@.skip(q as int).drop_first() =~= src@.skip(q + 1));
        q += 1;
    }
    proof {
        if q < s.len() {
            assert(src@.skip(q as int)[0] == s@[q as int]);
        }
    }
    let ghost path = src@.take(q as int);
    proof {
        lemma_last_index_bound(path, '/');
    }
    let seg_start: usize = match find_last(s.as_slice(), q, '/') {
        Some(i) => i + 1,
        None => 0,
    };
    let seg = crate::text::slice_range(s.as_slice(), seg_start, q);
    let ghost segv = match last_index(path, '/') {
        Some(i) => path.skip(i + 1),
        None => path,
    };
    assert(seg@ =~= segv);
    let dot = find_last(seg.as_slice(), seg.len(), '.');
    assert(seg@.take(seg@.len() as int) =~= seg@);
    proof {
        lemma_last_index_bound(seg@, '.');
    }
    match dot {
        Some(d) => {
            let e = crate::text::slice_skip(seg.as_slice(), d + 1);
            let mut bytes: usize = 0;
            let mut ok = true;
            let mut lowered: Vec<char> = Vec::new();
            let mut i: usize = 0;
            while i < e.len()
                invariant
                    i <= e@.len(),
                    bytes <= 5,
                    ok ==> bytes == utf8_len(e@.take(i as int)),
                    !ok ==> utf8_len(e@.take(i as int)) > 5 || exists|j: int|
                        0 <= j < i && !alphanumeric(#[trigger] e@[j]),
                    ok ==> forall|j: int| 0 <= j < i ==> alphanumeric(#[trigger] e@[j]),
                    lowered@ == e@.take(i as int).map_values(|c: char| lower_ascii(c)),
                decreases e.len() - i,
            {
                let c = e[i];
                let w = crate::typeset::outline::char_utf8_len(c);
                assert(e@.take(i + 1).drop_last() =~= e@.take(i as int));
                if ok {
                    if bytes + w > 5 || !is_alphanumeric(c) {
                        ok = false;
                    } else {
                        bytes = bytes + w;
                    }
                } else {
                    proof {
                        lemma_utf8_len_prefix(e@, i as int, i + 1);
                    }
                }
                let lc = if 'A' <= c && c <= 'Z' {
                    ((c as u32) + 32) as u8 as char
                } else {
                    c
                };
                lowered.push(lc);
                assert(lowered@ =~= e@.take(i + 1).map_values(|c: char| lower_ascii(c)));
                i += 1;
            }
            assert(e@.take(e@.len() as int) =~= e@);
            if ok {
                let mut out = String::new();
                push_char(&mut out, '.');
                crate::text::push_chars(&mut out, lowered.as_slice());
                assert(out@ =~= seq!['.'] + e@.map_values(|c: char| lower_ascii(c)));
                out
            } else {
                String::from_str(".png")
            }
        },
        None => String::from_str(".png"),
    }
}

/// UTF-8 length grows along prefixes, by at least a byte per character.
pub(crate) proof fn lemma_utf8_len_prefix(s: Seq<char>, a: int, b: int)
    requires
        0 <= a <= b <= s.len(),
    ensures
        utf8_len(s.take(a)) + (b - a) <= utf8_len(s.take(b)),
    decreases b - a,
{
    if a < b {
        lemma_utf8_len_prefix(s, a, b - 1);
        assert(s.take(b).drop_last() =~= s.take(b - 1));
    }
}

/// Hash an image source with `DefaultHasher`, as `str`'s `Hash` does.
pub fn hash(src: &str) -> (h: u64)
    ensures
        h == source_hash(src@),
{
    let mut hasher = DefaultHasher::new();
    let b = src.as_bytes();
    hasher.write(b);
    let end: [u8; 1] = [0xff];
    hasher.write(&end);
    assert(end@ =~= seq![0xffu8]);
    assert(hasher@ =~= seq![src.spec_bytes(), seq![0xffu8]]);
    hasher.finish()
}

/// The registry as plain values: registered sources with their file names,
/// the files, and the fetch tallies.
pub struct RegistryView {
    pub names: Seq<(Seq<char>, Seq<char>)>,
    pub assets: Seq<(Seq<char>, Seq<u8>)>,
    pub ok: usize,
    pub failed: usize,
}

/// The file name registered for `src`, if any.
pub open spec fn registered(names: Seq<(Seq<char>, Seq<char>)>, src: Seq<char>) -> Option<Seq<char>>
    decreases names.len(),
{
    if names.len() == 0 {
        None
    } else {
        match registered(names.drop_last(), src) {
            Some(n) => Some(n),
            None => if names.last().0 == src {
                Some(names.last().1)
            } else {
                None
            },
        }
    }
}

/// No source occurs twice among the registered names.
pub open spec fn sources_distinct(names: Seq<(Seq<char>, Seq<char>)>) -> bool {
    forall|i: int, j: int| 0 <= i < j < names.len() ==> (#[trigger] names[i]).0 != (#[trigger] names[j]).0
}

/// A source that is not registered occurs nowhere among the names.
proof fn lemma_unregistered_absent(names: Seq<(Seq<char>, Seq<char>)>, src: Seq<char>)
    requires
        registered(names, src) is None,
    ensures
        forall|i: int| 0 <= i < names.len() ==> (#[trigger] names[i]).0 != src,
    decreases names.len(),
{
    if names.len() > 0 {
        lemma_unregistered_absent(names.drop_last(), src);
        assert forall|i: int| 0 <= i < names.len() implies (#[trigger] names[i]).0 != src by {
            if i < names.len() - 1 {
                assert(names[i] == names.drop_last()[i]);
            }
        }
    }
}

/// A file name as a plain value.
pub open spec fn name_view(n: Option<String>) -> Option<Seq<char>> {
    match n {
        Some(s) => Some(s@),
        None => None,
    }
}

/// What one lookup of `src` does to a registry, `fetched` being the fetch's
/// answer: a registered source gives its file name and changes nothing (no
/// fetch is made); otherwise a failed fetch is counted and gives nothing,
/// and fetched bytes are stored under the source's file name, which is
/// given, and counted.
pub open spec fn lookup(v0: RegistryView, src: Seq<char>, fetched: Option<Seq<u8>>) -> (
    RegistryView,
    Option<Seq<char>>,
) {
    match registered(v0.names, src) {
        Some(n) => (v0, Some(n)),
        None => match fetched {
            None => (RegistryView { failed: bump(v0.failed), ..v0 }, None),
            Some(b) => {
                let n = image_file_name(src);
                (
                    RegistryView {
                        names: v0.names.push((src, n)),
                        assets: v0.assets.push((n, b)),
                        ok: bump(v0.ok),
                        failed: v0.failed,
                    },
                    Some(n),
                )
            },
        },
    }
}

/// A count bumped by one, saturating.
pub open spec fn bump(n: usize) -> usize {
    if n < usize::MAX {
        (n + 1) as usize
    } else {
        n
    }
}

/// Collects the named in-memory files an import registers, fetching and
/// de-duplicating images through an [`AssetResolver`].
pub struct AssetRegistry<'r, R: AssetResolver> {
    resolver: &'r R,
    /// Image source -> registered file name, so a repeated image is fetched once.
    names: Vec<(String, String)>,
    assets: Vec<(String, Vec<u8>)>,
    /// Images resolved and registered.
    pub ok: usize,
    /// Images whose source could not be fetched.
    pub failed: usize,
}

impl<'r, R: AssetResolver> AssetRegistry<'r, R> {
    pub closed spec fn view(&self) -> RegistryView {
        RegistryView {
            names: self.names@.map_values(|p: (String, String)| (p.0@, p.1@)),
            assets: self.assets@.map_values(|p: (String, Vec<u8>)| (p.0@, p.1@)),
            ok: self.ok,
            failed: self.failed,
        }
    }

    /// Every registered name is the file name of its source, and no source is
    /// registered twice.
    pub closed spec fn wf(&self) -> bool {
        &&& forall|i: int|
            0 <= i < self.names@.len() ==> #[trigger] self.names@[i].1@ == image_file_name(
                self.names@[i].0@,
            )
        &&& sources_distinct(self.view().names)
    }

    /// A well-formed registry registers each source once.
    pub proof fn lemma_sources_distinct(&self)
        requires
            self.wf(),
        ensures
            sources_distinct(self.view().names),
    {
    }

    /// An empty registry fetching through `resolver`.
    pub fn new(resolver: &'r R) -> (r: Self)
        ensures
            r.wf(),
            r.resolver() == *resolver,
            r.view() == (RegistryView {
                names: Seq::empty(),
                assets: Seq::empty(),
                ok: 0,
                failed: 0,
            }),
    {
        let r = AssetRegistry {
            resolver,
            names: Vec::new(),
            assets: Vec::new(),
            ok: 0,
            failed: 0,
        };
        assert(r.view().names =~= Seq::<(Seq<char>, Seq<char>)>::empty());
        assert(r.view().assets =~= Seq::<(Seq<char>, Seq<u8>)>::empty());
        r
    }

    /// The resolver images are fetched through.
    pub closed spec fn resolver(&self) -> R {
        *self.resolver
    }

    /// Resolve an image source to its registered file name, fetching it once
    /// per source: a registered source is answered from the registry without
    /// fetching; otherwise the fetch's answer is registered (see
    /// [`Self::register_fetched`]).
    pub fn image(&mut self, src: &str) -> (name: Option<String>)
        requires
            old(self).wf(),
        ensures
            final(self).wf(),
            final(self).resolver() == old(self).resolver(),
            name matches Some(s) ==> s@ == image_file_name(src@),
            exists|f: Option<Seq<u8>>|
                #![trigger lookup(old(self).view(), src@, f)]
                (registered(old(self).view().names, src@) is None ==> old(self).resolver().answers(
                    src@,
                    f,
                )) && lookup(old(self).view(), src@, f) == (final(self).view(), name_view(name)),
    {
        let ghost v0 = self.view();
        let key = String::from_str(src);
        let mut i: usize = 0;
        while i < self.names.len()
            invariant
                i <= self.names@.len(),
                v0 == self.view(),
                self.wf(),
                key@ == src@,
                registered(v0.names.take(i as int), src@) is None,
            decreases self.names.len() - i,
        {
            assert(v0.names.take(i + 1).drop_last() =~= v0.names.take(i as int));
            assert(v0.names[i as int] == (self.names@[i as int].0@, self.names@[i as int].1@));
            if self.names[i].0 == key {
                let n = self.names[i].1.clone();
                assert(self.names@[i as int].1@ == image_file_name(src@));
                proof {
                    lemma_registered_prefix(v0.names, i as int + 1);
                    assert(lookup(v0, src@, None) == (self.view(), name_view(Some(n))));
                }
                return Some(n);
            }
            i += 1;
        }
        assert(v0.names.take(self.names.len() as int) =~= v0.names);
        let fetched = self.resolver.fetch(src);
        let name = self.register_fetched(src, fetched);
        assert(lookup(v0, src@, bytes_view(fetched)) == (self.view(), name_view(name)));
        name
    }

    /// Register what fetching a source not yet registered gave: nothing is
    /// registered and one more failure counted when the fetch found nothing;
    /// otherwise the bytes are stored under the source's file name, which is
    /// returned, and one more image counted.
    pub fn register_fetched(&mut self, src: &str, fetched: Option<Vec<u8>>) -> (name: Option<String>)
        requires
            old(self).wf(),
            registered(old(self).view().names, src@) is None,
        ensures
            final(self).wf(),
            final(self).resolver() == old(self).resolver(),
            (final(self).view(), name_view(name)) == lookup(old(self).view(), src@, bytes_view(fetched)),
    {
        let ghost v0 = self.view();
        let bytes = match fetched {
            Some(b) => b,
            None => {
                self.failed = self.failed.saturating_add(1);
                assert(self.view() =~= (RegistryView { failed: bump(v0.failed), ..v0 }));
                return None;
            },
        };
        let ghost bv = bytes@;
        let mut name = String::from_str("img-");
        push_hex(&mut name, hash(src), 16, false);
        let ext = ext_of(src);
        name.append(ext.as_str());
        let key = String::from_str(src);
        let ghost old_names = self.names@;
        let ghost old_assets = self.assets@;
        self.assets.push((name.clone(), bytes));
        self.names.push((key, name.clone()));
        self.ok = self.ok.saturating_add(1);
        proof {
            assert(self.view().names =~= v0.names.push((src@, name@)));
            assert(self.view().assets =~= v0.assets.push((name@, bv)));
            lemma_unregistered_absent(v0.names, src@);
            let nn = self.view().names;
            assert forall|i: int, j: int| 0 <= i < j < nn.len() implies (#[trigger] nn[i]).0 != (
            #[trigger] nn[j]).0 by {
                if j < v0.names.len() {
                    assert(nn[i] == v0.names[i] && nn[j] == v0.names[j]);
                } else {
                    assert(nn[i] == v0.names[i]);
                }
            }
            assert(self.names@.drop_last() == old_names);
            assert forall|k: int| 0 <= k < self.names@.len() implies #[trigger] self.names@[k].1@
                == image_file_name(self.names@[k].0@) by {
                if k < old_names.len() {
                    assert(self.names@[k] == old_names[k]);
                }
            }
        }
        Some(name)
    }

    /// Register a pre-built named file.
    pub fn push(&mut self, name: String, bytes: Vec<u8>)
        requires
            old(self).wf(),
        ensures
            final(self).wf(),
            final(self).resolver() == old(self).resolver(),
            final(self).view() == (RegistryView {
                assets: old(self).view().assets.push((name@, bytes@)),
                ..old(self).view()
            }),
    {
        let ghost v0 = self.view();
        let ghost nv = name@;
        let ghost bv = bytes@;
        self.assets.push((name, bytes));
        assert(self.view().assets =~= v0.assets.push((nv, bv)));
    }

    /// Images resolved and registered so far.
    pub fn ok(&self) -> (n: usize)
        ensures
            n == self.view().ok,
    {
        self.ok
    }

    /// Images whose source could not be fetched so far.
    pub fn failed(&self) -> (n: usize)
        ensures
            n == self.view().failed,
    {
        self.failed
    }

    /// The registered files, consuming the registry.
    pub fn into_assets(self) -> (assets: Vec<(String, Vec<u8>)>)
        ensures
            assets@.map_values(|p: (String, Vec<u8>)| (p.0@, p.1@)) == self.view().assets,
    {
        self.assets
    }
}

/// Fetch once, stable naming: once a lookup of `src` has given a name, every
/// later lookup of `src` gives that name again and changes nothing, whatever a
/// fetch would answer; a lookup that gave no name only counted a failure and
/// left `src` unregistered, so the next lookup of it fetches again.
pub proof fn lemma_lookup_once(
    v0: RegistryView,
    src: Seq<char>,
    fetched: Option<Seq<u8>>,
    again: Option<Seq<u8>>,
)
    ensures
        lookup(v0, src, fetched).1 is Some ==> lookup(lookup(v0, src, fetched).0, src, again)
            == lookup(v0, src, fetched),
        lookup(v0, src, fetched).1 is None ==> registered(lookup(v0, src, fetched).0.names, src)
            is None && lookup(v0, src, fetched).0 == (RegistryView { failed: bump(v0.failed), ..v0 }),
{
    if registered(v0.names, src) is None {
        if let Some(b) = fetched {
            let v1 = lookup(v0, src, fetched).0;
            assert(v1.names.drop_last() =~= v0.names);
        }
    }
}

/// One call on a registry, as plain values: a lookup of an image source with
/// what fetching it answers (asked only when the source is not registered
/// yet), or a push of a named file.
pub enum RegistryCall {
    Image(Seq<char>, Option<Seq<u8>>),
    Push(Seq<char>, Seq<u8>),
}

/// The registry after one call, as [`AssetRegistry::image`] and
/// [`AssetRegistry::push`] state it.
pub open spec fn apply_call(v: RegistryView, c: RegistryCall) -> RegistryView {
    match c {
        RegistryCall::Image(src, fetched) => lookup(v, src, fetched).0,
        RegistryCall::Push(name, bytes) => RegistryView { assets: v.assets.push((name, bytes)), ..v },
    }
}

/// The registry after the calls, in order.
pub open spec fn registry_run(v: RegistryView, calls: Seq<RegistryCall>) -> RegistryView
    decreases calls.len(),
{
    if calls.len() == 0 {
        v
    } else {
        registry_run(apply_call(v, calls[0]), calls.drop_first())
    }
}

/// The sources among registered names.
pub open spec fn registered_sources(names: Seq<(Seq<char>, Seq<char>)>) -> Set<Seq<char>> {
    Set::new(|src: Seq<char>| exists|i: int| 0 <= i < names.len() && names[i].0 == src)
}

/// The files the calls add, in call order: for each image lookup that is the
/// first successful fetch of its source (`seen` holds the sources registered
/// before), the source's file name with the fetched bytes; for each push, its
/// file, duplicates included.
pub open spec fn new_files(calls: Seq<RegistryCall>, seen: Set<Seq<char>>) -> Seq<(Seq<char>, Seq<u8>)>
    decreases calls.len(),
{
    if calls.len() == 0 {
        Seq::empty()
    } else {
        match calls[0] {
            RegistryCall::Image(src, fetched) => if !seen.contains(src) && fetched is Some {
                seq![(image_file_name(src), fetched->0)] + new_files(calls.drop_first(), seen.insert(src))
            } else {
                new_files(calls.drop_first(), seen)
            },
            RegistryCall::Push(name, bytes) => seq![(name, bytes)] + new_files(calls.drop_first(), seen),
        }
    }
}

/// A registered source has an entry among the names.
proof fn lemma_registered_present(names: Seq<(Seq<char>, Seq<char>)>, src: Seq<char>)
    requires
        registered(names, src) is Some,
    ensures
        registered_sources(names).contains(src),
    decreases names.len(),
{
    if registered(names.drop_last(), src) is Some {
        lemma_registered_present(names.drop_last(), src);
        let i = choose|i: int| 0 <= i < names.drop_last().len() && names.drop_last()[i].0 == src;
        assert(names[i] == names.drop_last()[i]);
    } else {
        assert(names[names.len() - 1].0 == src);
    }
}

/// The files after a run of calls: those the registry held, then the new
/// files of the calls.
proof fn lemma_run_files(v: RegistryView, calls: Seq<RegistryCall>)
    ensures
        registry_run(v, calls).assets == v.assets + new_files(calls, registered_sources(v.names)),
    decreases calls.len(),
{
    let seen = registered_sources(v.names);
    if calls.len() == 0 {
        assert(v.assets + Seq::<(Seq<char>, Seq<u8>)>::empty() =~= v.assets);
    } else {
        let rest = calls.drop_first();
        let v1 = apply_call(v, calls[0]);
        lemma_run_files(v1, rest);
        match calls[0] {
            RegistryCall::Push(name, bytes) => {
                assert(registered_sources(v1.names) == seen);
                assert(v.assets.push((name, bytes)) + new_files(rest, seen) =~= v.assets + (seq![
                    (name, bytes),
                ] + new_files(rest, seen)));
            },
            RegistryCall::Image(src, fetched) => {
                if registered(v.names, src) is Some {
                    lemma_registered_present(v.names, src);
                } else {
                    lemma_unregistered_absent(v.names, src);
                    assert(!seen.contains(src));
                    match fetched {
                        None => {
                            assert(registered_sources(v1.names) == seen);
                        },
                        Some(b) => {
                            let n = image_file_name(src);
                            assert(v1.names == v.names.push((src, n)));
                            assert(registered_sources(v1.names) =~= seen.insert(src)) by {
                                assert forall|x: Seq<char>| #[trigger] seen.insert(src).contains(x)
                                    implies registered_sources(v1.names).contains(x) by {
                                    if x == src {
                                        assert(v1.names[v.names.len() as int].0 == src);
                                    } else {
                                        let i = choose|i: int|
                                            0 <= i < v.names.len() && v.names[i].0 == x;
                                        assert(v1.names[i] == v.names[i]);
                                    }
                                }
                                assert forall|x: Seq<char>| #[trigger] registered_sources(v1.names).contains(x)
                                    implies seen.insert(src).contains(x) by {
                                    let i = choose|i: int|
                                        0 <= i < v1.names.len() && v1.names[i].0 == x;
                                    if i < v.names.len() {
                                        assert(v1.names[i] == v.names[i]);
                                    }
                                }
                            }
                            assert(v.assets.push((n, b)) + new_files(rest, seen.insert(src))
                                =~= v.assets + (seq![(n, b)] + new_files(rest, seen.insert(src))));
                        },
                    }
                }
            },
        }
    }
}

/// What a new registry holds after a sequence of image lookups and pushes is,
/// in call order, each source's first successful fetch under its file name
/// with the fetched bytes, and each pushed file (pushes are never
/// de-duplicated).
pub proof fn lemma_registry_files(calls: Seq<RegistryCall>)
    ensures
        registry_run(
            RegistryView { names: Seq::empty(), assets: Seq::empty(), ok: 0, failed: 0 },
            calls,
        ).assets == new_files(calls, Set::empty()),
{
    let v = RegistryView { names: Seq::empty(), assets: Seq::empty(), ok: 0, failed: 0 };
    lemma_run_files(v, calls);
    assert(registered_sources(v.names) =~= Set::<Seq<char>>::empty());
    assert(v.assets + new_files(calls, Set::empty()) =~= new_files(calls, Set::empty()));
}

/// A source found at position `i - 1` is what the whole list registers.
proof fn lemma_registered_prefix(names: Seq<(Seq<char>, Seq<char>)>, i: int)
    requires
        0 < i <= names.len(),
        registered(names.take(i - 1), names[i - 1].0) is None,
    ensures
        registered(names, names[i - 1].0) == Some(names[i - 1].1),
    decreases names.len() - i,
{
    let src = names[i - 1].0;
    assert(names.take(i).drop_last() =~= names.take(i - 1));
    if i < names.len() {
        assert(names.take(i + 1).drop_last() =~= names.take(i));
        lemma_registered_extend(names, i, src);
    } else {
        assert(names.take(i) =~= names);
    }
}

/// Once a source is registered in a prefix, it stays registered the same way.
proof fn lemma_registered_extend(names: Seq<(Seq<char>, Seq<char>)>, i: int, src: Seq<char>)
    requires
        0 <= i <= names.len(),
        registered(names.take(i), src) is Some,
    ensures
        registered(names, src) == registered(names.take(i), src),
    decreases names.len() - i,
{
    if i < names.len() {
        assert(names.take(i + 1).drop_last() =~= names.take(i));
        lemma_registered_extend(names, i + 1, src);
    } else {
        assert(names.take(i) =~= names);
    }
}

} // verus!
