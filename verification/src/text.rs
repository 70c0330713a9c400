//! Text as sequences of characters: trimming, splitting, case and equality.

use vstd::prelude::*;
use vstd::slice::slice_subrange;
use vstd::utf8::{decode_utf8, encode_utf8, encode_utf8_decode_utf8, is_ascii_chars, valid_utf8};

verus! {

/// `String::push` of std: appends one character.
pub assume_specification[ String::push ](s: &mut String, ch: char)
    ensures
        final(s)@ == old(s)@.push(ch),
;

/// What `str::to_lowercase` of std returns for a text: the Unicode lowercase
/// mapping of the whole text.
pub uninterp spec fn lowercase(s: Seq<char>) -> Seq<char>;

/// Calls `str::to_lowercase` of std. Of its result nothing is claimed but that
/// the text determines it, that it is empty for the empty text only, because the
/// lower case of a character is one or more characters, and that on ASCII text
/// it maps `A` to `Z` onto `a` to `z` and keeps every other character.
#[verifier::external_body]
pub(crate) fn to_lowercase(s: &str) -> (r: String)
    ensures
        r@ == lowercase(s@),
        r@.len() == 0 <==> s@.len() == 0,
        is_ascii_chars(s@) ==> r@ == ascii_lowercase(s@),
{
    s.to_lowercase()
}

/// What `String::from_utf8_lossy` of std returns for a sequence of bytes.
pub uninterp spec fn lossy_utf8(bytes: Seq<u8>) -> Seq<char>;

/// Calls `String::from_utf8_lossy` of std. Valid UTF-8 is decoded as it is; of
/// the replacement of invalid parts nothing is claimed but that the bytes
/// determine it.
#[verifier::external_body]
pub(crate) fn from_utf8_lossy(bytes: &[u8]) -> (r: String)
    ensures
        r@ == lossy_utf8(bytes@),
        valid_utf8(bytes@) ==> r@ == decode_utf8(bytes@),
{
    String::from_utf8_lossy(bytes).into_owned()
}

/// Calls `String::from_utf8` of std: the decoded text if the bytes are valid
/// UTF-8, and nothing otherwise.
#[verifier::external_body]
pub(crate) fn from_utf8(bytes: Vec<u8>) -> (r: Option<String>)
    ensures
        r is Some <==> valid_utf8(bytes@),
        r matches Some(text) ==> text@ == decode_utf8(bytes@),
{
    String::from_utf8(bytes).ok()
}

/// The Unicode property `White_Space`.
pub open spec fn is_white_space(c: char) -> bool {
    let v = c as u32;
    ||| 0x09 <= v <= 0x0d
    ||| v == 0x20
    ||| v == 0x85
    ||| v == 0xa0
    ||| v == 0x1680
    ||| 0x2000 <= v <= 0x200a
    ||| v == 0x2028
    ||| v == 0x2029
    ||| v == 0x202f
    ||| v == 0x205f
    ||| v == 0x3000
}

/// Whether `c` has the Unicode property `White_Space`.
pub fn white_space(c: char) -> (r: bool)
    ensures
        r == is_white_space(c),
{
    let v: u32 = c as u32;
    (0x09 <= v && v <= 0x0d) || v == 0x20 || v == 0x85 || v == 0xa0 || v == 0x1680 || (0x2000 <= v
        && v <= 0x200a) || v == 0x2028 || v == 0x2029 || v == 0x202f || v == 0x205f || v == 0x3000
}

/// `s` without the white space at its start.
pub open spec fn trim_start(s: Seq<char>) -> Seq<char>
    decreases s.len(),
{
    if s.len() > 0 && is_white_space(s[0]) {
        trim_start(s.skip(1))
    } else {
        s
    }
}

/// `s` without the white space at its end.
pub open spec fn trim_end(s: Seq<char>) -> Seq<char>
    decreases s.len(),
{
    if s.len() > 0 && is_white_space(s.last()) {
        trim_end(s.drop_last())
    } else {
        s
    }
}

/// `s` without the white space at its start and at its end.
pub open spec fn trim(s: Seq<char>) -> Seq<char> {
    trim_end(trim_start(s))
}

/// `s` without the characters `c` at its start.
pub open spec fn strip_start(s: Seq<char>, c: char) -> Seq<char>
    decreases s.len(),
{
    if s.len() > 0 && s[0] == c {
        strip_start(s.skip(1), c)
    } else {
        s
    }
}

/// `s` without the characters `c` at its end.
pub open spec fn strip_end(s: Seq<char>, c: char) -> Seq<char>
    decreases s.len(),
{
    if s.len() > 0 && s.last() == c {
        strip_end(s.drop_last(), c)
    } else {
        s
    }
}

/// `s` without the characters `c` at its start and at its end.
pub open spec fn trim_matches(s: Seq<char>, c: char) -> Seq<char> {
    strip_end(strip_start(s, c), c)
}

/// The first position of `c` in `s` from `from` on, or the length of `s`.
pub open spec fn position_from(s: Seq<char>, c: char, from: int) -> int
    decreases s.len() - from,
{
    if from >= s.len() {
        s.len() as int
    } else if s[from] == c {
        from
    } else {
        position_from(s, c, from + 1)
    }
}

/// The parts of `s` between the occurrences of `c`: one more than there are
/// occurrences.
pub open spec fn split(s: Seq<char>, c: char) -> Seq<Seq<char>> {
    split_from(s, c, 0)
}

/// The parts between the occurrences of `c` in `s` from `from` on.
pub open spec fn split_from(s: Seq<char>, c: char, from: int) -> Seq<Seq<char>>
    decreases s.len() - from,
{
    let at = position_from(s, c, from);
    if 0 <= from <= at < s.len() {
        seq![s.subrange(from, at)] + split_from(s, c, at + 1)
    } else {
        seq![s.subrange(from, s.len() as int)]
    }
}

/// `c` with `A` to `Z` turned into `a` to `z`.
pub open spec fn ascii_lower(c: char) -> char {
    if 'A' <= c <= 'Z' {
        ((c as u32) + 32) as char
    } else {
        c
    }
}

/// `s` with every `A` to `Z` turned into `a` to `z`.
pub open spec fn ascii_lowercase(s: Seq<char>) -> Seq<char> {
    s.map_values(|c: char| ascii_lower(c))
}

/// `s` with every `from` replaced by the characters `to`.
pub open spec fn replace(s: Seq<char>, from: char, to: Seq<char>) -> Seq<char>
    decreases s.len(),
{
    if s.len() == 0 {
        Seq::empty()
    } else if s.last() == from {
        replace(s.drop_last(), from, to) + to
    } else {
        replace(s.drop_last(), from, to).push(s.last())
    }
}

/// Whether `p` is the start of `s`.
pub open spec fn has_prefix(s: Seq<char>, p: Seq<char>) -> bool {
    p.len() <= s.len() && s.take(p.len() as int) == p
}

/// The views of the texts in `v`.
pub open spec fn views(v: Seq<String>) -> Seq<Seq<char>> {
    v.map_values(|t: String| t@)
}

/// The views of the slices in `v`.
pub open spec fn slices(v: Seq<&[char]>) -> Seq<Seq<char>> {
    v.map_values(|t: &[char]| t@)
}

/// The characters of a text.
pub fn chars_of(s: &str) -> (r: Vec<char>)
    ensures
        r@ == s@,
{
    let mut r: Vec<char> = Vec::new();
    for c in it: s.chars()
        invariant
            it.seq() == s@,
            r@ == s@.take(it.index() as int),
    {
        proof {
            assert(s@.take(it.index() as int).push(c) =~= s@.take(it.index() + 1));
        }
        r.push(c);
    }
    proof {
        assert(s@.take(s@.len() as int) =~= s@);
    }
    r
}

/// The text made of the given characters.
pub fn string_of(s: &[char]) -> (r: String)
    ensures
        r@ == s@,
{
    let mut r = String::new();
    let mut i: usize = 0;
    while i < s.len()
        invariant
            i <= s.len(),
            r@ == s@.take(i as int),
        decreases s.len() - i,
    {
        proof {
            assert(s@.take(i as int).push(s@[i as int]) =~= s@.take(i + 1));
        }
        r.push(s[i]);
        i = i + 1;
    }
    proof {
        assert(s@.take(s@.len() as int) =~= s@);
    }
    r
}

/// A text with the same characters as `s`.
pub fn text_of(s: &str) -> (r: String)
    ensures
        r@ == s@,
{
    s.to_owned()
}

/// `s` without the white space at both ends.
pub fn trimmed<'a>(s: &'a [char]) -> (r: &'a [char])
    ensures
        r@ == trim(s@),
{
    let n: usize = s.len();
    let mut i: usize = 0;
    proof {
        assert(s@.skip(0) =~= s@);
    }
    while i < n && white_space(s[i])
        invariant
            i <= n,
            n == s@.len(),
            trim_start(s@) == trim_start(s@.skip(i as int)),
        decreases n - i,
    {
        proof {
            assert(s@.skip(i as int).skip(1) =~= s@.skip(i + 1));
        }
        i = i + 1;
    }
    let mut j: usize = n;
    proof {
        assert(s@.subrange(i as int, n as int) =~= s@.skip(i as int));
    }
    while j > i && white_space(s[j - 1])
        invariant
            i <= j <= n,
            n == s@.len(),
            trim_end(trim_start(s@)) == trim_end(s@.subrange(i as int, j as int)),
        decreases j,
    {
        proof {
            assert(s@.subrange(i as int, j as int).drop_last() =~= s@.subrange(i as int, j - 1));
        }
        j = j - 1;
    }
    slice_subrange(s, i, j)
}

/// `s` without the characters `c` at both ends.
pub fn trimmed_of<'a>(s: &'a [char], c: char) -> (r: &'a [char])
    ensures
        r@ == trim_matches(s@, c),
{
    let n: usize = s.len();
    let mut i: usize = 0;
    proof {
        assert(s@.skip(0) =~= s@);
    }
    while i < n && s[i] == c
        invariant
            i <= n,
            n == s@.len(),
            strip_start(s@, c) == strip_start(s@.skip(i as int), c),
        decreases n - i,
    {
        proof {
            assert(s@.skip(i as int).skip(1) =~= s@.skip(i + 1));
        }
        i = i + 1;
    }
    let mut j: usize = n;
    proof {
        assert(s@.subrange(i as int, n as int) =~= s@.skip(i as int));
    }
    while j > i && s[j - 1] == c
        invariant
            i <= j <= n,
            n == s@.len(),
            strip_end(strip_start(s@, c), c) == strip_end(s@.subrange(i as int, j as int), c),
        decreases j,
    {
        proof {
            assert(s@.subrange(i as int, j as int).drop_last() =~= s@.subrange(i as int, j - 1));
        }
        j = j - 1;
    }
    slice_subrange(s, i, j)
}

/// Where `position_from` lies, and what is before it.
pub proof fn lemma_position(s: Seq<char>, c: char, from: int)
    requires
        0 <= from <= s.len(),
    ensures
        from <= position_from(s, c, from) <= s.len(),
        position_from(s, c, from) < s.len() ==> s[position_from(s, c, from)] == c,
        forall|k: int| from <= k < position_from(s, c, from) ==> s[k] != c,
    decreases s.len() - from,
{
    if from < s.len() && s[from] != c {
        lemma_position(s, c, from + 1);
    }
}

/// The first position of `c` in `s` from `from` on, or the length of `s`.
pub fn find_from(s: &[char], c: char, from: usize) -> (r: usize)
    requires
        from <= s@.len(),
    ensures
        r == position_from(s@, c, from as int),
        from <= r <= s@.len(),
        r < s@.len() ==> s@[r as int] == c,
        forall|k: int| from <= k < r ==> s@[k] != c,
{
    let mut i: usize = from;
    while i < s.len() && s[i] != c
        invariant
            from <= i <= s@.len(),
            position_from(s@, c, from as int) == position_from(s@, c, i as int),
            forall|k: int| from <= k < i ==> s@[k] != c,
        decreases s@.len() - i,
    {
        i = i + 1;
    }
    i
}

/// Whether `c` occurs in `s`.
pub fn has_char(s: &[char], c: char) -> (r: bool)
    ensures
        r == s@.contains(c),
{
    let at = find_from(s, c, 0);
    at < s.len()
}

/// The parts of `s` between the occurrences of `c`.
pub fn split_at_char<'a>(s: &'a [char], c: char) -> (r: Vec<&'a [char]>)
    ensures
        slices(r@) == split(s@, c),
{
    let mut r: Vec<&'a [char]> = Vec::new();
    let mut from: usize = 0;
    let n: usize = s.len();
    loop
        invariant
            from <= n,
            n == s@.len(),
            split(s@, c) == slices(r@) + split_from(s@, c, from as int),
        decreases n - from,
    {
        let at = find_from(s, c, from);
        let ghost before = r@;
        let part = slice_subrange(s, from, at);
        r.push(part);
        proof {
            assert(slices(r@) =~= slices(before).push(part@));
        }
        if at == n {
            proof {
                assert(split(s@, c) =~= slices(r@));
            }
            return r;
        }
        proof {
            assert(split(s@, c) =~= slices(r@) + split_from(s@, c, at + 1));
        }
        from = at + 1;
    }
}

/// Whether two sequences of characters are the same.
pub fn same_chars(a: &[char], b: &[char]) -> (r: bool)
    ensures
        r == (a@ == b@),
{
    if a.len() != b.len() {
        return false;
    }
    let mut i: usize = 0;
    while i < a.len()
        invariant
            a@.len() == b@.len(),
            i <= a@.len(),
            forall|k: int| 0 <= k < i ==> a@[k] == b@[k],
        decreases a@.len() - i,
    {
        if a[i] != b[i] {
            return false;
        }
        i = i + 1;
    }
    proof {
        assert(a@ =~= b@);
    }
    true
}

/// Whether two texts are the same.
pub fn same_text(a: &str, b: &str) -> (r: bool)
    ensures
        r == (a@ == b@),
{
    let x = a.as_bytes();
    let y = b.as_bytes();
    proof {
        encode_utf8_decode_utf8(a@);
        encode_utf8_decode_utf8(b@);
    }
    if x.len() != y.len() {
        return false;
    }
    let mut i: usize = 0;
    while i < x.len()
        invariant
            x@ == encode_utf8(a@),
            y@ == encode_utf8(b@),
            x@.len() == y@.len(),
            i <= x@.len(),
            forall|k: int| 0 <= k < i ==> x@[k] == y@[k],
        decreases x@.len() - i,
    {
        if x[i] != y[i] {
            return false;
        }
        i = i + 1;
    }
    proof {
        assert(x@ =~= y@);
    }
    true
}

/// Whether `s` starts with `p`.
pub fn starts_with(s: &[char], p: &[char]) -> (r: bool)
    ensures
        r == has_prefix(s@, p@),
{
    if p.len() > s.len() {
        return false;
    }
    let head = slice_subrange(s, 0, p.len());
    proof {
        assert(head@ =~= s@.take(p@.len() as int));
    }
    same_chars(head, p)
}

/// `c` with `A` to `Z` turned into `a` to `z`.
pub fn lower(c: char) -> (r: char)
    ensures
        r == ascii_lower(c),
{
    if 'A' <= c && c <= 'Z' {
        ((c as u8) + 32) as char
    } else {
        c
    }
}

/// `s` with every `A` to `Z` turned into `a` to `z`.
pub fn lower_ascii(s: &[char]) -> (r: Vec<char>)
    ensures
        r@ == ascii_lowercase(s@),
{
    let mut r: Vec<char> = Vec::new();
    let mut i: usize = 0;
    while i < s.len()
        invariant
            i <= s@.len(),
            r@ == ascii_lowercase(s@.take(i as int)),
        decreases s@.len() - i,
    {
        r.push(lower(s[i]));
        proof {
            assert(r@ =~= ascii_lowercase(s@.take(i + 1)));
        }
        i = i + 1;
    }
    proof {
        assert(s@.take(s@.len() as int) =~= s@);
    }
    r
}

/// `s` with every `from` replaced by the characters `to`.
pub fn replaced(s: &[char], from: char, to: &[char]) -> (r: Vec<char>)
    ensures
        r@ == replace(s@, from, to@),
{
    let mut r: Vec<char> = Vec::new();
    let mut i: usize = 0;
    while i < s.len()
        invariant
            i <= s@.len(),
            r@ == replace(s@.take(i as int), from, to@),
        decreases s@.len() - i,
    {
        proof {
            assert(s@.take(i + 1).drop_last() =~= s@.take(i as int));
        }
        if s[i] == from {
            let ghost before = r@;
            let mut k: usize = 0;
            while k < to.len()
                invariant
                    k <= to@.len(),
                    r@ == before + to@.take(k as int),
                decreases to@.len() - k,
            {
                r.push(to[k]);
                proof {
                    assert(r@ =~= before + to@.take(k + 1));
                }
                k = k + 1;
            }
            proof {
                assert(to@.take(to@.len() as int) =~= to@);
            }
        } else {
            r.push(s[i]);
        }
        i = i + 1;
    }
    proof {
        assert(s@.take(s@.len() as int) =~= s@);
    }
    r
}

/// The lowercase form of the characters `s`.
pub fn lowercased(s: &[char]) -> (r: String)
    ensures
        r@ == lowercase(s@),
        r@.len() == 0 <==> s@.len() == 0,
        is_ascii_chars(s@) ==> r@ == ascii_lowercase(s@),
{
    let text = string_of(s);
    to_lowercase(text.as_str())
}

/// A second list of the same texts.
pub fn copy_texts(texts: &[String]) -> (r: Vec<String>)
    ensures
        views(r@) == views(texts@),
{
    let mut r: Vec<String> = Vec::new();
    let mut i: usize = 0;
    while i < texts.len()
        invariant
            i <= texts@.len(),
            views(r@) == views(texts@).take(i as int),
        decreases texts@.len() - i,
    {
        let ghost before = r@;
        let text = text_of(texts[i].as_str());
        r.push(text);
        proof {
            assert(views(r@) =~= views(before).push(texts@[i as int]@));
            assert(views(texts@).take(i + 1) =~= views(texts@).take(i as int).push(
                texts@[i as int]@,
            ));
        }
        i = i + 1;
    }
    proof {
        assert(views(texts@).take(i as int) =~= views(texts@));
    }
    r
}

/// What `position_from` is, given a place that has the character and no earlier
/// one.
proof fn lemma_position_is(s: Seq<char>, c: char, from: int, at: int)
    requires
        0 <= from <= at <= s.len(),
        at < s.len() ==> s[at] == c,
        forall|k: int| from <= k < at ==> s[k] != c,
    ensures
        position_from(s, c, from) == at,
    decreases at - from,
{
    if from < at {
        lemma_position_is(s, c, from + 1, at);
    }
}

/// The parts of a text behind a separator are those of what stands there.
proof fn lemma_split_behind(a: Seq<char>, b: Seq<char>, c: char, from: int)
    requires
        0 <= from <= b.len(),
    ensures
        split_from(a.push(c) + b, c, a.len() + 1 + from) == split_from(b, c, from),
    decreases b.len() - from,
{
    let s = a.push(c) + b;
    let shift = a.len() + 1;
    let at = position_from(b, c, from);
    lemma_position(b, c, from);
    assert forall|k: int| shift + from <= k < shift + at implies s[k] != c by {
        assert(s[k] == b[k - shift]);
    }
    if at < b.len() {
        assert(s[shift + at] == b[at]);
    }
    lemma_position_is(s, c, shift + from, shift + at);
    if at < b.len() {
        lemma_split_behind(a, b, c, at + 1);
        assert(s.subrange(shift + from, shift + at) =~= b.subrange(from, at));
    } else {
        assert(s.skip(shift + from) =~= b.skip(from));
    }
}

/// The parts of a text before a separator come before those behind it.
proof fn lemma_split_before(a: Seq<char>, b: Seq<char>, c: char, from: int)
    requires
        0 <= from <= a.len(),
    ensures
        split_from(a.push(c) + b, c, from) == split_from(a, c, from) + split(b, c),
    decreases a.len() - from,
{
    let s = a.push(c) + b;
    let at = position_from(a, c, from);
    lemma_position(a, c, from);
    assert forall|k: int| from <= k < at implies s[k] != c by {
        assert(s[k] == a[k]);
    }
    assert(s[at] == c);
    lemma_position_is(s, c, from, at);
    if at < a.len() {
        lemma_split_before(a, b, c, at + 1);
        assert(s.subrange(from, at) =~= a.subrange(from, at));
        assert(split_from(s, c, from) =~= split_from(a, c, from) + split(b, c));
    } else {
        lemma_split_behind(a, b, c, 0);
        assert(s.subrange(from, at) =~= a.skip(from));
        assert(split_from(s, c, from) =~= split_from(a, c, from) + split(b, c));
    }
}

/// The parts of two texts joined by a separator are those of the first and then
/// those of the second.
pub proof fn joined_texts_split_apart(a: Seq<char>, b: Seq<char>, c: char)
    ensures
        split(a.push(c) + b, c) == split(a, c) + split(b, c),
{
    lemma_split_before(a, b, c, 0);
}

/// The parts of a text hold characters of the text only.
pub proof fn lemma_parts_inside(s: Seq<char>, c: char, from: int, k: int)
    requires
        0 <= from <= s.len(),
        0 <= k < split_from(s, c, from).len(),
    ensures
        forall|i: int|
            0 <= i < split_from(s, c, from)[k].len() ==> s.contains(
                #[trigger] split_from(s, c, from)[k][i],
            ),
    decreases s.len() - from,
{
    let at = position_from(s, c, from);
    lemma_position(s, c, from);
    let parts = split_from(s, c, from);
    if at < s.len() && k > 0 {
        lemma_parts_inside(s, c, at + 1, k - 1);
        assert(parts[k] == split_from(s, c, at + 1)[k - 1]);
    } else {
        assert forall|i: int| 0 <= i < parts[k].len() implies s.contains(
            #[trigger] parts[k][i],
        ) by {
            assert(parts[k][i] == s[from + i]);
        }
    }
}

/// Trimming leaves nothing to trim at the start, and only characters of the text.
proof fn lemma_trim_start(s: Seq<char>)
    ensures
        trim_start(s).len() <= s.len(),
        trim_start(s) == s.skip(s.len() - trim_start(s).len()),
        trim_start(s).len() > 0 ==> !is_white_space(trim_start(s)[0]),
    decreases s.len(),
{
    if s.len() > 0 && is_white_space(s[0]) {
        lemma_trim_start(s.skip(1));
        assert(trim_start(s) =~= s.skip(s.len() - trim_start(s).len()));
    } else {
        assert(s.skip(0) =~= s);
    }
}

/// Trimming leaves nothing to trim at the end, and only characters of the text.
proof fn lemma_trim_end(s: Seq<char>)
    ensures
        trim_end(s).len() <= s.len(),
        trim_end(s) == s.take(trim_end(s).len() as int),
        trim_end(s).len() > 0 ==> !is_white_space(trim_end(s).last()),
    decreases s.len(),
{
    if s.len() > 0 && is_white_space(s.last()) {
        lemma_trim_end(s.drop_last());
        assert(trim_end(s) =~= s.take(trim_end(s).len() as int));
    } else {
        assert(s.take(s.len() as int) =~= s);
    }
}

/// A trimmed text is a part of the text, and trimming it again changes nothing.
pub proof fn trimming_settles(s: Seq<char>)
    ensures
        trim(trim(s)) == trim(s),
        forall|i: int| 0 <= i < trim(s).len() ==> s.contains(#[trigger] trim(s)[i]),
{
    let front = trim_start(s);
    let t = trim(s);
    lemma_trim_start(s);
    lemma_trim_end(front);
    if t.len() > 0 {
        assert(t[0] == front[0]);
    }
    assert(trim_start(t) == t);
    assert(trim_end(t) == t);
    assert forall|i: int| 0 <= i < t.len() implies s.contains(#[trigger] t[i]) by {
        assert(t[i] == s[s.len() - front.len() + i]);
    }
}

/// Putting ASCII letters in lower case keeps a trimmed text trimmed, and does
/// nothing the second time.
pub proof fn lower_case_stays_trimmed(s: Seq<char>)
    requires
        trim(s) == s,
    ensures
        trim(ascii_lowercase(s)) == ascii_lowercase(s),
        ascii_lowercase(ascii_lowercase(s)) == ascii_lowercase(s),
{
    let low = ascii_lowercase(s);
    lemma_trim_start(s);
    lemma_trim_end(trim_start(s));
    assert(trim_start(s).len() == s.len());
    assert(trim_start(s) == s) by {
        assert(s.skip(0) =~= s);
    }
    if s.len() > 0 {
        assert(low[0] == ascii_lower(s[0]));
        assert(low.last() == ascii_lower(s.last()));
    }
    assert(trim_start(low) == low);
    assert(trim_end(low) == low);
    assert(ascii_lowercase(low) =~= low);
}

/// A text can be replaced in part by part: a single character becomes the
/// replacement if it is the one in question and stays itself if it is not, and
/// what becomes of two texts joined is what becomes of each, joined.
pub proof fn replacing_goes_part_by_part(
    a: Seq<char>,
    b: Seq<char>,
    from: char,
    to: Seq<char>,
    other: char,
)
    ensures
        replace(a + b, from, to) == replace(a, from, to) + replace(b, from, to),
        replace(seq![from], from, to) == to,
        other != from ==> replace(seq![other], from, to) == seq![other],
        replace(Seq::empty(), from, to) == Seq::<char>::empty(),
    decreases b.len(),
{
    reveal_with_fuel(replace, 2);
    assert(seq![from].drop_last() =~= Seq::<char>::empty());
    assert(seq![other].drop_last() =~= Seq::<char>::empty());
    assert(Seq::<char>::empty() + to =~= to);
    assert(Seq::<char>::empty().push(other) =~= seq![other]);
    if b.len() == 0 {
        assert(a + b =~= a);
        assert(replace(a, from, to) + Seq::<char>::empty() =~= replace(a, from, to));
    } else {
        replacing_goes_part_by_part(a, b.drop_last(), from, to, other);
        assert((a + b).drop_last() =~= a + b.drop_last());
        assert((a + b).last() == b.last());
        assert(replace(a + b, from, to) =~= replace(a, from, to) + replace(b, from, to));
    }
}

/// Replacing a character by a text that does not hold it leaves it nowhere.
pub proof fn replacing_leaves_none(s: Seq<char>, from: char, to: Seq<char>)
    requires
        !to.contains(from),
    ensures
        !replace(s, from, to).contains(from),
    decreases s.len(),
{
    if s.len() > 0 {
        replacing_leaves_none(s.drop_last(), from, to);
        let before = replace(s.drop_last(), from, to);
        let all = replace(s, from, to);
        assert forall|i: int| 0 <= i < all.len() implies all[i] != from by {
            if i < before.len() {
                assert(all[i] == before[i]);
                assert(before.contains(before[i]));
            } else if s.last() == from {
                assert(all[i] == to[i - before.len()]);
                assert(to.contains(to[i - before.len()]));
            }
        }
    }
}

/// Replacing a character by another one keeps every position: where the character
/// stood stands the other one, and every other place is as it was.
pub proof fn replacing_one_for_one(s: Seq<char>, from: char, to: char)
    ensures
        replace(s, from, seq![to]).len() == s.len(),
        forall|i: int|
            0 <= i < s.len() ==> #[trigger] replace(s, from, seq![to])[i] == (if s[i] == from {
                to
            } else {
                s[i]
            }),
    decreases s.len(),
{
    if s.len() > 0 {
        replacing_one_for_one(s.drop_last(), from, to);
    }
}

/// Replacing a character by nothing leaves the other characters in their order.
pub proof fn replacing_by_nothing_removes(s: Seq<char>, from: char)
    ensures
        replace(s, from, Seq::empty()) == s.filter(|c: char| c != from),
    decreases s.len(),
{
    reveal(Seq::filter);
    if s.len() > 0 {
        replacing_by_nothing_removes(s.drop_last(), from);
        let before = replace(s.drop_last(), from, Seq::empty());
        assert(before + Seq::<char>::empty() =~= before);
    }
}

/// Whether a text is white space only.
pub open spec fn is_blank(s: Seq<char>) -> bool {
    forall|i: int| 0 <= i < s.len() ==> is_white_space(#[trigger] s[i])
}

/// White space in front is taken away.
proof fn lemma_front_goes(front: Seq<char>, s: Seq<char>)
    requires
        is_blank(front),
        s.len() > 0 ==> !is_white_space(s[0]),
    ensures
        trim_start(front + s) == s,
    decreases front.len(),
{
    if front.len() > 0 {
        assert(is_white_space(front[0]));
        assert((front + s)[0] == front[0]);
        assert((front + s).skip(1) =~= front.skip(1) + s);
        assert forall|i: int| 0 <= i < front.skip(1).len() implies is_white_space(
            #[trigger] front.skip(1)[i],
        ) by {
            assert(is_white_space(front[i + 1]));
        }
        lemma_front_goes(front.skip(1), s);
    } else {
        assert(front + s =~= s);
    }
}

/// White space at the end is taken away.
proof fn lemma_back_goes(s: Seq<char>, back: Seq<char>)
    requires
        is_blank(back),
        s.len() > 0 ==> !is_white_space(s.last()),
    ensures
        trim_end(s + back) == s,
    decreases back.len(),
{
    if back.len() > 0 {
        assert(is_white_space(back[back.len() - 1]));
        assert((s + back).last() == back.last());
        assert((s + back).drop_last() =~= s + back.drop_last());
        assert forall|i: int| 0 <= i < back.drop_last().len() implies is_white_space(
            #[trigger] back.drop_last()[i],
        ) by {
            assert(is_white_space(back[i]));
        }
        lemma_back_goes(s, back.drop_last());
    } else {
        assert(s + back =~= s);
    }
}

/// Trimming takes away the white space on both sides, all of it and nothing else:
/// white space inside stays, and white space alone leaves nothing.
pub proof fn trimming_takes_white_space_away(front: Seq<char>, s: Seq<char>, back: Seq<char>)
    requires
        is_blank(front),
        is_blank(back),
        s.len() > 0 ==> !is_white_space(s[0]) && !is_white_space(s.last()),
    ensures
        trim(front + s + back) == s,
{
    if s.len() > 0 {
        assert(front + s + back =~= front + (s + back));
        assert((s + back)[0] == s[0]);
        lemma_front_goes(front, s + back);
        lemma_back_goes(s, back);
    } else {
        let all = front + back;
        assert(front + s + back =~= all + s);
        assert forall|i: int| 0 <= i < all.len() implies is_white_space(#[trigger] all[i]) by {
            if i < front.len() {
                assert(is_white_space(front[i]));
            } else {
                assert(is_white_space(back[i - front.len()]));
            }
        }
        lemma_front_goes(all, s);
        lemma_back_goes(s, s);
        assert(s + s =~= s);
    }
}

/// Whether a text is made of one character only.
pub open spec fn is_run_of(s: Seq<char>, c: char) -> bool {
    forall|i: int| 0 <= i < s.len() ==> #[trigger] s[i] == c
}

/// A run in front is taken away.
proof fn lemma_run_in_front_goes(front: Seq<char>, s: Seq<char>, c: char)
    requires
        is_run_of(front, c),
        s.len() > 0 ==> s[0] != c,
    ensures
        strip_start(front + s, c) == s,
    decreases front.len(),
{
    if front.len() > 0 {
        assert((front + s)[0] == front[0]);
        assert((front + s).skip(1) =~= front.skip(1) + s);
        lemma_run_in_front_goes(front.skip(1), s, c);
    } else {
        assert(front + s =~= s);
    }
}

/// A run at the end is taken away.
proof fn lemma_run_at_end_goes(s: Seq<char>, back: Seq<char>, c: char)
    requires
        is_run_of(back, c),
        s.len() > 0 ==> s.last() != c,
    ensures
        strip_end(s + back, c) == s,
    decreases back.len(),
{
    if back.len() > 0 {
        assert((s + back).last() == back.last());
        assert((s + back).drop_last() =~= s + back.drop_last());
        lemma_run_at_end_goes(s, back.drop_last(), c);
    } else {
        assert(s + back =~= s);
    }
}

/// Stripping a character takes it away on both sides, every one of it, and
/// nothing else.
pub proof fn stripping_takes_a_character_away(
    front: Seq<char>,
    s: Seq<char>,
    back: Seq<char>,
    c: char,
)
    requires
        is_run_of(front, c),
        is_run_of(back, c),
        s.len() > 0 ==> s[0] != c && s.last() != c,
    ensures
        trim_matches(front + s + back, c) == s,
{
    if s.len() > 0 {
        assert(front + s + back =~= front + (s + back));
        assert((s + back)[0] == s[0]);
        lemma_run_in_front_goes(front, s + back, c);
        lemma_run_at_end_goes(s, back, c);
    } else {
        let all = front + back;
        assert(front + s + back =~= all + s);
        lemma_run_in_front_goes(all, s, c);
        lemma_run_at_end_goes(s, s, c);
        assert(s + s =~= s);
    }
}

/// White space is the tabs, line ends and blanks of ASCII and of Unicode: these
/// characters and no others.
pub proof fn white_space_is_listed(c: char)
    ensures
        is_white_space(c) <==> seq![
            '\t',
            '\n',
            '\u{b}',
            '\u{c}',
            '\r',
            ' ',
            '\u{85}',
            '\u{a0}',
            '\u{1680}',
            '\u{2000}',
            '\u{2001}',
            '\u{2002}',
            '\u{2003}',
            '\u{2004}',
            '\u{2005}',
            '\u{2006}',
            '\u{2007}',
            '\u{2008}',
            '\u{2009}',
            '\u{200a}',
            '\u{2028}',
            '\u{2029}',
            '\u{202f}',
            '\u{205f}',
            '\u{3000}',
        ].contains(c),
{
    let all = seq![
        '\t',
        '\n',
        '\u{b}',
        '\u{c}',
        '\r',
        ' ',
        '\u{85}',
        '\u{a0}',
        '\u{1680}',
        '\u{2000}',
        '\u{2001}',
        '\u{2002}',
        '\u{2003}',
        '\u{2004}',
        '\u{2005}',
        '\u{2006}',
        '\u{2007}',
        '\u{2008}',
        '\u{2009}',
        '\u{200a}',
        '\u{2028}',
        '\u{2029}',
        '\u{202f}',
        '\u{205f}',
        '\u{3000}',
    ];
    assert(all[0] == '\t' && all[1] == '\n' && all[2] == '\u{b}' && all[3] == '\u{c}');
    assert(all[4] == '\r' && all[5] == ' ' && all[6] == '\u{85}' && all[7] == '\u{a0}');
    assert(all[8] == '\u{1680}' && all[9] == '\u{2000}' && all[10] == '\u{2001}');
    assert(all[11] == '\u{2002}' && all[12] == '\u{2003}' && all[13] == '\u{2004}');
    assert(all[14] == '\u{2005}' && all[15] == '\u{2006}' && all[16] == '\u{2007}');
    assert(all[17] == '\u{2008}' && all[18] == '\u{2009}' && all[19] == '\u{200a}');
    assert(all[20] == '\u{2028}' && all[21] == '\u{2029}' && all[22] == '\u{202f}');
    assert(all[23] == '\u{205f}' && all[24] == '\u{3000}');
    if all.contains(c) {
        let i = choose|i: int| 0 <= i < all.len() && all[i] == c;
        assert(is_white_space(all[i]));
    }
}

/// The first part of a text without the separator is the whole text, and no part
/// of any text holds the separator.
pub proof fn parts_lie_between_separators(s: Seq<char>, c: char)
    ensures
        !s.contains(c) ==> split(s, c) == seq![s],
        split(s, c).len() > 0,
        forall|k: int| 0 <= k < split(s, c).len() ==> !(#[trigger] split(s, c)[k]).contains(c),
{
    lemma_position(s, c, 0);
    if !s.contains(c) {
        let at = position_from(s, c, 0);
        if at < s.len() {
            assert(s.contains(s[at]));
        }
        assert(s.subrange(0, s.len() as int) =~= s);
    }
    lemma_parts_without(s, c, 0);
}

proof fn lemma_parts_without(s: Seq<char>, c: char, from: int)
    requires
        0 <= from <= s.len(),
    ensures
        split_from(s, c, from).len() > 0,
        forall|k: int|
            0 <= k < split_from(s, c, from).len() ==> !(#[trigger] split_from(
                s,
                c,
                from,
            )[k]).contains(c),
    decreases s.len() - from,
{
    let at = position_from(s, c, from);
    lemma_position(s, c, from);
    let parts = split_from(s, c, from);
    if at < s.len() {
        lemma_parts_without(s, c, at + 1);
        let rest = split_from(s, c, at + 1);
        assert forall|k: int| 0 <= k < parts.len() implies !(#[trigger] parts[k]).contains(c) by {
            if k > 0 {
                assert(parts[k] == rest[k - 1]);
            }
        }
    }
}

/// A text starts with another one exactly if it is that one and something behind
/// it, and what is behind it is found by leaving that one out.
pub proof fn prefixes_are_followed_by_the_rest(s: Seq<char>, p: Seq<char>, rest: Seq<char>)
    ensures
        has_prefix(p + rest, p),
        has_prefix(s, p) ==> s == p + s.skip(p.len() as int),
        s == p + rest ==> has_prefix(s, p) && s.skip(p.len() as int) == rest,
{
    assert((p + rest).take(p.len() as int) =~= p);
    if has_prefix(s, p) {
        assert(s =~= s.take(p.len() as int) + s.skip(p.len() as int));
    }
    assert((p + rest).skip(p.len() as int) =~= rest);
}

/// In lower case each of the letters from A to Z is the small letter at its place
/// in the alphabet, and every other character is itself; a text keeps its length.
pub proof fn capitals_become_small_letters(s: Seq<char>, i: int, k: int)
    requires
        0 <= i < s.len(),
        0 <= k < 26,
    ensures
        ascii_lowercase(s).len() == s.len(),
        s[i] == "ABCDEFGHIJKLMNOPQRSTUVWXYZ"@[k] ==> ascii_lowercase(s)[i]
            == "abcdefghijklmnopqrstuvwxyz"@[k],
        !"ABCDEFGHIJKLMNOPQRSTUVWXYZ"@.contains(s[i]) ==> ascii_lowercase(s)[i] == s[i],
{
    reveal_strlit("ABCDEFGHIJKLMNOPQRSTUVWXYZ");
    reveal_strlit("abcdefghijklmnopqrstuvwxyz");
    let large = "ABCDEFGHIJKLMNOPQRSTUVWXYZ"@;
    let small = "abcdefghijklmnopqrstuvwxyz"@;
    assert(forall|j: int|
        0 <= j < 26 ==> (#[trigger] large[j]) as u32 == 65 + j && small[j] as u32 == 97 + j);
    if 'A' <= s[i] <= 'Z' {
        let j = s[i] as u32 - 65;
        assert(large[j] as u32 == 65 + j);
        assert(large[j] == s[i]);
        assert(large.contains(s[i]));
    }
}

/// Trimming leaves nothing of a text exactly if it is white space only.
pub proof fn blank_texts_trim_to_nothing(s: Seq<char>)
    ensures
        trim(s).len() == 0 <==> is_blank(s),
{
    if is_blank(s) {
        trimming_takes_white_space_away(s, Seq::empty(), Seq::empty());
        assert(s + Seq::<char>::empty() + Seq::<char>::empty() =~= s);
    }
    if trim(s).len() == 0 {
        let front = trim_start(s);
        lemma_trim_start_blank(s);
        lemma_trim_end_blank(front);
        lemma_trim_start(s);
        let n = s.len() - front.len();
        assert forall|i: int| 0 <= i < s.len() implies is_white_space(#[trigger] s[i]) by {
            if i >= n {
                assert(front[i - n] == s[i]);
            }
        }
    }
}

proof fn lemma_trim_start_blank(s: Seq<char>)
    ensures
        forall|i: int|
            0 <= i < s.len() - trim_start(s).len() ==> is_white_space(#[trigger] s[i]),
    decreases s.len(),
{
    if s.len() > 0 && is_white_space(s[0]) {
        lemma_trim_start_blank(s.skip(1));
        assert forall|i: int| 0 <= i < s.len() - trim_start(s).len() implies is_white_space(
            #[trigger] s[i],
        ) by {
            if i > 0 {
                assert(s.skip(1)[i - 1] == s[i]);
            }
        }
    }
}

proof fn lemma_trim_end_blank(s: Seq<char>)
    requires
        trim_end(s).len() == 0,
    ensures
        is_blank(s),
    decreases s.len(),
{
    if s.len() > 0 {
        lemma_trim_end_blank(s.drop_last());
        assert forall|i: int| 0 <= i < s.len() implies is_white_space(#[trigger] s[i]) by {
            if i < s.len() - 1 {
                assert(s.drop_last()[i] == s[i]);
            }
        }
    }
}

/// A trimmed text has no white space at its ends.
pub proof fn trimmed_texts_end_in_characters(s: Seq<char>)
    requires
        s.len() > 0,
        trim(s) == s,
    ensures
        !is_white_space(s[0]),
        !is_white_space(s.last()),
{
    lemma_trim_start(s);
    lemma_trim_end(trim_start(s));
    assert(trim_start(s).len() == s.len());
    assert(trim_start(s) == s) by {
        assert(s.skip(0) =~= s);
    }
}

} // verus!
