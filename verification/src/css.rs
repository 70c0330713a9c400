//! The style sheet's grammar: comments, rules and declarations.

use crate::text::{
    ascii_lowercase, find_from, is_blank, is_white_space, joined_texts_split_apart,
    lemma_parts_inside, lemma_position, lower_case_stays_trimmed, lowercase, lowercased,
    parts_lie_between_separators, position_from, slices, split, split_at_char, split_from,
    string_of, stripping_takes_a_character_away, trim, trim_matches, trimmed, trimmed_of,
    trimming_settles, trimming_takes_white_space_away, white_space,
};
use crate::textmap::{
    distinct_keys, lemma_key_position, putting_is_found, value_of, with_pair, Pairs, TextMap,
};
use crate::values::{Problem, ProblemKind, StyleError};
use vstd::prelude::*;
use vstd::slice::slice_subrange;
use vstd::utf8::{encode_utf8, is_ascii_chars};

verus! {

/// What declarations hold: values by property name.
pub type Declarations = Pairs<Seq<char>>;

/// What rules hold: declarations by selector.
pub type Rules = Pairs<Declarations>;

/// Values by property name.
pub type CssDeclarations = TextMap<String>;

/// Declarations by selector.
pub type CssRules = TextMap<CssDeclarations>;

/// Where a comment whose text starts at `j` ends: behind the first `*/`, or, if
/// it is not closed, on the last byte (or at `j`, if that is no longer before
/// the last byte).
pub open spec fn comment_end(bytes: Seq<u8>, j: int) -> int
    decreases bytes.len() - j,
{
    if j + 1 < bytes.len() {
        if bytes[j] == 0x2a && bytes[j + 1] == 0x2f {
            j + 2
        } else {
            comment_end(bytes, j + 1)
        }
    } else {
        j
    }
}

/// Whether a comment starts at `i`.
pub open spec fn comment_starts(bytes: Seq<u8>, i: int) -> bool {
    i + 1 < bytes.len() && bytes[i] == 0x2f && bytes[i + 1] == 0x2a
}

/// The bytes from `i` on as characters, one each, without the comments.
pub open spec fn without_comments(bytes: Seq<u8>, i: int) -> Seq<char>
    decreases bytes.len() - i,
    via without_comments_ends
{
    if i < 0 || i >= bytes.len() {
        Seq::empty()
    } else if comment_starts(bytes, i) {
        without_comments(bytes, comment_end(bytes, i + 2))
    } else {
        seq![bytes[i] as char] + without_comments(bytes, i + 1)
    }
}

/// A comment does not end before its text starts.
proof fn lemma_comment_end(bytes: Seq<u8>, j: int)
    requires
        j <= bytes.len(),
    ensures
        j <= comment_end(bytes, j) <= bytes.len(),
    decreases bytes.len() - j,
{
    if j + 1 < bytes.len() && !(bytes[j] == 0x2a && bytes[j + 1] == 0x2f) {
        lemma_comment_end(bytes, j + 1);
    }
}

#[via_fn]
proof fn without_comments_ends(bytes: Seq<u8>, i: int) {
    if 0 <= i < bytes.len() && comment_starts(bytes, i) {
        lemma_comment_end(bytes, i + 2);
    }
}

/// The bytes as characters, one each.
pub open spec fn byte_chars(bytes: Seq<u8>) -> Seq<char> {
    Seq::new(bytes.len(), |i: int| bytes[i] as char)
}

/// Whether no comment starts in the bytes.
pub open spec fn is_plain(bytes: Seq<u8>) -> bool {
    forall|i: int| 0 <= i < bytes.len() ==> !#[trigger] comment_starts(bytes, i)
}

/// Whether a comment is closed at `i`.
pub open spec fn comment_closes(bytes: Seq<u8>, i: int) -> bool {
    i + 1 < bytes.len() && bytes[i] == 0x2a && bytes[i + 1] == 0x2f
}

/// What stands before the first comment is kept.
proof fn lemma_kept_before(bytes: Seq<u8>, i: int, n: int)
    requires
        0 <= i <= n <= bytes.len(),
        forall|k: int| i <= k < n ==> !#[trigger] comment_starts(bytes, k),
    ensures
        without_comments(bytes, i) == byte_chars(bytes.subrange(i, n)) + without_comments(bytes, n),
    decreases n - i,
{
    if i < n {
        lemma_kept_before(bytes, i + 1, n);
        assert(!comment_starts(bytes, i));
        assert(byte_chars(bytes.subrange(i, n)) =~= seq![bytes[i] as char] + byte_chars(
            bytes.subrange(i + 1, n),
        ));
        assert(without_comments(bytes, i) =~= byte_chars(bytes.subrange(i, n)) + without_comments(
            bytes,
            n,
        ));
    } else {
        assert(without_comments(bytes, i) =~= byte_chars(bytes.subrange(i, n)) + without_comments(
            bytes,
            n,
        ));
    }
}

/// A comment ends where it is first closed, or on the last byte.
proof fn lemma_comment_ends_at(bytes: Seq<u8>, j: int, n: int)
    requires
        0 <= j <= n < bytes.len(),
        forall|k: int| j <= k < n ==> !#[trigger] comment_closes(bytes, k),
        comment_closes(bytes, n) || n + 1 == bytes.len(),
    ensures
        comment_end(bytes, j) == if comment_closes(bytes, n) {
            n + 2
        } else {
            n
        },
    decreases n - j,
{
    if j < n {
        assert(!comment_closes(bytes, j));
        lemma_comment_ends_at(bytes, j + 1, n);
    }
}

/// A comment ends at the same place whatever stands before it.
proof fn lemma_comment_end_behind(start: Seq<u8>, bytes: Seq<u8>, j: int)
    requires
        0 <= j <= bytes.len(),
    ensures
        comment_end(start + bytes, start.len() + j) == start.len() + comment_end(bytes, j),
    decreases bytes.len() - j,
{
    if j + 1 < bytes.len() {
        assert((start + bytes)[start.len() + j] == bytes[j]);
        assert((start + bytes)[start.len() + j + 1] == bytes[j + 1]);
        lemma_comment_end_behind(start, bytes, j + 1);
    }
}

/// What is kept of the bytes from a place on does not depend on those before it.
proof fn lemma_kept_behind(start: Seq<u8>, bytes: Seq<u8>, i: int)
    requires
        0 <= i <= bytes.len(),
    ensures
        without_comments(start + bytes, start.len() + i) == without_comments(bytes, i),
    decreases bytes.len() - i,
{
    let all = start + bytes;
    if i < bytes.len() {
        assert(all[start.len() + i] == bytes[i]);
        if i + 1 < bytes.len() {
            assert(all[start.len() + i + 1] == bytes[i + 1]);
        }
        assert(comment_starts(all, start.len() + i) == comment_starts(bytes, i));
        if comment_starts(bytes, i) {
            lemma_comment_end(bytes, i + 2);
            lemma_comment_end_behind(start, bytes, i + 2);
            lemma_kept_behind(start, bytes, comment_end(bytes, i + 2));
        } else {
            lemma_kept_behind(start, bytes, i + 1);
        }
    }
}

/// Bytes in which no comment starts are all kept.
pub proof fn text_without_comments_is_kept(bytes: Seq<u8>)
    requires
        is_plain(bytes),
    ensures
        without_comments(bytes, 0) == byte_chars(bytes),
{
    lemma_kept_before(bytes, 0, bytes.len() as int);
    assert(bytes.subrange(0, bytes.len() as int) =~= bytes);
    assert(byte_chars(bytes) + Seq::<char>::empty() =~= byte_chars(bytes));
}

/// Of a comment that is closed nothing is kept: what stands before it is joined
/// to what is kept of the bytes behind it, which may hold more comments.
pub proof fn a_comment_leaves_nothing(before: Seq<u8>, text: Seq<u8>, behind: Seq<u8>)
    requires
        is_plain(before),
        forall|k: int| 0 <= k < text.len() ==> !#[trigger] comment_closes(text, k),
    ensures
        without_comments(before + seq![0x2fu8, 0x2au8] + text + seq![0x2au8, 0x2fu8] + behind, 0)
            == byte_chars(before) + without_comments(behind, 0),
{
    let start = before + seq![0x2fu8, 0x2au8] + text + seq![0x2au8, 0x2fu8];
    let all = start + behind;
    let n = before.len() as int;
    let end = n + 2 + text.len();
    assert forall|k: int| 0 <= k < n implies !#[trigger] comment_starts(all, k) by {
        assert(!comment_starts(before, k));
    }
    lemma_kept_before(all, 0, n);
    assert(all.subrange(0, n) =~= before);
    assert(comment_starts(all, n));
    assert forall|k: int| n + 2 <= k < end implies !#[trigger] comment_closes(all, k) by {
        assert(all[k] == text[k - n - 2]);
        assert(!comment_closes(text, k - n - 2));
    }
    assert(comment_closes(all, end));
    lemma_comment_ends_at(all, n + 2, end);
    lemma_kept_behind(start, behind, 0);
}

/// Of a comment that is not closed the last byte alone is kept.
pub proof fn an_open_comment_leaves_its_last_byte(before: Seq<u8>, text: Seq<u8>)
    requires
        is_plain(before),
        forall|k: int| 0 <= k < text.len() ==> !#[trigger] comment_closes(text, k),
    ensures
        without_comments(before + seq![0x2fu8, 0x2au8] + text, 0) == byte_chars(before) + byte_chars(
            if text.len() > 0 {
                seq![text.last()]
            } else {
                Seq::empty()
            },
        ),
{
    let all = before + seq![0x2fu8, 0x2au8] + text;
    let n = before.len() as int;
    assert forall|k: int| 0 <= k < n implies !#[trigger] comment_starts(all, k) by {
        assert(!comment_starts(before, k));
    }
    lemma_kept_before(all, 0, n);
    assert(all.subrange(0, n) =~= before);
    assert(comment_starts(all, n));
    if text.len() > 0 {
        let last = all.len() - 1;
        assert forall|k: int| n + 2 <= k < last implies !#[trigger] comment_closes(all, k) by {
            assert(all[k] == text[k - n - 2]);
            assert(!comment_closes(text, k - n - 2));
        }
        lemma_comment_ends_at(all, n + 2, last);
        lemma_kept_before(all, last, last + 1);
        assert(all.subrange(last, last + 1) =~= seq![text.last()]);
        assert(without_comments(all, last + 1).len() == 0);
        assert(without_comments(all, last) =~= byte_chars(seq![text.last()]));
    } else {
        assert(without_comments(all, n + 2).len() == 0);
        assert(without_comments(all, n) =~= byte_chars(Seq::<u8>::empty()));
    }
}

/// The bytes of `input` as characters, one each, without the comments.
pub fn strip_css_comments(input: &str) -> (r: Vec<char>)
    ensures
        r@ == without_comments(encode_utf8(input@), 0),
{
    let bytes = input.as_bytes();
    let mut r: Vec<char> = Vec::new();
    let mut idx: usize = 0;
    while idx < bytes.len()
        invariant
            idx <= bytes@.len(),
            bytes@ == encode_utf8(input@),
            without_comments(bytes@, 0) == r@ + without_comments(bytes@, idx as int),
        decreases bytes@.len() - idx,
    {
        if bytes[idx] == 0x2f && 1 < bytes.len() - idx && bytes[idx + 1] == 0x2a {
            let ghost start = idx;
            proof {
                lemma_comment_end(bytes@, start + 2);
            }
            idx = idx + 2;
            let mut open = true;
            while open && 1 < bytes.len() - idx
                invariant
                    start + 2 <= idx <= bytes@.len(),
                    open ==> comment_end(bytes@, start + 2) == comment_end(bytes@, idx as int),
                    !open ==> comment_end(bytes@, start + 2) == idx,
                decreases (if open { 1int } else { 0int }), bytes@.len() - idx,
            {
                if bytes[idx] == 0x2a && bytes[idx + 1] == 0x2f {
                    idx = idx + 2;
                    open = false;
                } else {
                    idx = idx + 1;
                }
            }
            proof {
                assert(comment_end(bytes@, start + 2) == idx);
            }
        } else {
            r.push(bytes[idx] as char);
            proof {
                assert(without_comments(bytes@, 0) =~= r@ + without_comments(bytes@, idx + 1));
            }
            idx = idx + 1;
        }
    }
    proof {
        assert(r@ + Seq::<char>::empty() =~= r@);
    }
    r
}

/// The name and the value of a declaration: what stands before its first colon,
/// in lower case, and what stands behind it, without quotes around it. There
/// are none if there is no colon, no name or no value.
pub open spec fn declaration(text: Seq<char>) -> Option<(Seq<char>, Seq<char>)> {
    let decl = trim(text);
    let at = position_from(decl, ':', 0);
    if at >= decl.len() {
        None
    } else {
        let name = lowercase(trim(decl.take(at)));
        let value = trim_matches(trim_matches(trim(decl.skip(at + 1)), '"'), '\'');
        if name.len() == 0 || value.len() == 0 {
            None
        } else {
            Some((name, value))
        }
    }
}

/// The declarations among the parts of a block; of two with the same name the
/// later one counts.
pub open spec fn declarations(parts: Seq<Seq<char>>) -> Declarations
    decreases parts.len(),
{
    if parts.len() == 0 {
        Seq::empty()
    } else {
        match declaration(parts.last()) {
            Some((name, value)) => with_pair(declarations(parts.drop_last()), name, value),
            None => declarations(parts.drop_last()),
        }
    }
}

/// The declarations of a block, which semicolons part.
pub open spec fn block_declarations(block: Seq<char>) -> Declarations {
    declarations(split(block, ';'))
}

/// Whether a text is trimmed, and in lower case as far as ASCII letters go.
pub open spec fn is_plain_name(name: Seq<char>) -> bool {
    trim(name) == name && ascii_lowercase(name) == name
}

/// Reads the name and the value of a declaration.
fn parse_declaration(text: &[char]) -> (r: Option<(String, String)>)
    ensures
        match r {
            Some((name, value)) => declaration(text@) == Some((name@, value@)),
            None => declaration(text@) is None,
        },
        r matches Some((name, _)) ==> (is_ascii_chars(text@) ==> is_plain_name(name@)),
{
    let decl = trimmed(text);
    let at = find_from(decl, ':', 0);
    if at >= decl.len() {
        return None;
    }
    let before = slice_subrange(decl, 0, at);
    let behind = slice_subrange(decl, at + 1, decl.len());
    proof {
        assert(before@ =~= decl@.take(at as int));
        assert(behind@ =~= decl@.skip(at + 1));
    }
    let name = lowercased(trimmed(before));
    proof {
        trimming_settles(before@);
        if is_ascii_chars(text@) {
            trimming_settles(text@);
            assert forall|i: int| 0 <= i < trim(before@).len() implies '\0'
                <= #[trigger] trim(before@)[i] <= '\u{7f}' by {
                let k = choose|k: int| 0 <= k < before@.len() && before@[k] == trim(before@)[i];
                assert(decl@[k] == before@[k]);
                assert(text@.contains(decl@[k]));
            }
            assert(is_ascii_chars(trim(before@)));
            lower_case_stays_trimmed(trim(before@));
        }
    }
    let value = string_of(trimmed_of(trimmed_of(trimmed(behind), '"'), '\''));
    if name.as_str().is_empty() || value.as_str().is_empty() {
        None
    } else {
        Some((name, value))
    }
}

/// Reads the declarations of a block.
pub fn parse_declarations(block: &[char]) -> (r: CssDeclarations)
    ensures
        r@ == block_declarations(block@),
        is_ascii_chars(block@) ==> forall|i: int|
            0 <= i < r@.len() ==> is_plain_name((#[trigger] r@[i]).0),
{
    let parts = split_at_char(block, ';');
    let mut map: CssDeclarations = TextMap::new();
    let mut i: usize = 0;
    let ghost all = slices(parts@);
    while i < parts.len()
        invariant
            i <= parts@.len(),
            all == slices(parts@),
            all == split(block@, ';'),
            map@ == declarations(all.take(i as int)),
            is_ascii_chars(block@) ==> forall|k: int|
                0 <= k < map@.len() ==> is_plain_name((#[trigger] map@[k]).0),
        decreases parts@.len() - i,
    {
        let ghost before = map@;
        proof {
            if is_ascii_chars(block@) {
                let part = all[i as int];
                lemma_parts_inside(block@, ';', 0, i as int);
                assert forall|k: int| 0 <= k < part.len() implies '\0' <= #[trigger] part[k]
                    <= '\u{7f}' by {
                    assert(block@.contains(split_from(block@, ';', 0)[i as int][k]));
                }
                assert(is_ascii_chars(part));
            }
            assert(all.take(i + 1).drop_last() =~= all.take(i as int));
            assert(all.take(i + 1).last() == parts@[i as int]@);
        }
        match parse_declaration(parts[i]) {
            Some((name, value)) => {
                proof {
                    lemma_key_position(before, name@, 0);
                }
                map.insert(name, value);
            },
            None => {},
        }
        i = i + 1;
    }
    proof {
        assert(all.take(all.len() as int) =~= all);
    }
    map
}

/// The selectors among the parts of a selector list: in lower case, and without
/// the empty ones.
pub open spec fn selectors(parts: Seq<Seq<char>>) -> Seq<Seq<char>>
    decreases parts.len(),
{
    if parts.len() == 0 {
        Seq::empty()
    } else {
        let rest = selectors(parts.drop_last());
        let name = lowercase(trim(parts.last()));
        if name.len() == 0 {
            rest
        } else {
            rest.push(name)
        }
    }
}

/// The selectors of a rule, which commas part.
pub open spec fn rule_selectors(text: Seq<char>) -> Seq<Seq<char>> {
    selectors(split(text, ','))
}

/// Reads the selectors of a rule.
fn parse_selectors(text: &[char]) -> (r: Vec<String>)
    ensures
        crate::text::views(r@) == rule_selectors(text@),
{
    let parts = split_at_char(text, ',');
    let mut r: Vec<String> = Vec::new();
    let mut i: usize = 0;
    let ghost all = slices(parts@);
    while i < parts.len()
        invariant
            i <= parts@.len(),
            all == slices(parts@),
            crate::text::views(r@) == selectors(all.take(i as int)),
        decreases parts@.len() - i,
    {
        let ghost before = r@;
        proof {
            assert(all.take(i + 1).drop_last() =~= all.take(i as int));
            assert(all.take(i + 1).last() == parts@[i as int]@);
        }
        let name = lowercased(trimmed(parts[i]));
        if !name.as_str().is_empty() {
            r.push(name);
            proof {
                assert(crate::text::views(r@) =~= crate::text::views(before).push(name@));
            }
        }
        i = i + 1;
    }
    proof {
        assert(all.take(all.len() as int) =~= all);
    }
    r
}

/// `base` with each of `more` put into it.
pub open spec fn merged(base: Declarations, more: Declarations) -> Declarations
    decreases more.len(),
{
    if more.len() == 0 {
        base
    } else {
        with_pair(merged(base, more.drop_last()), more.last().0, more.last().1)
    }
}

/// The declarations under a selector, or none.
pub open spec fn under(rules: Rules, selector: Seq<char>) -> Declarations {
    match value_of(rules, selector) {
        Some(declarations) => declarations,
        None => Seq::empty(),
    }
}

/// `rules` with the declarations of a block added under each of the selectors.
pub open spec fn with_rule(rules: Rules, names: Seq<Seq<char>>, block: Declarations) -> Rules
    decreases names.len(),
{
    if names.len() == 0 {
        rules
    } else {
        let rest = with_rule(rules, names.drop_last(), block);
        with_pair(rest, names.last(), merged(under(rest, names.last()), block))
    }
}

/// The first position from `i` on that holds no white space, or the length.
pub open spec fn skip_space(s: Seq<char>, i: int) -> int
    decreases s.len() - i,
{
    if i < s.len() && is_white_space(s[i]) {
        skip_space(s, i + 1)
    } else {
        i
    }
}

/// The position behind the brace that closes the block in which `i` lies, with
/// `depth` blocks open; none if one stays open.
pub open spec fn block_end(s: Seq<char>, i: int, depth: int) -> Option<int>
    decreases s.len() - i,
{
    if depth <= 0 {
        Some(i)
    } else if i >= s.len() {
        None
    } else if s[i] == '{' {
        block_end(s, i + 1, depth + 1)
    } else if s[i] == '}' {
        block_end(s, i + 1, depth - 1)
    } else {
        block_end(s, i + 1, depth)
    }
}

/// Where the block ends, if it does.
proof fn lemma_block_end(s: Seq<char>, i: int, depth: int)
    requires
        0 <= i <= s.len(),
    ensures
        block_end(s, i, depth) matches Some(end) ==> i <= end <= s.len() && (depth > 0 ==> i < end),
    decreases s.len() - i,
{
    if depth > 0 && i < s.len() {
        if s[i] == '{' {
            lemma_block_end(s, i + 1, depth + 1);
        } else if s[i] == '}' {
            lemma_block_end(s, i + 1, depth - 1);
        } else {
            lemma_block_end(s, i + 1, depth);
        }
    }
}

/// The position from which white space has been skipped.
proof fn lemma_skip_space(s: Seq<char>, i: int)
    requires
        0 <= i <= s.len(),
    ensures
        i <= skip_space(s, i) <= s.len(),
    decreases s.len() - i,
{
    if i < s.len() && is_white_space(s[i]) {
        lemma_skip_space(s, i + 1);
    }
}

/// `rules` with the rules that the text from `i` on holds; none if a block stays
/// open. What is left without an opening brace at the end is no rule.
pub open spec fn rules_from(s: Seq<char>, i: int, rules: Rules) -> Option<Rules>
    decreases s.len() - i,
    via rules_from_ends
{
    if i < 0 || i > s.len() {
        Some(rules)
    } else {
        let start = skip_space(s, i);
        let brace = position_from(s, '{', start);
        if brace >= s.len() {
            Some(rules)
        } else {
            match block_end(s, brace + 1, 1) {
                None => None,
                Some(end) => rules_from(
                    s,
                    end,
                    with_rule(
                        rules,
                        rule_selectors(s.subrange(start, brace)),
                        block_declarations(s.subrange(brace + 1, end - 1)),
                    ),
                ),
            }
        }
    }
}

#[via_fn]
proof fn rules_from_ends(s: Seq<char>, i: int, rules: Rules) {
    if 0 <= i <= s.len() {
        let start = skip_space(s, i);
        lemma_skip_space(s, i);
        crate::text::lemma_position(s, '{', start);
        let brace = position_from(s, '{', start);
        if brace < s.len() {
            lemma_block_end(s, brace + 1, 1);
        }
    }
}

/// The rules that a style sheet holds; none if a block stays open.
pub open spec fn sheet_rules(source: Seq<char>) -> Option<Rules> {
    rules_from(without_comments(encode_utf8(source), 0), 0, Seq::empty())
}

/// Puts each of `more` into `base`.
fn merge(base: &mut CssDeclarations, more: &CssDeclarations)
    ensures
        final(base)@ == merged(old(base)@, more@),
{
    let mut i: usize = 0;
    let ghost start = base@;
    while i < more.len()
        invariant
            i <= more@.len(),
            base@ == merged(start, more@.take(i as int)),
        decreases more@.len() - i,
    {
        proof {
            assert(more@.take(i + 1).drop_last() =~= more@.take(i as int));
            assert(more@.take(i + 1).last() == more@[i as int]);
        }
        base.insert(more.key_at(i).clone(), more.value_at(i).clone());
        i = i + 1;
    }
    proof {
        assert(more@.take(more@.len() as int) =~= more@);
    }
}

/// Adds the declarations of a block under each of the selectors.
fn add_rule(rules: &mut CssRules, names: &Vec<String>, block: &CssDeclarations)
    ensures
        final(rules)@ == with_rule(old(rules)@, crate::text::views(names@), block@),
{
    let ghost start = rules@;
    let ghost all = crate::text::views(names@);
    let mut i: usize = 0;
    while i < names.len()
        invariant
            i <= names@.len(),
            all == crate::text::views(names@),
            rules@ == with_rule(start, all.take(i as int), block@),
        decreases names@.len() - i,
    {
        proof {
            assert(all.take(i + 1).drop_last() =~= all.take(i as int));
            assert(all.take(i + 1).last() == names@[i as int]@);
        }
        let mut entry: CssDeclarations = match rules.get(names[i].as_str()) {
            Some(declarations) => declarations.copy(),
            None => TextMap::new(),
        };
        merge(&mut entry, block);
        rules.insert(names[i].clone(), entry);
        i = i + 1;
    }
    proof {
        assert(all.take(all.len() as int) =~= all);
    }
}

/// Reads the rules of a style sheet.
pub fn parse_css_rules(source: &str) -> (r: Result<CssRules, StyleError>)
    ensures
        match r {
            Ok(rules) => sheet_rules(source@) == Some(rules@),
            Err(e) => sheet_rules(source@) is None && e@ == (Problem {
                kind: ProblemKind::UnmatchedBraces,
                text: Seq::empty(),
            }),
        },
{
    let cleaned = strip_css_comments(source);
    let chars = cleaned.as_slice();
    let mut rules: CssRules = TextMap::new();
    let mut idx: usize = 0;
    loop
        invariant
            idx <= chars@.len(),
            chars@ == without_comments(encode_utf8(source@), 0),
            sheet_rules(source@) == rules_from(chars@, idx as int, rules@),
        decreases chars@.len() - idx,
    {
        let ghost from = idx as int;
        while idx < chars.len() && white_space(chars[idx])
            invariant
                from <= idx <= chars@.len(),
                skip_space(chars@, from) == skip_space(chars@, idx as int),
            decreases chars@.len() - idx,
        {
            idx = idx + 1;
        }
        let start: usize = idx;
        let brace = find_from(chars, '{', start);
        if brace >= chars.len() {
            return Ok(rules);
        }
        let names = parse_selectors(slice_subrange(chars, start, brace));
        idx = brace + 1;
        let mut depth: usize = 1;
        while idx < chars.len() && depth > 0
            invariant
                brace + 1 <= idx <= chars@.len(),
                depth <= idx - brace,
                depth == 0 ==> brace + 1 < idx,
                block_end(chars@, brace + 1, 1) == block_end(chars@, idx as int, depth as int),
            decreases chars@.len() - idx,
        {
            if chars[idx] == '{' {
                depth = depth + 1;
            } else if chars[idx] == '}' {
                depth = depth - 1;
            }
            idx = idx + 1;
        }
        if depth != 0 {
            proof {
                reveal_strlit("");
                assert(""@ =~= Seq::empty());
            }
            return Err(StyleError::new(ProblemKind::UnmatchedBraces, ""));
        }
        let block = parse_declarations(slice_subrange(chars, brace + 1, idx - 1));
        add_rule(&mut rules, &names, &block);
    }
}

/// Rules that name the same selector count together, and of two declarations of
/// one property under a selector the one that was added last counts.
pub proof fn later_declarations_win(
    rules: Rules,
    selector: Seq<char>,
    block: Declarations,
    property: Seq<char>,
)
    requires
        distinct_keys(rules),
        distinct_keys(under(rules, selector)),
        distinct_keys(block),
    ensures
        ({
            let after = under(with_rule(rules, seq![selector], block), selector);
            value_of(after, property) == match value_of(
                block,
                property,
            ) {
                Some(value) => Some(value),
                None => value_of(under(rules, selector), property),
            }
        }),
{
    let names = seq![selector];
    assert(names.drop_last() =~= Seq::empty());
    assert(with_rule(rules, names.drop_last(), block) == rules);
    let entry = merged(under(rules, selector), block);
    putting_is_found(rules, selector, entry, selector);
    lemma_merged(under(rules, selector), block, property);
}

/// What merged declarations hold of one property.
proof fn lemma_merged(base: Declarations, more: Declarations, property: Seq<char>)
    requires
        distinct_keys(base),
        distinct_keys(more),
    ensures
        distinct_keys(merged(base, more)),
        value_of(merged(base, more), property) == match value_of(
            more,
            property,
        ) {
            Some(value) => Some(value),
            None => value_of(base, property),
        },
    decreases more.len(),
{
    if more.len() > 0 {
        let rest = more.drop_last();
        assert forall|i: int, j: int| 0 <= i < j < rest.len() implies (#[trigger] rest[i]).0 != (
        #[trigger] rest[j]).0 by {
            assert(rest[i] == more[i] && rest[j] == more[j]);
        }
        lemma_merged(base, rest, property);
        let (key, value) = more.last();
        putting_is_found(merged(base, rest), key, value, property);
        let at = crate::textmap::key_position(rest, property, 0);
        lemma_key_position(rest, property, 0);
        if at < rest.len() {
            assert(rest[at] == more[at]);
            assert(more[at].0 != more.last().0);
            assert forall|i: int| 0 <= i < at implies (#[trigger] more[i]).0 != property by {
                assert(rest[i] == more[i]);
            }
            crate::textmap::lemma_key_position_is(more, property, 0, at);
        } else {
            assert forall|i: int| 0 <= i < more.len() - 1 implies (#[trigger] more[i]).0
                != property by {
                assert(rest[i] == more[i]);
            }
            let end = if key == property {
                more.len() - 1
            } else {
                more.len() as int
            };
            crate::textmap::lemma_key_position_is(more, property, 0, end);
        }
    } else {
        assert(value_of(more, property) is None);
    }
}

/// No name occurs twice among declarations.
proof fn lemma_declarations_distinct(parts: Seq<Seq<char>>)
    ensures
        distinct_keys(declarations(parts)),
    decreases parts.len(),
{
    if parts.len() > 0 {
        lemma_declarations_distinct(parts.drop_last());
        match declaration(parts.last()) {
            Some((name, value)) => {
                putting_is_found(declarations(parts.drop_last()), name, value, name);
            },
            None => {},
        }
    }
}

/// What the declarations among two lists of parts hold of one name.
proof fn lemma_declarations_joined(p: Seq<Seq<char>>, q: Seq<Seq<char>>, name: Seq<char>)
    ensures
        value_of(declarations(p + q), name) == match value_of(declarations(q), name) {
            Some(value) => Some(value),
            None => value_of(declarations(p), name),
        },
    decreases q.len(),
{
    if q.len() == 0 {
        assert(p + q =~= p);
        assert(value_of(declarations(q), name) is None);
    } else {
        let fewer = q.drop_last();
        assert((p + q).drop_last() =~= p + fewer);
        assert((p + q).last() == q.last());
        lemma_declarations_joined(p, fewer, name);
        match declaration(q.last()) {
            Some((key, value)) => {
                lemma_declarations_distinct(p + fewer);
                lemma_declarations_distinct(fewer);
                putting_is_found(declarations(p + fewer), key, value, name);
                putting_is_found(declarations(fewer), key, value, name);
            },
            None => {},
        }
    }
}

/// Two blocks joined by a semicolon hold what the first one holds, overwritten by
/// what the second one holds; no name occurs twice.
pub proof fn joined_blocks_overwrite(a: Seq<char>, b: Seq<char>, name: Seq<char>)
    ensures
        value_of(block_declarations(a.push(';') + b), name) == match value_of(
            block_declarations(b),
            name,
        ) {
            Some(value) => Some(value),
            None => value_of(block_declarations(a), name),
        },
        distinct_keys(block_declarations(a.push(';') + b)),
{
    joined_texts_split_apart(a, b, ';');
    lemma_declarations_joined(split(a, ';'), split(b, ';'), name);
    lemma_declarations_distinct(split(a.push(';') + b, ';'));
}

/// Whether a name is what a trimmed text is in lower case.
pub open spec fn is_lowered(name: Seq<char>) -> bool {
    exists|text: Seq<char>| trim(text) == text && name == #[trigger] lowercase(text)
}

/// What every declaration among the parts of a block is like.
proof fn lemma_declarations_filled(parts: Seq<Seq<char>>)
    ensures
        forall|i: int|
            0 <= i < declarations(parts).len() ==> {
                &&& (#[trigger] declarations(parts)[i]).0.len() > 0
                &&& declarations(parts)[i].1.len() > 0
                &&& is_lowered(declarations(parts)[i].0)
            },
    decreases parts.len(),
{
    if parts.len() > 0 {
        let before = declarations(parts.drop_last());
        lemma_declarations_filled(parts.drop_last());
        match declaration(parts.last()) {
            Some((name, value)) => {
                let decl = trim(parts.last());
                let text = decl.take(position_from(decl, ':', 0));
                trimming_settles(text);
                assert(name == lowercase(trim(text)));
                assert(is_lowered(name));
                lemma_key_position(before, name, 0);
                let all = declarations(parts);
                assert forall|i: int| 0 <= i < all.len() implies {
                    &&& (#[trigger] all[i]).0.len() > 0
                    &&& all[i].1.len() > 0
                    &&& is_lowered(all[i].0)
                } by {
                    if all[i] != (name, value) {
                        assert(all[i] == before[i]);
                    }
                }
            },
            None => {},
        }
    }
}

/// In the declarations of a block no name and no value is empty, and every name
/// is a trimmed text in lower case.
pub proof fn declarations_are_never_empty(block: Seq<char>)
    ensures
        forall|i: int|
            0 <= i < block_declarations(block).len() ==> {
                &&& (#[trigger] block_declarations(block)[i]).0.len() > 0
                &&& block_declarations(block)[i].1.len() > 0
                &&& is_lowered(block_declarations(block)[i].0)
            },
{
    lemma_declarations_filled(split(block, ';'));
}

/// A declaration is a name, a colon and a value: the name counts in lower case, and
/// white space around either does not count. A value may stand in double quotes or
/// in single ones, and may hold further colons.
pub proof fn a_declaration_is_a_name_and_a_value(name: Seq<char>, value: Seq<char>)
    requires
        trim(name) == name,
        trim(value) == value,
        !name.contains(':'),
        lowercase(name).len() > 0,
        name.len() > 0,
        value.len() > 0,
        value[0] != '"' && value[0] != '\'',
        value.last() != '"' && value.last() != '\'',
    ensures
        declaration(name.push(':') + value) == Some((lowercase(name), value)),
        declaration(name.push(':') + (seq!['"'] + value + seq!['"'])) == Some(
            (lowercase(name), value),
        ),
        declaration(name.push(':') + (seq!['\''] + value + seq!['\''])) == Some(
            (lowercase(name), value),
        ),
        declaration(name.push(' ').push(':') + (seq![' '] + value)) == Some(
            (lowercase(name), value),
        ),
{
    let none: Seq<char> = Seq::empty();
    let double = seq!['"'];
    let single = seq!['\''];
    assert(none + value + none =~= value);
    assert(name[0] != ':') by {
        assert(name.contains(name[0]));
    }
    lemma_ends_are_dark(name);
    lemma_ends_are_dark(value);
    // Plain.
    stripping_takes_a_character_away(none, value, none, '"');
    stripping_takes_a_character_away(none, value, none, '\'');
    lemma_declaration(name, value, value);
    // In double quotes.
    let quoted = double + value + double;
    assert(quoted[0] == '"' && quoted.last() == '"');
    trimming_takes_white_space_away(none, quoted, none);
    assert(none + quoted + none =~= quoted);
    stripping_takes_a_character_away(double, value, double, '"');
    lemma_declaration(name, quoted, quoted);
    // In single quotes.
    let marked = single + value + single;
    assert(marked[0] == '\'' && marked.last() == '\'');
    trimming_takes_white_space_away(none, marked, none);
    assert(none + marked + none =~= marked);
    stripping_takes_a_character_away(none, marked, none, '"');
    stripping_takes_a_character_away(single, value, single, '\'');
    lemma_declaration(name, marked, marked);
    // With spaces.
    let space = seq![' '];
    assert(is_white_space(' '));
    assert forall|i: int| 0 <= i < space.len() implies is_white_space(#[trigger] space[i]) by {}
    trimming_takes_white_space_away(space, value, none);
    assert(space + value + none =~= space + value);
    trimming_takes_white_space_away(none, name, space);
    assert(none + name + space =~= name.push(' '));
    let long = name.push(' ');
    assert forall|k: int| 0 <= k < long.len() implies #[trigger] long[k] != ':' by {
        if k < name.len() {
            assert(name.contains(name[k]));
        }
    }
    assert(long[0] == name[0]);
    lemma_declaration(long, space + value, value);
}

/// A trimmed text has no white space at its ends.
proof fn lemma_ends_are_dark(s: Seq<char>)
    requires
        trim(s) == s,
        s.len() > 0,
    ensures
        !is_white_space(s[0]),
        !is_white_space(s.last()),
{
    crate::text::trimmed_texts_end_in_characters(s);
}

/// What a declaration is read as.
proof fn lemma_declaration(before: Seq<char>, behind: Seq<char>, text: Seq<char>)
    requires
        before.len() > 0,
        behind.len() > 0,
        !is_white_space(before[0]),
        !is_white_space(behind.last()),
        !before.contains(':'),
        trim(behind) == text,
    ensures
        ({
            let name = lowercase(trim(before));
            let value = trim_matches(trim_matches(text, '"'), '\'');
            declaration(before.push(':') + behind) == if name.len() == 0 || value.len() == 0 {
                None
            } else {
                Some((name, value))
            }
        }),
{
    let all = before.push(':') + behind;
    let none: Seq<char> = Seq::empty();
    let n = before.len() as int;
    assert(all[0] == before[0] && all.last() == behind.last());
    trimming_takes_white_space_away(none, all, none);
    assert(none + all + none =~= all);
    lemma_position(all, ':', 0);
    let at = position_from(all, ':', 0);
    assert(all[n] == ':');
    assert(at <= n);
    if at < n {
        assert(all[at] == before[at]);
        assert(before.contains(before[at]));
    }
    assert(all.take(n) =~= before);
    assert(all.skip(n + 1) =~= behind);
}

/// A declaration without a colon says nothing.
pub proof fn declarations_need_a_colon(text: Seq<char>)
    requires
        !text.contains(':'),
    ensures
        declaration(text) is None,
{
    let decl = trim(text);
    trimming_settles(text);
    lemma_position(decl, ':', 0);
    let at = position_from(decl, ':', 0);
    if at < decl.len() {
        assert(text.contains(decl[at]));
    }
}

/// The selectors of a rule stand between its commas: those of two lists joined by a
/// comma are those of the first and then those of the second. One selector counts
/// in lower case and without the white space around it, and a blank one not at all.
pub proof fn selectors_stand_between_commas(a: Seq<char>, b: Seq<char>)
    ensures
        rule_selectors(a.push(',') + b) == rule_selectors(a) + rule_selectors(b),
        !a.contains(',') && lowercase(trim(a)).len() > 0 ==> rule_selectors(a) == seq![
            lowercase(trim(a)),
        ],
        !a.contains(',') && lowercase(trim(a)).len() == 0 ==> rule_selectors(a).len() == 0,
{
    joined_texts_split_apart(a, b, ',');
    lemma_selectors_joined(split(a, ','), split(b, ','));
    if !a.contains(',') {
        parts_lie_between_separators(a, ',');
        let one = seq![a];
        reveal_with_fuel(selectors, 2);
        assert(one.drop_last() =~= Seq::<Seq<char>>::empty());
        assert(selectors(one.drop_last()) =~= Seq::<Seq<char>>::empty());
        assert(Seq::<Seq<char>>::empty().push(lowercase(trim(a))) =~= seq![lowercase(trim(a))]);
    }
}

proof fn lemma_selectors_joined(a: Seq<Seq<char>>, b: Seq<Seq<char>>)
    ensures
        selectors(a + b) == selectors(a) + selectors(b),
    decreases b.len(),
{
    if b.len() == 0 {
        assert(a + b =~= a);
        assert(selectors(a) + Seq::<Seq<char>>::empty() =~= selectors(a));
    } else {
        lemma_selectors_joined(a, b.drop_last());
        assert((a + b).drop_last() =~= a + b.drop_last());
        assert((a + b).last() == b.last());
        assert(selectors(a + b) =~= selectors(a) + selectors(b));
    }
}

/// A rule counts for each of its selectors, and for no other: under each of them
/// its declarations are added to what is there, and overwrite it.
pub proof fn a_rule_counts_for_its_selectors(
    rules: Rules,
    names: Seq<Seq<char>>,
    block: Declarations,
    selector: Seq<char>,
    property: Seq<char>,
)
    requires
        distinct_keys(rules),
        distinct_keys(under(rules, selector)),
        distinct_keys(block),
    ensures
        ({
            let after = with_rule(rules, names, block);
            let said = value_of(under(after, selector), property);
            &&& distinct_keys(after)
            &&& distinct_keys(under(after, selector))
            &&& !names.contains(selector) ==> under(after, selector) == under(rules, selector)
            &&& names.contains(selector) && value_of(block, property) is Some ==> said == value_of(
                block,
                property,
            )
            &&& names.contains(selector) && value_of(block, property) is None ==> said == value_of(
                under(rules, selector),
                property,
            )
        }),
    decreases names.len(),
{
    if names.len() > 0 {
        let rest = names.drop_last();
        let last = names.last();
        let before = with_rule(rules, rest, block);
        a_rule_counts_for_its_selectors(rules, rest, block, selector, property);
        let all = merged(under(before, last), block);
        putting_is_found(before, last, all, selector);
        if selector == last {
            lemma_merged(under(before, last), block, property);
            assert(names[names.len() - 1] == selector);
        } else if names.contains(selector) {
            let i = choose|i: int| 0 <= i < names.len() && names[i] == selector;
            assert(rest[i] == selector);
        } else if rest.contains(selector) {
            let i = choose|i: int| 0 <= i < rest.len() && rest[i] == selector;
            assert(names[i] == selector);
        }
    }
}

/// A style sheet is read rule by rule: selectors up to a brace, then declarations up
/// to the brace that closes it, and then what follows. White space between rules
/// does not count, and what stands behind the last rule says nothing.
pub proof fn a_style_sheet_is_read_rule_by_rule(
    space: Seq<char>,
    head: Seq<char>,
    body: Seq<char>,
    rest: Seq<char>,
    rules: Rules,
)
    requires
        is_blank(space),
        head.len() > 0,
        !is_white_space(head[0]),
        !head.contains('{'),
        !body.contains('{'),
        !body.contains('}'),
    ensures
        rules_from(space + head + seq!['{'] + body + seq!['}'] + rest, 0, rules) == rules_from(
            rest,
            0,
            with_rule(rules, rule_selectors(head), block_declarations(body)),
        ),
        rules_from(space + head + seq!['{'] + body, 0, rules) is None,
        rules_from(space + head, 0, rules) == Some(rules),
        rules_from(space, 0, rules) == Some(rules),
{
    let start = space + head + seq!['{'] + body + seq!['}'];
    let all = start + rest;
    let open = space + head + seq!['{'] + body;
    let a = space.len() as int;
    let b = a + head.len();
    let c = b + 1 + body.len();
    assert(all.take(b) =~= space + head && open.take(b) =~= space + head);
    lemma_rule_start(all, space, head);
    lemma_rule_start(open, space, head);
    assert(all[b] == '{' && open[b] == '{');
    lemma_head_position(all, a, b);
    lemma_head_position(open, a, b);
    assert forall|k: int| 0 <= k < body.len() implies #[trigger] body[k] != '{' && body[k]
        != '}' by {
        assert(body.contains(body[k]));
    }
    assert forall|k: int| b + 1 <= k < c implies #[trigger] all[k] != '{' && all[k] != '}' by {
        assert(all[k] == body[k - b - 1]);
    }
    assert forall|k: int| b + 1 <= k < c implies #[trigger] open[k] != '{' && open[k] != '}' by {
        assert(open[k] == body[k - b - 1]);
    }
    assert(all[c] == '}');
    lemma_block_closes(all, b + 1, c);
    lemma_block_open(open, b + 1);
    assert(all.subrange(a, b) =~= head);
    assert(all.subrange(b + 1, c) =~= body);
    lemma_rules_behind(
        start,
        rest,
        0,
        with_rule(rules, rule_selectors(head), block_declarations(body)),
    );
    let plain = space + head;
    assert(plain.take(b) =~= plain);
    lemma_rule_start(plain, space, head);
    lemma_position(plain, '{', a);
    let at = position_from(plain, '{', a);
    if at < plain.len() {
        assert(plain[at] == head[at - a]);
        assert(head.contains(head[at - a]));
    }
    lemma_space_ends(space, 0, a);
    lemma_position(space, '{', a);
}

proof fn lemma_space_ends(s: Seq<char>, i: int, n: int)
    requires
        0 <= i <= n <= s.len(),
        forall|k: int| i <= k < n ==> is_white_space(#[trigger] s[k]),
        n < s.len() ==> !is_white_space(s[n]),
    ensures
        skip_space(s, i) == n,
    decreases n - i,
{
    if i < n {
        assert(is_white_space(s[i]));
        lemma_space_ends(s, i + 1, n);
    }
}

proof fn lemma_rule_start(s: Seq<char>, space: Seq<char>, head: Seq<char>)
    requires
        is_blank(space),
        head.len() > 0,
        !is_white_space(head[0]),
        !head.contains('{'),
        s.len() >= space.len() + head.len(),
        s.take((space.len() + head.len()) as int) == space + head,
    ensures
        skip_space(s, 0) == space.len(),
        forall|k: int| space.len() <= k < space.len() + head.len() ==> #[trigger] s[k] != '{',
{
    let a = space.len() as int;
    let both = space + head;
    assert forall|k: int| 0 <= k < a implies is_white_space(#[trigger] s[k]) by {
        assert(s[k] == s.take(both.len() as int)[k]);
        assert(both[k] == space[k]);
        assert(is_white_space(space[k]));
    }
    assert(s[a] == s.take(both.len() as int)[a]);
    assert(both[a] == head[0]);
    lemma_space_ends(s, 0, a);
    assert forall|k: int| a <= k < a + head.len() implies #[trigger] s[k] != '{' by {
        assert(s[k] == s.take(both.len() as int)[k]);
        assert(both[k] == head[k - a]);
        assert(head.contains(head[k - a]));
    }
}

proof fn lemma_head_position(s: Seq<char>, a: int, b: int)
    requires
        0 <= a <= b < s.len(),
        s[b] == '{',
        forall|k: int| a <= k < b ==> #[trigger] s[k] != '{',
    ensures
        position_from(s, '{', a) == b,
{
    lemma_position(s, '{', a);
    let at = position_from(s, '{', a);
    if at < b {
        assert(s[at] != '{');
    }
}

proof fn lemma_block_closes(s: Seq<char>, i: int, n: int)
    requires
        0 <= i <= n < s.len(),
        s[n] == '}',
        forall|k: int| i <= k < n ==> #[trigger] s[k] != '{' && s[k] != '}',
    ensures
        block_end(s, i, 1) == Some(n + 1),
    decreases n - i,
{
    reveal_with_fuel(block_end, 2);
    if i < n {
        assert(s[i] != '{' && s[i] != '}');
        lemma_block_closes(s, i + 1, n);
    }
}

proof fn lemma_block_open(s: Seq<char>, i: int)
    requires
        0 <= i <= s.len(),
        forall|k: int| i <= k < s.len() ==> #[trigger] s[k] != '{' && s[k] != '}',
    ensures
        block_end(s, i, 1) is None,
    decreases s.len() - i,
{
    if i < s.len() {
        assert(s[i] != '{' && s[i] != '}');
        lemma_block_open(s, i + 1);
    }
}

/// Where a block ends does not depend on what stands before it.
proof fn lemma_block_behind(start: Seq<char>, rest: Seq<char>, i: int, depth: int)
    requires
        0 <= i <= rest.len(),
    ensures
        block_end(start + rest, start.len() + i, depth) == (match block_end(rest, i, depth) {
            Some(end) => Some(start.len() + end),
            None => None,
        }),
        block_end(rest, i, depth) matches Some(end) ==> i <= end <= rest.len(),
    decreases rest.len() - i,
{
    if depth > 0 && i < rest.len() {
        assert((start + rest)[start.len() + i] == rest[i]);
        if rest[i] == '{' {
            lemma_block_behind(start, rest, i + 1, depth + 1);
        } else if rest[i] == '}' {
            lemma_block_behind(start, rest, i + 1, depth - 1);
        } else {
            lemma_block_behind(start, rest, i + 1, depth);
        }
    }
}

proof fn lemma_space_behind(start: Seq<char>, rest: Seq<char>, i: int)
    requires
        0 <= i <= rest.len(),
    ensures
        skip_space(start + rest, start.len() + i) == start.len() + skip_space(rest, i),
        i <= skip_space(rest, i) <= rest.len(),
    decreases rest.len() - i,
{
    if i < rest.len() {
        assert((start + rest)[start.len() + i] == rest[i]);
        if is_white_space(rest[i]) {
            lemma_space_behind(start, rest, i + 1);
        }
    }
}

proof fn lemma_position_behind(start: Seq<char>, rest: Seq<char>, c: char, i: int)
    requires
        0 <= i <= rest.len(),
    ensures
        position_from(start + rest, c, start.len() + i) == start.len() + position_from(rest, c, i),
    decreases rest.len() - i,
{
    if i < rest.len() {
        assert((start + rest)[start.len() + i] == rest[i]);
        if rest[i] != c {
            lemma_position_behind(start, rest, c, i + 1);
        }
    }
}

/// What is read from a place on does not depend on what stands before it.
proof fn lemma_rules_behind(start: Seq<char>, rest: Seq<char>, i: int, rules: Rules)
    requires
        0 <= i <= rest.len(),
    ensures
        rules_from(start + rest, start.len() + i, rules) == rules_from(rest, i, rules),
    decreases rest.len() - i,
{
    let all = start + rest;
    let n = start.len() as int;
    let first = skip_space(rest, i);
    lemma_space_behind(start, rest, i);
    lemma_position_behind(start, rest, '{', first);
    lemma_position(rest, '{', first);
    let brace = position_from(rest, '{', first);
    if brace < rest.len() {
        lemma_block_behind(start, rest, brace + 1, 1);
        if let Some(end) = block_end(rest, brace + 1, 1) {
            lemma_block_end(rest, brace + 1, 1);
            assert(all.subrange(n + first, n + brace) =~= rest.subrange(first, brace));
            assert(all.subrange(n + brace + 1, n + end - 1) =~= rest.subrange(brace + 1, end - 1));
            lemma_rules_behind(
                start,
                rest,
                end,
                with_rule(
                    rules,
                    rule_selectors(rest.subrange(first, brace)),
                    block_declarations(rest.subrange(brace + 1, end - 1)),
                ),
            );
        }
    }
}

/// A block ends at the brace that closes it: braces inside it come in pairs.
pub proof fn braces_come_in_pairs(
    a: Seq<char>,
    b: Seq<char>,
    c: Seq<char>,
    rest: Seq<char>,
)
    requires
        !a.contains('{') && !a.contains('}'),
        !b.contains('{') && !b.contains('}'),
        !c.contains('{') && !c.contains('}'),
    ensures
        ({
            let inner = a + seq!['{'] + b + seq!['}'] + c;
            block_end(inner + seq!['}'] + rest, 0, 1) == Some(inner.len() as int + 1)
        }),
{
    let inner = a + seq!['{'] + b + seq!['}'] + c;
    let all = inner + seq!['}'] + rest;
    let i = a.len() as int;
    let j = i + 1 + b.len();
    let k = j + 1 + c.len();
    assert(all[i] == '{' && all[j] == '}' && all[k] == '}');
    assert forall|m: int| 0 <= m < i implies #[trigger] all[m] != '{' && all[m] != '}' by {
        assert(all[m] == a[m]);
        assert(a.contains(a[m]));
    }
    assert forall|m: int| i < m < j implies #[trigger] all[m] != '{' && all[m] != '}' by {
        assert(all[m] == b[m - i - 1]);
        assert(b.contains(b[m - i - 1]));
    }
    assert forall|m: int| j < m < k implies #[trigger] all[m] != '{' && all[m] != '}' by {
        assert(all[m] == c[m - j - 1]);
        assert(c.contains(c[m - j - 1]));
    }
    lemma_block_run(all, 0, i, 1);
    lemma_block_run(all, i + 1, j, 2);
    lemma_block_run(all, j + 1, k, 1);
    assert(block_end(all, k + 1, 0) == Some(k + 1));
}

proof fn lemma_block_run(s: Seq<char>, i: int, n: int, depth: int)
    requires
        0 <= i <= n <= s.len(),
        depth > 0,
        forall|k: int| i <= k < n ==> #[trigger] s[k] != '{' && s[k] != '}',
    ensures
        block_end(s, i, depth) == block_end(s, n, depth),
    decreases n - i,
{
    if i < n {
        assert(s[i] != '{' && s[i] != '}');
        lemma_block_run(s, i + 1, n, depth);
    }
}

/// A style sheet is read as the bytes it is made of, from its start on and from
/// nothing, and its comments do not count.
pub proof fn comments_do_not_count_in_a_sheet(
    source: Seq<char>,
    before: Seq<u8>,
    text: Seq<u8>,
    behind: Seq<u8>,
)
    requires
        is_plain(before),
        is_plain(behind),
        forall|k: int| 0 <= k < text.len() ==> !#[trigger] comment_closes(text, k),
    ensures
        encode_utf8(source) == before ==> sheet_rules(source) == rules_from(
            byte_chars(before),
            0,
            Seq::empty(),
        ),
        encode_utf8(source) == before + seq![0x2fu8, 0x2au8] + text + seq![0x2au8, 0x2fu8] + behind
            ==> sheet_rules(source) == rules_from(
            byte_chars(before) + byte_chars(behind),
            0,
            Seq::empty(),
        ),
{
    text_without_comments_is_kept(before);
    text_without_comments_is_kept(behind);
    a_comment_leaves_nothing(before, text, behind);
}

} // verus!
