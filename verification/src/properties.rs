//! What the properties of windows mean: titles, class names, icons and lists of
//! windows.

use crate::icons::{parse_wm_icon, property_icon, shown, Icon, IconImage};
use crate::text::{
    blank_texts_trim_to_nothing, chars_of, from_utf8, from_utf8_lossy, is_blank, lossy_utf8,
    lowercase, lowercased, replace, replaced, same_text, string_of, trim, trimmed, views,
};
use vstd::prelude::*;
use vstd::slice::slice_subrange;
use vstd::utf8::{decode_utf8, valid_utf8};

verus! {

/// The bytes of a reply, if there was one.
pub open spec fn some_bytes(reply: Option<&[u8]>) -> Option<Seq<u8>> {
    match reply {
        Some(bytes) => Some(bytes@),
        None => None,
    }
}

/// The words of a reply, if there was one.
pub open spec fn some_words(reply: Option<&[u32]>) -> Option<Seq<u32>> {
    match reply {
        Some(words) => Some(words@),
        None => None,
    }
}

/// The view of a text, if there is one.
pub open spec fn some_string(text: Option<String>) -> Option<Seq<char>> {
    match text {
        Some(text) => Some(text@),
        None => None,
    }
}

/// The first position of a zero byte from `from` on, or the number of bytes.
pub open spec fn zero_from(bytes: Seq<u8>, from: int) -> int
    decreases bytes.len() - from,
{
    if from >= bytes.len() {
        bytes.len() as int
    } else if bytes[from] == 0 {
        from
    } else {
        zero_from(bytes, from + 1)
    }
}

/// The bytes before the first zero byte.
pub open spec fn until_zero(bytes: Seq<u8>) -> Seq<u8> {
    bytes.take(zero_from(bytes, 0))
}

/// The first position of a zero byte from `from` on, or the number of bytes.
fn find_zero(bytes: &[u8], from: usize) -> (r: usize)
    requires
        from <= bytes@.len(),
    ensures
        r == zero_from(bytes@, from as int),
        from <= r <= bytes@.len(),
        r < bytes@.len() ==> bytes@[r as int] == 0,
{
    let mut i: usize = from;
    while i < bytes.len()
        invariant
            from <= i <= bytes@.len(),
            zero_from(bytes@, from as int) == zero_from(bytes@, i as int),
        decreases bytes@.len() - i,
    {
        if bytes[i] == 0 {
            return i;
        }
        i = i + 1;
    }
    i
}

/// The text of a UTF-8 property: what stands before the first zero byte, if the
/// property is there, is not empty and is valid.
pub open spec fn utf8_text(reply: Option<Seq<u8>>) -> Option<Seq<char>> {
    match reply {
        Some(bytes) => if bytes.len() > 0 && valid_utf8(until_zero(bytes)) {
            Some(decode_utf8(until_zero(bytes)))
        } else {
            None
        },
        None => None,
    }
}

/// The text of a UTF-8 property.
pub fn utf8_property(reply: Option<&[u8]>) -> (r: Option<String>)
    ensures
        some_string(r) == utf8_text(some_bytes(reply)),
{
    let bytes: &[u8] = match reply {
        Some(bytes) => bytes,
        None => {
            return None;
        },
    };
    if bytes.len() == 0 {
        return None;
    }
    let end = find_zero(bytes, 0);
    let value = slice_subrange(bytes, 0, end);
    proof {
        assert(value@ =~= until_zero(bytes@));
    }
    from_utf8(vstd::slice::slice_to_vec(value))
}

/// The text of a property in an unknown encoding: what stands before the first
/// zero byte, if that is not empty, with invalid parts replaced.
pub open spec fn plain_text(reply: Option<Seq<u8>>) -> Option<Seq<char>> {
    match reply {
        Some(bytes) => if until_zero(bytes).len() > 0 {
            Some(lossy_utf8(until_zero(bytes)))
        } else {
            None
        },
        None => None,
    }
}

/// The text of a property in an unknown encoding.
pub fn string_property(reply: Option<&[u8]>) -> (r: Option<String>)
    ensures
        some_string(r) == plain_text(some_bytes(reply)),
{
    let bytes: &[u8] = match reply {
        Some(bytes) => bytes,
        None => {
            return None;
        },
    };
    let end = find_zero(bytes, 0);
    let value = slice_subrange(bytes, 0, end);
    proof {
        assert(value@ =~= until_zero(bytes@));
    }
    if value.len() == 0 {
        return None;
    }
    Some(from_utf8_lossy(value))
}

/// A property that a title can come from.
#[derive(Clone, Copy, Debug, PartialEq, Eq, Structural)]
pub enum TitleProperty {
    /// `_NET_WM_VISIBLE_NAME`, in UTF-8.
    VisibleName,
    /// `_NET_WM_NAME`, in UTF-8.
    Name,
    /// `WM_NAME`, in whatever encoding.
    PlainName,
}

/// What to do for a title.
#[derive(Debug)]
pub enum TitleStep {
    /// Read this property.
    Ask(TitleProperty),
    /// Take this title.
    Done(String),
}

/// The text of a property that a title can come from.
pub open spec fn title_text(property: TitleProperty, reply: Option<Seq<u8>>) -> Option<Seq<char>> {
    match property {
        TitleProperty::VisibleName => utf8_text(reply),
        TitleProperty::Name => utf8_text(reply),
        TitleProperty::PlainName => plain_text(reply),
    }
}

/// Whether a text will do as a title: it is not blank.
pub open spec fn is_title(text: Option<Seq<char>>) -> bool {
    text is Some && trim(text->0).len() > 0
}

/// The digit for a value under sixteen.
pub open spec fn hex_digit(value: int) -> char {
    if value < 10 {
        (('0' as u32) + value) as char
    } else {
        (('a' as u32) + (value - 10)) as char
    }
}

/// The hexadecimal digits of a number, without leading zeros.
pub open spec fn hex_digits(value: nat) -> Seq<char>
    decreases value,
{
    if value < 16 {
        seq![hex_digit(value as int)]
    } else {
        hex_digits(value / 16).push(hex_digit((value % 16) as int))
    }
}

/// The title of a window without a name.
pub open spec fn window_number(window: u32) -> Seq<char> {
    seq!['0', 'x'] + hex_digits(window as nat)
}

/// The title of a window, given the properties it can come from: the first one
/// that is not blank, or else its number.
pub open spec fn title_of(
    window: u32,
    visible_name: Option<Seq<u8>>,
    name: Option<Seq<u8>>,
    plain_name: Option<Seq<u8>>,
) -> Seq<char> {
    if is_title(utf8_text(visible_name)) {
        utf8_text(visible_name)->0
    } else if is_title(utf8_text(name)) {
        utf8_text(name)->0
    } else if is_title(plain_text(plain_name)) {
        plain_text(plain_name)->0
    } else {
        window_number(window)
    }
}

/// The digit for a value under sixteen.
fn digit(value: u32) -> (r: char)
    requires
        value < 16,
    ensures
        r == hex_digit(value as int),
{
    if value < 10 {
        (48 + value as u8) as char
    } else {
        (87 + value as u8) as char
    }
}

/// The title of a window without a name.
pub fn numbered_title(window: u32) -> (r: String)
    ensures
        r@ == window_number(window),
{
    let mut reversed: Vec<char> = Vec::new();
    let mut rest: u32 = window;
    let ghost mut tail: Seq<char> = Seq::empty();
    while rest >= 16
        invariant
            hex_digits(window as nat) == hex_digits(rest as nat) + tail,
            reversed@.len() == tail.len(),
            forall|k: int|
                0 <= k < tail.len() ==> #[trigger] tail[k] == reversed@[tail.len() - 1 - k],
        decreases rest,
    {
        let d = digit(rest % 16);
        proof {
            let longer = seq![d] + tail;
            assert(hex_digits(rest as nat) + tail =~= hex_digits((rest / 16) as nat) + longer);
            tail = longer;
        }
        reversed.push(d);
        rest = rest / 16;
    }
    let first = digit(rest);
    let mut text: Vec<char> = Vec::new();
    text.push('0');
    text.push('x');
    text.push(first);
    let mut i: usize = reversed.len();
    proof {
        assert(text@ =~= seq!['0', 'x', first] + tail.take(0));
    }
    while i > 0
        invariant
            i <= reversed@.len(),
            reversed@.len() == tail.len(),
            forall|k: int|
                0 <= k < tail.len() ==> #[trigger] tail[k] == reversed@[tail.len() - 1 - k],
            text@ == seq!['0', 'x', first] + tail.take(tail.len() - i),
        decreases i,
    {
        i = i - 1;
        text.push(reversed[i]);
        proof {
            assert(tail[tail.len() - 1 - i] == reversed@[i as int]);
            assert(text@ =~= seq!['0', 'x', first] + tail.take(tail.len() - i));
        }
    }
    proof {
        assert(tail.take(tail.len() as int) =~= tail);
        assert(text@ =~= window_number(window));
    }
    string_of(text.as_slice())
}

/// Whether a text will do as a title.
fn usable(text: &Option<String>) -> (r: bool)
    ensures
        r == is_title(some_string(*text)),
{
    match text {
        Some(text) => {
            let chars = chars_of(text.as_str());
            trimmed(chars.as_slice()).len() > 0
        },
        None => false,
    }
}

/// What to do once a property that a title can come from has been read.
pub fn title_step(window: u32, asked: TitleProperty, reply: Option<&[u8]>) -> (r: TitleStep)
    ensures
        match r {
            TitleStep::Done(title) => if is_title(title_text(asked, some_bytes(reply))) {
                title@ == title_text(asked, some_bytes(reply))->0
            } else {
                asked is PlainName && title@ == window_number(window)
            },
            TitleStep::Ask(next) => {
                &&& !is_title(title_text(asked, some_bytes(reply)))
                &&& match asked {
                    TitleProperty::VisibleName => next is Name,
                    TitleProperty::Name => next is PlainName,
                    TitleProperty::PlainName => false,
                }
            },
        },
{
    let text = match asked {
        TitleProperty::VisibleName => utf8_property(reply),
        TitleProperty::Name => utf8_property(reply),
        TitleProperty::PlainName => string_property(reply),
    };
    let good = usable(&text);
    match text {
        Some(text) => {
            if good {
                return TitleStep::Done(text);
            }
        },
        None => {},
    }
    match asked {
        TitleProperty::VisibleName => TitleStep::Ask(TitleProperty::Name),
        TitleProperty::Name => TitleStep::Ask(TitleProperty::PlainName),
        TitleProperty::PlainName => TitleStep::Done(numbered_title(window)),
    }
}

/// `names` with one more name, unless it is there already.
pub open spec fn with_name(names: Seq<Seq<char>>, name: Seq<char>) -> Seq<Seq<char>> {
    if names.contains(name) {
        names
    } else {
        names.push(name)
    }
}

/// `names` with what a part of a class property stands for: the text itself, in
/// lower case, and in lower case with `-` for each space.
pub open spec fn with_class(names: Seq<Seq<char>>, part: Seq<u8>) -> Seq<Seq<char>> {
    let text = trim(lossy_utf8(part));
    if part.len() == 0 || text.len() == 0 {
        names
    } else {
        with_name(
            with_name(with_name(names, text), lowercase(text)),
            lowercase(replace(text, ' ', seq!['-'])),
        )
    }
}

/// `names` with what the parts of a class property from `from` on stand for.
pub open spec fn with_classes(names: Seq<Seq<char>>, bytes: Seq<u8>, from: int) -> Seq<Seq<char>>
    decreases bytes.len() - from,
{
    let at = zero_from(bytes, from);
    if 0 <= from <= at < bytes.len() {
        with_classes(with_class(names, bytes.subrange(from, at)), bytes, at + 1)
    } else {
        with_class(names, bytes.skip(from))
    }
}

/// The names that a class property stands for, each one once.
pub open spec fn class_names(reply: Option<Seq<u8>>) -> Seq<Seq<char>> {
    match reply {
        Some(bytes) => with_classes(Seq::empty(), bytes, 0),
        None => Seq::empty(),
    }
}

/// Adds a name unless it is there already.
pub(crate) fn add_name(names: &mut Vec<String>, name: String)
    ensures
        views(final(names)@) == with_name(views(old(names)@), name@),
{
    let ghost before = names@;
    let mut i: usize = 0;
    while i < names.len()
        invariant
            i <= names@.len(),
            names@ == before,
            forall|k: int| 0 <= k < i ==> #[trigger] before[k]@ != name@,
        decreases names@.len() - i,
    {
        if same_text(names[i].as_str(), name.as_str()) {
            proof {
                assert(views(before)[i as int] == name@);
            }
            return ;
        }
        i = i + 1;
    }
    proof {
        assert forall|k: int| 0 <= k < views(before).len() implies views(before)[k] != name@ by {
            assert(before[k]@ != name@);
        }
        assert(views(before.push(name)) =~= views(before).push(name@));
    }
    names.push(name);
}

/// Adds what a part of a class property stands for.
fn add_class(names: &mut Vec<String>, part: &[u8])
    ensures
        views(final(names)@) == with_class(views(old(names)@), part@),
{
    if part.len() == 0 {
        return ;
    }
    let lossy = from_utf8_lossy(part);
    let chars = chars_of(lossy.as_str());
    let text = trimmed(chars.as_slice());
    if text.len() == 0 {
        return ;
    }
    add_name(names, string_of(text));
    add_name(names, lowercased(text));
    let mut dash: Vec<char> = Vec::new();
    dash.push('-');
    proof {
        assert(dash@ =~= seq!['-']);
    }
    let dashed = replaced(text, ' ', dash.as_slice());
    add_name(names, lowercased(dashed.as_slice()));
}

/// The names that a class property stands for. Each name comes once, in the
/// order in which they are met.
pub fn window_class_names(reply: Option<&[u8]>) -> (r: Vec<String>)
    ensures
        views(r@) == class_names(some_bytes(reply)),
{
    let mut names: Vec<String> = Vec::new();
    proof {
        assert(views(names@) =~= Seq::<Seq<char>>::empty());
    }
    let bytes: &[u8] = match reply {
        Some(bytes) => bytes,
        None => {
            return names;
        },
    };
    let mut from: usize = 0;
    let mut at = find_zero(bytes, 0);
    while at < bytes.len()
        invariant
            from <= at <= bytes@.len(),
            at == zero_from(bytes@, from as int),
            with_classes(views(names@), bytes@, from as int) == with_classes(
                Seq::empty(),
                bytes@,
                0,
            ),
        decreases bytes@.len() - from,
    {
        add_class(&mut names, slice_subrange(bytes, from, at));
        from = at + 1;
        at = find_zero(bytes, from);
    }
    let rest = slice_subrange(bytes, from, bytes.len());
    proof {
        assert(rest@ =~= bytes@.skip(from as int));
    }
    add_class(&mut names, rest);
    names
}

/// The windows of a list that are there: all but the zeros.
pub open spec fn nonzero(words: Seq<u32>) -> Seq<u32> {
    words.filter(|w: u32| w != 0)
}

/// The windows that a property lists; none if it is missing.
pub open spec fn listed(reply: Option<Seq<u32>>) -> Seq<u32> {
    match reply {
        Some(words) => nonzero(words),
        None => Seq::empty(),
    }
}

/// The windows that a property lists.
pub fn window_list(reply: Option<&[u32]>) -> (r: Vec<u32>)
    ensures
        r@ == listed(some_words(reply)),
{
    let mut list: Vec<u32> = Vec::new();
    let words: &[u32] = match reply {
        Some(words) => words,
        None => {
            return list;
        },
    };
    let mut i: usize = 0;
    proof {
        reveal_with_fuel(Seq::filter, 1);
        assert(words@.take(0) =~= Seq::<u32>::empty());
        assert(list@ =~= nonzero(words@.take(0)));
    }
    while i < words.len()
        invariant
            i <= words@.len(),
            list@ == nonzero(words@.take(i as int)),
        decreases words@.len() - i,
    {
        proof {
            reveal_with_fuel(Seq::filter, 1);
            let next = words@.take(i + 1);
            assert(next.drop_last() =~= words@.take(i as int));
            assert(next.last() == words@[i as int]);
        }
        if words[i] != 0 {
            list.push(words[i]);
        }
        i = i + 1;
    }
    proof {
        assert(words@.take(i as int) =~= words@);
    }
    list
}

/// The icon that an icon property holds, if it holds more than a size.
pub open spec fn window_icon_of(reply: Option<Seq<u32>>, limit: int) -> Option<IconImage> {
    match reply {
        Some(words) => if words.len() < 3 {
            None
        } else {
            property_icon(words, limit)
        },
        None => None,
    }
}

/// The icon that an icon property holds.
pub fn window_icon(reply: Option<&[u32]>, max_icon_size: u16) -> (r: Option<Icon>)
    ensures
        shown(r) == window_icon_of(some_words(reply), max_icon_size as int),
{
    match reply {
        Some(words) => {
            if words.len() < 3 {
                None
            } else {
                parse_wm_icon(words, max_icon_size)
            }
        },
        None => None,
    }
}

/// The active window that a property names: its first word, unless that is zero.
pub open spec fn active_of(reply: Option<Seq<u32>>) -> Option<u32> {
    match reply {
        Some(words) => if words.len() > 0 && words[0] != 0 {
            Some(words[0])
        } else {
            None
        },
        None => None,
    }
}

/// The active window that a property names.
pub fn active_window(reply: Option<&[u32]>) -> (r: Option<u32>)
    ensures
        r == active_of(some_words(reply)),
{
    match reply {
        Some(words) => {
            if words.len() > 0 && words[0] != 0 {
                Some(words[0])
            } else {
                None
            }
        },
        None => None,
    }
}

/// The words of the message that asks for a window to become active: that an
/// application asks, at no particular time, and for which window.
pub fn activation_message(window: u32) -> (r: [u32; 5])
    ensures
        r@ == seq![1u32, 0, window, 0, 0],
{
    let message: [u32; 5] = [1, 0, window, 0, 0];
    proof {
        assert(message@ =~= seq![1u32, 0, window, 0, 0]);
    }
    message
}

/// The text of a property goes up to its first zero byte, or to its end.
pub proof fn texts_end_at_the_first_zero(text: Seq<u8>, rest: Seq<u8>)
    requires
        !text.contains(0),
    ensures
        until_zero(text) == text,
        until_zero(text.push(0) + rest) == text,
{
    let all = text.push(0) + rest;
    assert forall|k: int| 0 <= k < text.len() implies #[trigger] text[k] != 0 by {
        assert(text.contains(text[k]));
    }
    assert forall|k: int| 0 <= k < text.len() implies #[trigger] all[k] != 0 by {
        assert(all[k] == text[k]);
    }
    assert(all[text.len() as int] == 0);
    lemma_zero_is(text, 0, text.len() as int);
    lemma_zero_is(all, 0, text.len() as int);
    assert(text.take(text.len() as int) =~= text);
    assert(all.take(text.len() as int) =~= text);
}

proof fn lemma_zero_is(bytes: Seq<u8>, from: int, at: int)
    requires
        0 <= from <= at <= bytes.len(),
        at < bytes.len() ==> bytes[at] == 0,
        forall|k: int| from <= k < at ==> #[trigger] bytes[k] != 0,
    ensures
        zero_from(bytes, from) == at,
    decreases at - from,
{
    if from < at {
        assert(bytes[from] != 0);
        lemma_zero_is(bytes, from + 1, at);
    }
}

/// Whether a text can be shown as a title: it is there, and not only white space.
pub open spec fn can_be_shown(text: Option<Seq<char>>) -> bool {
    text matches Some(text) && !is_blank(text)
}

/// The title of a window is the first of its three names that can be shown, in the
/// order visible name, name, plain name; a window without such a name is shown by
/// its number.
pub proof fn the_first_name_that_can_be_shown_is_the_title(
    window: u32,
    visible_name: Option<Seq<u8>>,
    name: Option<Seq<u8>>,
    plain_name: Option<Seq<u8>>,
)
    ensures
        ({
            let first = utf8_text(visible_name);
            let second = utf8_text(name);
            let third = plain_text(plain_name);
            let title = title_of(window, visible_name, name, plain_name);
            &&& can_be_shown(first) ==> Some(title) == first
            &&& !can_be_shown(first) && can_be_shown(second) ==> Some(title) == second
            &&& !can_be_shown(first) && !can_be_shown(second) && can_be_shown(third) ==> Some(title)
                == third
            &&& !can_be_shown(first) && !can_be_shown(second) && !can_be_shown(third) ==> title
                == window_number(window)
        }),
{
    if let Some(text) = utf8_text(visible_name) {
        blank_texts_trim_to_nothing(text);
    }
    if let Some(text) = utf8_text(name) {
        blank_texts_trim_to_nothing(text);
    }
    if let Some(text) = plain_text(plain_name) {
        blank_texts_trim_to_nothing(text);
    }
}

/// A name in UTF-8 is what its bytes up to the first zero say, if they are valid; a
/// plain name counts whatever its bytes are, if there are any.
pub proof fn names_are_read_up_to_their_end(text: Seq<u8>, rest: Seq<u8>)
    requires
        !text.contains(0),
    ensures
        ({
            let whole = Some(text.push(0) + rest);
            &&& utf8_text(None) is None && plain_text(None) is None
            &&& utf8_text(Some(Seq::empty())) is None
            &&& valid_utf8(text) ==> utf8_text(whole) == Some(decode_utf8(text))
            &&& !valid_utf8(text) ==> utf8_text(whole) is None
            &&& text.len() > 0 ==> plain_text(whole) == Some(lossy_utf8(text)) && plain_text(
                Some(text),
            ) == Some(lossy_utf8(text))
            &&& text.len() > 0 && valid_utf8(text) ==> utf8_text(Some(text)) == Some(
                decode_utf8(text),
            )
            &&& text.len() == 0 ==> plain_text(whole) is None
        }),
{
    texts_end_at_the_first_zero(text, rest);
}

/// The number of a window is written in hexadecimal: behind `0x` stand the digits
/// that read back as the number, the first of them no zero unless it is the only
/// one, and no capital letter among them.
pub proof fn window_numbers_read_back(window: u32, i: int)
    ensures
        window_number(window).len() >= 3,
        window_number(window)[0] == '0',
        window_number(window)[1] == 'x',
        crate::values::hex_digits(window_number(window).skip(2)) == Some(window as int),
        window_number(window)[2] == '0' ==> window == 0,
        2 <= i < window_number(window).len() ==> !('A' <= window_number(window)[i] <= 'Z'),
{
    lemma_digits_read_back(window as nat);
    assert(window_number(window).skip(2) =~= hex_digits(window as nat));
    if 2 <= i < window_number(window).len() {
        assert(window_number(window)[i] == hex_digits(window as nat)[i - 2]);
    }
    assert(window_number(window)[2] == hex_digits(window as nat)[0]);
}

proof fn lemma_digits_read_back(value: nat)
    ensures
        hex_digits(value).len() > 0,
        crate::values::hex_digits(hex_digits(value)) == Some(value as int),
        hex_digits(value)[0] == '0' ==> value == 0,
        forall|i: int|
            0 <= i < hex_digits(value).len() ==> !('A' <= #[trigger] hex_digits(value)[i] <= 'Z'),
    decreases value,
{
    reveal_with_fuel(crate::values::hex_digits, 2);
    let digits = hex_digits(value);
    if value < 16 {
        assert(digits.drop_last() =~= Seq::<char>::empty());
        assert(digits.last() == hex_digit(value as int));
    } else {
        lemma_digits_read_back(value / 16);
        let high = hex_digits(value / 16);
        assert(digits.drop_last() =~= high);
        assert(digits.last() == hex_digit((value % 16) as int));
        assert(digits[0] == high[0]);
        assert forall|i: int| 0 <= i < digits.len() implies !('A' <= #[trigger] digits[i]
            <= 'Z') by {
            if i < high.len() {
                assert(digits[i] == high[i]);
            }
        }
    }
}

/// The classes of a window are what stands between the zero bytes of the property:
/// the names that two parts give are those of the first and then those of the
/// second.
pub proof fn classes_are_read_one_by_one(
    names: Seq<Seq<char>>,
    first: Seq<u8>,
    rest: Seq<u8>,
)
    requires
        !first.contains(0),
    ensures
        with_classes(names, first, 0) == with_class(names, first),
        with_classes(names, first.push(0) + rest, 0) == with_classes(
            with_class(names, first),
            rest,
            0,
        ),
        class_names(Some(rest)) == with_classes(Seq::empty(), rest, 0),
        class_names(None).len() == 0,
{
    let all = first.push(0) + rest;
    let n = first.len() as int;
    assert forall|k: int| 0 <= k < n implies #[trigger] first[k] != 0 by {
        assert(first.contains(first[k]));
    }
    assert forall|k: int| 0 <= k < n implies #[trigger] all[k] != 0 by {
        assert(all[k] == first[k]);
    }
    assert(all[n] == 0);
    lemma_zero_is(first, 0, n);
    lemma_zero_is(all, 0, n);
    assert(first.skip(0) =~= first);
    assert(all.subrange(0, n) =~= first);
    lemma_classes_behind(with_class(names, first), first.push(0), rest, 0);
}

proof fn lemma_zero_bounds(bytes: Seq<u8>, from: int)
    requires
        0 <= from <= bytes.len(),
    ensures
        from <= zero_from(bytes, from) <= bytes.len(),
        zero_from(bytes, from) < bytes.len() ==> bytes[zero_from(bytes, from)] == 0,
        forall|k: int| from <= k < zero_from(bytes, from) ==> #[trigger] bytes[k] != 0,
    decreases bytes.len() - from,
{
    if from < bytes.len() && bytes[from] != 0 {
        lemma_zero_bounds(bytes, from + 1);
    }
}

proof fn lemma_classes_behind(names: Seq<Seq<char>>, start: Seq<u8>, rest: Seq<u8>, from: int)
    requires
        0 <= from <= rest.len(),
    ensures
        with_classes(names, start + rest, start.len() + from) == with_classes(names, rest, from),
    decreases rest.len() - from,
{
    let all = start + rest;
    let n = start.len() as int;
    let at = zero_from(rest, from);
    lemma_zero_bounds(rest, from);
    assert forall|k: int| n + from <= k < n + at implies #[trigger] all[k] != 0 by {
        assert(all[k] == rest[k - n]);
    }
    if at < rest.len() {
        assert(all[n + at] == rest[at]);
    }
    lemma_zero_is(all, n + from, n + at);
    if at < rest.len() {
        assert(all.subrange(n + from, n + at) =~= rest.subrange(from, at));
        lemma_classes_behind(with_class(names, rest.subrange(from, at)), start, rest, at + 1);
    } else {
        assert(all.skip(n + from) =~= rest.skip(from));
    }
}

/// A class that is not blank gives three names: itself, itself in lower case, and
/// that with dashes for spaces. Each name is listed once, and names that were
/// listed before stay in their places; a blank class gives none.
pub proof fn a_class_gives_its_three_names(
    names: Seq<Seq<char>>,
    part: Seq<u8>,
    name: Seq<char>,
)
    requires
        names.no_duplicates(),
        part.len() > 0,
    ensures
        ({
            let text = trim(lossy_utf8(part));
            let after = with_class(names, part);
            &&& after.no_duplicates()
            &&& after.len() >= names.len() && after.take(names.len() as int) == names
            &&& is_blank(lossy_utf8(part)) ==> after == names
            &&& !is_blank(lossy_utf8(part)) ==> (after.contains(name) <==> names.contains(name)
                || name == text || name == lowercase(text) || name == lowercase(
                replace(text, ' ', seq!['-']),
            ))
        }),
{
    let text = trim(lossy_utf8(part));
    blank_texts_trim_to_nothing(lossy_utf8(part));
    let one = with_name(names, text);
    let two = with_name(one, lowercase(text));
    lemma_with_name(names, text, name);
    lemma_with_name(one, lowercase(text), name);
    lemma_with_name(two, lowercase(replace(text, ' ', seq!['-'])), name);
    if text.len() > 0 {
        let three = with_name(two, lowercase(replace(text, ' ', seq!['-'])));
        assert(three.take(names.len() as int) =~= two.take(names.len() as int));
        assert(two.take(names.len() as int) =~= one.take(names.len() as int));
    } else {
        assert(names.take(names.len() as int) =~= names);
    }
}

/// A name is added once, behind the others.
pub(crate) proof fn lemma_with_name(names: Seq<Seq<char>>, added: Seq<char>, name: Seq<char>)
    requires
        names.no_duplicates(),
    ensures
        with_name(names, added).no_duplicates(),
        with_name(names, added).len() >= names.len(),
        with_name(names, added).take(names.len() as int) == names,
        with_name(names, added).contains(name) <==> names.contains(name) || name == added,
{
    let after = with_name(names, added);
    assert(after.take(names.len() as int) =~= names);
    if !names.contains(added) {
        assert(after[names.len() as int] == added);
        assert forall|i: int, j: int|
            0 <= i < after.len() && 0 <= j < after.len() && i != j implies after[i] != after[j] by {
            if i < names.len() {
                assert(names.contains(names[i]));
            }
            if j < names.len() {
                assert(names.contains(names[j]));
            }
        }
        if names.contains(name) {
            let i = choose|i: int| 0 <= i < names.len() && names[i] == name;
            assert(after[i] == name);
        }
        if after.contains(name) && name != added {
            let i = choose|i: int| 0 <= i < after.len() && after[i] == name;
            assert(names[i] == name);
        }
    }
}

/// A list of windows is read word by word: zeroes are left out, and all other
/// words stay in their order.
pub proof fn windows_are_listed_word_by_word(a: Seq<u32>, b: Seq<u32>, window: u32)
    ensures
        listed(Some(a + b)) == listed(Some(a)) + listed(Some(b)),
        listed(Some(seq![0u32])).len() == 0,
        window != 0 ==> listed(Some(seq![window])) == seq![window],
        listed(Some(Seq::empty())).len() == 0,
        listed(None).len() == 0,
{
    reveal_with_fuel(Seq::filter, 2);
    Seq::<u32>::filter_distributes_over_add(a, b, |w: u32| w != 0);
    assert(seq![window].drop_last() =~= Seq::<u32>::empty());
    assert(seq![0u32].drop_last() =~= Seq::<u32>::empty());
    assert(Seq::<u32>::empty().push(window) =~= seq![window]);
}

/// A window's own icon is what its property holds; fewer words than an image needs
/// hold none.
pub proof fn a_window_shows_its_own_icon(words: Seq<u32>, limit: int)
    ensures
        window_icon_of(Some(words), limit) == property_icon(words, limit),
        window_icon_of(None, limit) is None,
{
    if words.len() < 3 {
        crate::icons::small_properties_hold_no_image(words);
    }
}

/// The active window is the first word of the property, unless that is zero.
pub proof fn the_first_word_is_the_active_window(window: u32, rest: Seq<u32>)
    requires
        window != 0,
    ensures
        active_of(Some(seq![window] + rest)) == Some(window),
        active_of(Some(seq![0u32] + rest)) is None,
        active_of(Some(Seq::empty())) is None,
        active_of(None) is None,
{
    assert((seq![window] + rest)[0] == window);
    assert((seq![0u32] + rest)[0] == 0);
}

} // verus!
