//! Text for a font that knows ASCII only.

use vstd::prelude::*;

verus! {

/// `c`, or `?` where it is not ASCII.
pub open spec fn ascii_or_mark(c: char) -> char {
    if (c as u32) < 128 {
        c
    } else {
        '?'
    }
}

/// `s` with every character that is not ASCII replaced by `?`.
pub open spec fn sanitized(s: Seq<char>) -> Seq<char> {
    s.map_values(|c: char| ascii_or_mark(c))
}

/// `text` with every character that is not ASCII replaced by `?`.
pub fn sanitize_ascii(text: &str) -> (r: String)
    ensures
        r@ == sanitized(text@),
{
    let mut r = String::new();
    for c in it: text.chars()
        invariant
            it.seq() == text@,
            r@ == sanitized(text@.take(it.index() as int)),
    {
        let kept = if (c as u32) < 128 {
            c
        } else {
            '?'
        };
        r.push(kept);
        proof {
            assert(r@ =~= sanitized(text@.take(it.index() + 1)));
        }
    }
    proof {
        assert(text@.take(text@.len() as int) =~= text@);
    }
    r
}

/// Sanitized text is ASCII, as long as the text it came from, and sanitizing it
/// again changes nothing.
pub proof fn sanitizing_settles(s: Seq<char>)
    ensures
        sanitized(s).len() == s.len(),
        vstd::utf8::is_ascii_chars(sanitized(s)),
        sanitized(sanitized(s)) == sanitized(s),
{
    assert(sanitized(sanitized(s)) =~= sanitized(s));
}

/// Every ASCII character stays at its place, and every other character becomes a
/// question mark there.
pub proof fn characters_keep_their_places(s: Seq<char>, i: int)
    requires
        0 <= i < s.len(),
    ensures
        s[i] as u32 <= 127 ==> sanitized(s)[i] == s[i],
        s[i] as u32 > 127 ==> sanitized(s)[i] == '?',
{
}

} // verus!
