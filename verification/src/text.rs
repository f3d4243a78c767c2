//! Texts as sequences of characters, and what is left of them when they are
//! trimmed.

use vstd::prelude::*;
use vstd::string::*;

verus! {

/// [`String::push`] appends the given character to the end of the string.
pub assume_specification[ String::push ](s: &mut String, c: char)
    ensures
        final(s)@ == old(s)@.push(c),
;

/// The characters of `s`, in order.
pub fn to_chars(s: &str) -> (chars: Vec<char>)
    ensures
        chars@ == s@,
{
    let mut chars: Vec<char> = Vec::new();
    for c in it: s.chars()
        invariant
            it.seq() == s@,
            chars@ == s@.take(it.index() as int),
    {
        chars.push(c);
        assert(s@.take(it.index() + 1) == s@.take(it.index() as int).push(c));
    }
    assert(s@.take(s@.len() as int) == s@);
    chars
}

/// A kind of character that trimming removes.
#[derive(Clone, Copy, PartialEq, Eq, Structural, Debug)]
pub enum Trim {
    /// The characters with the Unicode property `White_Space`.
    WhiteSpace,
    /// One character.
    Char(char),
}

/// Whether `c` has the Unicode property `White_Space`.
pub open spec fn is_white_space(c: char) -> bool {
    ||| '\u{9}' <= c <= '\u{d}'
    ||| c == ' '
    ||| c == '\u{85}'
    ||| c == '\u{a0}'
    ||| c == '\u{1680}'
    ||| '\u{2000}' <= c <= '\u{200a}'
    ||| c == '\u{2028}'
    ||| c == '\u{2029}'
    ||| c == '\u{202f}'
    ||| c == '\u{205f}'
    ||| c == '\u{3000}'
}

impl Trim {
    /// Whether trimming of this kind removes `c`.
    pub open spec fn drops(self, c: char) -> bool {
        match self {
            Trim::WhiteSpace => is_white_space(c),
            Trim::Char(x) => c == x,
        }
    }

    fn removes(self, c: char) -> (r: bool)
        ensures
            r == self.drops(c),
    {
        match self {
            Trim::WhiteSpace => {
                ('\u{9}' <= c && c <= '\u{d}') || c == ' ' || c == '\u{85}' || c == '\u{a0}'
                    || c == '\u{1680}' || ('\u{2000}' <= c && c <= '\u{200a}') || c == '\u{2028}'
                    || c == '\u{2029}' || c == '\u{202f}' || c == '\u{205f}' || c == '\u{3000}'
            },
            Trim::Char(x) => c == x,
        }
    }
}

/// `s` without the characters of the given kind that it starts with.
pub open spec fn trimmed_start(s: Seq<char>, trim: Trim) -> Seq<char>
    decreases s.len(),
{
    if s.len() > 0 && trim.drops(s.first()) {
        trimmed_start(s.drop_first(), trim)
    } else {
        s
    }
}

/// `s` without the characters of the given kind that it ends with.
pub open spec fn trimmed_end(s: Seq<char>, trim: Trim) -> Seq<char>
    decreases s.len(),
{
    if s.len() > 0 && trim.drops(s.last()) {
        trimmed_end(s.drop_last(), trim)
    } else {
        s
    }
}

/// Removes the characters of the given kind that `s` starts with.
pub fn trim_start(s: &str, trim: Trim) -> (r: String)
    ensures
        r@ == trimmed_start(s@, trim),
{
    let chars = to_chars(s);
    let mut from: usize = 0;
    assert(s@.skip(0) == s@);
    while from < chars.len() && trim.removes(chars[from])
        invariant
            chars@ == s@,
            from <= chars.len(),
            trimmed_start(s@.skip(from as int), trim) == trimmed_start(s@, trim),
        decreases chars.len() - from,
    {
        assert(s@.skip(from as int).drop_first() == s@.skip(from + 1));
        from += 1;
    }
    s.substring_char(from, chars.len()).to_owned()
}

/// Removes the characters of the given kind that `s` ends with.
pub fn trim_end(s: &str, trim: Trim) -> (r: String)
    ensures
        r@ == trimmed_end(s@, trim),
{
    let chars = to_chars(s);
    let mut to: usize = chars.len();
    assert(s@.take(to as int) == s@);
    while to > 0 && trim.removes(chars[to - 1])
        invariant
            chars@ == s@,
            to <= chars.len(),
            trimmed_end(s@.take(to as int), trim) == trimmed_end(s@, trim),
        decreases to,
    {
        assert(s@.take(to as int).drop_last() == s@.take(to - 1));
        to -= 1;
    }
    assert(s@.take(to as int) == s@.subrange(0, to as int));
    s.substring_char(0, to).to_owned()
}

/// `s` without the run of `c` at its start and the run of `c` at its end.
pub open spec fn trimmed_matches(s: Seq<char>, c: char) -> Seq<char> {
    trimmed_end(trimmed_start(s, Trim::Char(c)), Trim::Char(c))
}

/// Removes the run of `c` at the start of `s` and the one at its end.
pub fn trim_matches(s: &str, c: char) -> (r: String)
    ensures
        r@ == trimmed_matches(s@, c),
{
    let rest = trim_start(s, Trim::Char(c));
    trim_end(rest.as_str(), Trim::Char(c))
}

/// Whether the last character of `s` is `c`.
pub open spec fn ends_with_char(s: Seq<char>, c: char) -> bool {
    s.len() > 0 && s.last() == c
}

/// Tells whether the last character of `s` is `c`.
pub fn ends_with(s: &str, c: char) -> (r: bool)
    ensures
        r == ends_with_char(s@, c),
{
    let len: usize = s.unicode_len();
    len > 0 && s.get_char(len - 1) == c
}

} // verus!
