//! What is to be expected of texts: of trimmed ones, of paths in quotes or
//! brackets, of extensions, and of lines and columns.

use crate::captures::path_in;
use crate::data::kind_of;
use crate::edit::{offset_of, skip_columns, skip_lines, text_width, utf8_width};
use crate::text::{
    ends_with_char, is_white_space, trimmed_end, trimmed_matches, trimmed_start, Trim,
};
use crate::tracking::{column_of, lemma_line_mono, line_of};
use crate::types::Position;
use crate::url;
use crate::utils::{last_index, path_extension, uri_extension};
use vstd::prelude::*;
use vstd::string::*;
use vstd::utf8::{char_is_scalar, encode_scalar, encode_utf8};

verus! {

/// Whether `r` is what is left of `s` once all of its ends that satisfy `drop`
/// are cut off.
pub open spec fn is_stripped(s: Seq<char>, drop: spec_fn(char) -> bool, r: Seq<char>) -> bool {
    exists|from: int, to: int|
        {
            &&& 0 <= from <= to <= s.len()
            &&& r == #[trigger] s.subrange(from, to)
            &&& forall|i: int| 0 <= i < from || to <= i < s.len() ==> drop(#[trigger] s[i])
            &&& from < to ==> !drop(s[from]) && !drop(s[to - 1])
        }
}

/// Whether `r` is what is left of `s` once `c` is cut off at its ends.
pub open spec fn is_stripped_of(s: Seq<char>, c: char, r: Seq<char>) -> bool {
    is_stripped(s, |x: char| x == c, r)
}

/// Whether `c` has the Unicode property `White_Space`, by its number.
pub open spec fn is_blank(c: char) -> bool {
    let n = c as int;
    ||| 9 <= n <= 13
    ||| n == 32
    ||| n == 0x85
    ||| n == 0xa0
    ||| n == 0x1680
    ||| 0x2000 <= n <= 0x200a
    ||| n == 0x2028
    ||| n == 0x2029
    ||| n == 0x202f
    ||| n == 0x205f
    ||| n == 0x3000
}

/// Trimming a start cuts off as many characters as there are of the given
/// kind in front, and no more.
pub proof fn lemma_trimmed_start(s: Seq<char>, trim: Trim) -> (n: int)
    ensures
        0 <= n <= s.len(),
        trimmed_start(s, trim) == s.skip(n),
        forall|i: int| 0 <= i < n ==> trim.drops(#[trigger] s[i]),
        n < s.len() ==> !trim.drops(s[n]),
    decreases s.len(),
{
    if s.len() > 0 && trim.drops(s.first()) {
        let rest = s.drop_first();
        let n = lemma_trimmed_start(rest, trim);
        assert(rest.skip(n) =~= s.skip(n + 1));
        assert forall|i: int| 0 <= i < n + 1 implies trim.drops(#[trigger] s[i]) by {
            if i > 0 {
                assert(rest[i - 1] == s[i]);
            }
        }
        n + 1
    } else {
        assert(s.skip(0) =~= s);
        0
    }
}

/// Trimming an end cuts off as many characters as there are of the given kind
/// at the end, and no more.
pub proof fn lemma_trimmed_end(s: Seq<char>, trim: Trim) -> (n: int)
    ensures
        0 <= n <= s.len(),
        trimmed_end(s, trim) == s.take(n),
        forall|i: int| n <= i < s.len() ==> trim.drops(#[trigger] s[i]),
        n > 0 ==> !trim.drops(s[n - 1]),
    decreases s.len(),
{
    if s.len() > 0 && trim.drops(s.last()) {
        let rest = s.drop_last();
        let n = lemma_trimmed_end(rest, trim);
        assert(rest.take(n) =~= s.take(n));
        assert forall|i: int| n <= i < s.len() implies trim.drops(#[trigger] s[i]) by {
            if i < rest.len() {
                assert(rest[i] == s[i]);
            }
        }
        assert(n > 0 ==> rest[n - 1] == s[n - 1]);
        n
    } else {
        assert(s.take(s.len() as int) =~= s);
        s.len() as int
    }
}

proof fn lemma_start_then_end(s: Seq<char>, trim: Trim, drop: spec_fn(char) -> bool)
    requires
        forall|c: char| #[trigger] drop(c) == trim.drops(c),
    ensures
        is_stripped(s, drop, trimmed_end(trimmed_start(s, trim), trim)),
{
    let from = lemma_trimmed_start(s, trim);
    let rest = s.skip(from);
    let n = lemma_trimmed_end(rest, trim);
    let to = from + n;
    assert(rest.take(n) =~= s.subrange(from, to));
    assert forall|i: int| 0 <= i < from || to <= i < s.len() implies drop(#[trigger] s[i]) by {
        if i >= to {
            assert(rest[i - from] == s[i]);
        }
    }
    if from < to {
        assert(rest[n - 1] == s[to - 1]);
    }
}

proof fn lemma_end_then_start(s: Seq<char>, trim: Trim, drop: spec_fn(char) -> bool)
    requires
        forall|c: char| #[trigger] drop(c) == trim.drops(c),
    ensures
        is_stripped(s, drop, trimmed_start(trimmed_end(s, trim), trim)),
{
    let to = lemma_trimmed_end(s, trim);
    let rest = s.take(to);
    let from = lemma_trimmed_start(rest, trim);
    assert(rest.skip(from) =~= s.subrange(from, to));
    assert forall|i: int| 0 <= i < from || to <= i < s.len() implies drop(#[trigger] s[i]) by {
        if i < from {
            assert(rest[i] == s[i]);
        }
    }
    if from < to {
        assert(rest[from] == s[from]);
    }
}

/// Trimming one character cuts it off at both ends.
pub proof fn lemma_trimmed_matches(s: Seq<char>, c: char)
    ensures
        is_stripped_of(s, c, trimmed_matches(s, c)),
{
    lemma_start_then_end(s, Trim::Char(c), |x: char| x == c);
}

/// Trimming white space cuts it off at both ends.
pub proof fn lemma_trimmed_blanks(s: Seq<char>)
    ensures
        is_stripped(
            s,
            |x: char| is_blank(x),
            trimmed_start(trimmed_end(s, Trim::WhiteSpace), Trim::WhiteSpace),
        ),
{
    let drop = |x: char| is_blank(x);
    assert forall|c: char| #[trigger] drop(c) == Trim::WhiteSpace.drops(c) by {
        assert(is_blank(c) == is_white_space(c));
    }
    lemma_end_then_start(s, Trim::WhiteSpace, drop);
}

/// What is left of a text once its ends are cut off is determined.
pub proof fn lemma_stripped_once(
    s: Seq<char>,
    drop: spec_fn(char) -> bool,
    a: Seq<char>,
    b: Seq<char>,
)
    requires
        is_stripped(s, drop, a),
        is_stripped(s, drop, b),
    ensures
        a == b,
{
    let (f, t) = choose|from: int, to: int|
        {
            &&& 0 <= from <= to <= s.len()
            &&& a == #[trigger] s.subrange(from, to)
            &&& forall|i: int| 0 <= i < from || to <= i < s.len() ==> drop(#[trigger] s[i])
            &&& from < to ==> !drop(s[from]) && !drop(s[to - 1])
        };
    let (g, u) = choose|from: int, to: int|
        {
            &&& 0 <= from <= to <= s.len()
            &&& b == #[trigger] s.subrange(from, to)
            &&& forall|i: int| 0 <= i < from || to <= i < s.len() ==> drop(#[trigger] s[i])
            &&& from < to ==> !drop(s[from]) && !drop(s[to - 1])
        };
    if f < t {
        assert(!drop(s[f]));
        assert(!drop(s[t - 1]));
        assert(g <= f);
        assert(t <= u);
        assert(!drop(s[g]));
        assert(!drop(s[u - 1]));
    } else if g < u {
        assert(!drop(s[g]));
    }
    assert(a =~= b);
}

/// Whether `path` is the path in `literal`: what is left of it once quotes,
/// then opening, then closing brackets are cut off at its ends.
pub open spec fn is_path_in(literal: Seq<char>, path: Seq<char>) -> bool {
    exists|a: Seq<char>, b: Seq<char>|
        {
            &&& #[trigger] is_stripped_of(literal, '"', a)
            &&& #[trigger] is_stripped_of(a, '<', b)
            &&& is_stripped_of(b, '>', path)
        }
}

/// The path in a literal is what is left of it without quotes and brackets,
/// and is to be looked up exactly where the literal ends with a bracket.
pub proof fn lemma_path_in(literal: Seq<char>)
    ensures
        is_path_in(literal, path_in(literal).path),
        path_in(literal).system <==> literal.len() > 0 && literal[literal.len() - 1] == '>',
{
    let a = trimmed_matches(literal, '"');
    let b = trimmed_matches(a, '<');
    lemma_trimmed_matches(literal, '"');
    lemma_trimmed_matches(a, '<');
    lemma_trimmed_matches(b, '>');
    assert(is_stripped_of(literal, '"', a) && is_stripped_of(a, '<', b));
}

/// The path in a literal is determined.
pub proof fn lemma_path_once(literal: Seq<char>, p: Seq<char>, q: Seq<char>)
    requires
        is_path_in(literal, p),
        is_path_in(literal, q),
    ensures
        p == q,
{
    let (a, b) = choose|a: Seq<char>, b: Seq<char>|
        {
            &&& #[trigger] is_stripped_of(literal, '"', a)
            &&& #[trigger] is_stripped_of(a, '<', b)
            &&& is_stripped_of(b, '>', p)
        };
    let (c, d) = choose|a: Seq<char>, b: Seq<char>|
        {
            &&& #[trigger] is_stripped_of(literal, '"', a)
            &&& #[trigger] is_stripped_of(a, '<', b)
            &&& is_stripped_of(b, '>', q)
        };
    lemma_stripped_once(literal, |x: char| x == '"', a, c);
    lemma_stripped_once(a, |x: char| x == '<', b, d);
    lemma_stripped_once(b, |x: char| x == '>', p, q);
}

proof fn lemma_stripped_to(s: Seq<char>, c: char, from: int, to: int)
    requires
        0 <= from <= to <= s.len(),
        forall|i: int| 0 <= i < from || to <= i < s.len() ==> (#[trigger] s[i]) == c,
        from < to ==> s[from] != c && s[to - 1] != c,
    ensures
        is_stripped_of(s, c, s.subrange(from, to)),
{
    let drop = |x: char| x == c;
    assert forall|i: int| 0 <= i < from || to <= i < s.len() implies drop(#[trigger] s[i]) by {
    }
    assert(is_stripped(s, drop, s.subrange(from, to)));
}

proof fn lemma_path_by_steps(literal: Seq<char>, a: Seq<char>, b: Seq<char>, p: Seq<char>)
    requires
        is_stripped_of(literal, '"', a),
        is_stripped_of(a, '<', b),
        is_stripped_of(b, '>', p),
    ensures
        path_in(literal).path == p,
{
    lemma_path_in(literal);
    assert(is_path_in(literal, p));
    lemma_path_once(literal, p, path_in(literal).path);
}

proof fn lemma_bracketed_path(p: Seq<char>)
    requires
        forall|i: int|
            0 <= i < p.len() ==> (#[trigger] p[i]) != '"' && p[i] != '<' && p[i] != '>',
    ensures
        path_in(seq!['<'] + p + seq!['>']).path == p,
        path_in(seq!['<'] + p + seq!['>']).system,
{
    let literal = seq!['<'] + p + seq!['>'];
    let half = p + seq!['>'];
    let len = p.len() as int;
    assert(literal[0] == '<' && literal[len + 1] == '>');
    lemma_path_in(literal);
    lemma_stripped_to(literal, '"', 0, len + 2);
    assert(literal.subrange(0, len + 2) =~= literal);
    if len > 0 {
        assert(literal[1] == p[0]);
        assert(half[0] == p[0]);
        assert(half[len - 1] == p[len - 1]);
    }
    lemma_stripped_to(literal, '<', 1, len + 2);
    assert(literal.subrange(1, len + 2) =~= half);
    lemma_stripped_to(half, '>', 0, len);
    assert(half.subrange(0, len) =~= p);
    lemma_path_by_steps(literal, literal, half, p);
}

proof fn lemma_quoted_path(p: Seq<char>)
    requires
        forall|i: int|
            0 <= i < p.len() ==> (#[trigger] p[i]) != '"' && p[i] != '<' && p[i] != '>',
    ensures
        path_in(seq!['"'] + p + seq!['"']).path == p,
        !path_in(seq!['"'] + p + seq!['"']).system,
{
    let literal = seq!['"'] + p + seq!['"'];
    let len = p.len() as int;
    assert(literal[0] == '"' && literal[len + 1] == '"');
    lemma_path_in(literal);
    if len > 0 {
        assert(literal[1] == p[0]);
        assert(literal[len] == p[len - 1]);
    }
    lemma_stripped_to(literal, '"', 1, len + 1);
    assert(literal.subrange(1, len + 1) =~= p);
    lemma_stripped_to(p, '<', 0, len);
    lemma_stripped_to(p, '>', 0, len);
    assert(p.subrange(0, len) =~= p);
    lemma_path_by_steps(literal, p, p, p);
}

/// A path in angle brackets is looked up, and a path in quotes is joined to
/// the address of the file that it stands in, whatever the path is.
pub proof fn lemma_enclosed_path(p: Seq<char>)
    requires
        forall|i: int|
            0 <= i < p.len() ==> (#[trigger] p[i]) != '"' && p[i] != '<' && p[i] != '>',
    ensures
        path_in(seq!['<'] + p + seq!['>']).path == p,
        path_in(seq!['<'] + p + seq!['>']).system,
        path_in(seq!['"'] + p + seq!['"']).path == p,
        !path_in(seq!['"'] + p + seq!['"']).system,
{
    lemma_bracketed_path(p);
    lemma_quoted_path(p);
}

/// A text ends with a character exactly where it is some text with that
/// character behind it.
pub proof fn lemma_ends_with(s: Seq<char>, c: char)
    ensures
        ends_with_char(s, c) <==> exists|p: Seq<char>| s == #[trigger] p.push(c),
{
    if ends_with_char(s, c) {
        assert(s =~= s.drop_last().push(c));
    }
    if exists|p: Seq<char>| s == #[trigger] p.push(c) {
        let p = choose|p: Seq<char>| s == #[trigger] p.push(c);
        assert(s.last() == c);
    }
}


proof fn lemma_last_index(s: Seq<char>, c: char)
    ensures
        -1 <= last_index(s, c) < s.len(),
        last_index(s, c) >= 0 ==> s[last_index(s, c)] == c,
        forall|i: int| last_index(s, c) < i < s.len() ==> (#[trigger] s[i]) != c,
    decreases s.len(),
{
    if s.len() > 0 && s.last() != c {
        let rest = s.drop_last();
        lemma_last_index(rest, c);
        assert forall|i: int| last_index(s, c) < i < s.len() implies (#[trigger] s[i]) != c by {
            if i < rest.len() {
                assert(rest[i] == s[i]);
            }
        }
    }
}

/// Whether `path` is some directories, a name that is more than its
/// extension, a dot, and `extension`.
pub open spec fn has_extension(path: Seq<char>, extension: Seq<char>) -> bool {
    &&& !extension.contains('.')
    &&& !extension.contains('/')
    &&& exists|n: int|
        {
            &&& 0 < n
            &&& n + extension.len() + 1 == path.len()
            &&& #[trigger] path[n] == '.'
            &&& path[n - 1] != '/'
            &&& path.skip(n + 1) == extension
        }
}

/// A path has the extension that follows the last dot of its last name. It
/// has none where that name has no dot, or only the one it starts with.
pub proof fn lemma_extension(path: Seq<char>, extension: Seq<char>)
    ensures
        path_extension(path) == Some(extension) <==> has_extension(path, extension),
{
    let slash = last_index(path, '/');
    let name = path.skip(slash + 1);
    let dot = last_index(name, '.');
    lemma_last_index(path, '/');
    lemma_last_index(name, '.');
    assert forall|i: int| 0 <= i < name.len() implies (#[trigger] name[i]) != '/' by {
        assert(name[i] == path[slash + 1 + i]);
    }
    if path_extension(path) == Some(extension) {
        let n = slash + 1 + dot;
        assert(path[n] == name[dot]);
        assert(path[n - 1] == name[dot - 1]);
        assert(path.skip(n + 1) =~= name.skip(dot + 1));
        assert forall|i: int| 0 <= i < extension.len() implies (#[trigger] extension[i]) != '.'
            && extension[i] != '/' by {
            assert(extension[i] == name[dot + 1 + i]);
        }
    }
    if has_extension(path, extension) {
        let n = choose|n: int|
            {
                &&& 0 < n
                &&& n + extension.len() + 1 == path.len()
                &&& #[trigger] path[n] == '.'
                &&& path[n - 1] != '/'
                &&& path.skip(n + 1) == extension
            };
        assert forall|i: int| n < i < path.len() implies (#[trigger] path[i]) != '.' && path[i]
            != '/' by {
            assert(extension[i - n - 1] == path[i]);
            assert(extension.contains(extension[i - n - 1]));
        }
        assert(slash < n - 1);
        let at = n - slash - 1;
        assert(name[at] == path[n]);
        assert forall|i: int| at < i < name.len() implies (#[trigger] name[i]) != '.' by {
            assert(name[i] == path[slash + 1 + i]);
        }
        assert(dot == at);
        assert(name.skip(dot + 1) =~= path.skip(n + 1));
    }
}

/// The extension of the file at an address is that of the path in it.
pub proof fn lemma_uri_extension(uri: Seq<char>, extension: Seq<char>)
    ensures
        uri_extension(uri) == Some(extension) <==> match url::url_path(uri) {
            Some(path) => has_extension(path, extension),
            None => false,
        },
{
    if let Some(path) = url::url_path(uri) {
        lemma_extension(path, extension);
    }
}

/// How a file is indexed is decided by the extension of the path in its
/// address: `dts` and `dtsi` are sources, `h` is a header.
pub proof fn lemma_kind(uri: Seq<char>)
    ensures
        match url::url_path(uri) {
            Some(path) => {
                &&& kind_of(uri) is Source <==> has_extension(path, "dts"@) || has_extension(
                    path,
                    "dtsi"@,
                )
                &&& kind_of(uri) is Header <==> has_extension(path, "h"@)
            },
            None => kind_of(uri) is Other,
        },
{
    reveal_strlit("dts");
    reveal_strlit("dtsi");
    reveal_strlit("h");
    assert("h"@.len() == 1 && "dts"@.len() == 3 && "dtsi"@.len() == 4);
    if let Some(path) = url::url_path(uri) {
        lemma_extension(path, "dts"@);
        lemma_extension(path, "dtsi"@);
        lemma_extension(path, "h"@);
    }
}

/// The width of a character is the number of bytes of its encoding.
pub proof fn lemma_utf8_width(c: char)
    ensures
        utf8_width(c) == encode_scalar(c as u32).len(),
{
    char_is_scalar(c);
}

proof fn lemma_encode_push(text: Seq<char>, c: char)
    ensures
        encode_utf8(text.push(c)) == encode_utf8(text) + encode_scalar(c as u32),
    decreases text.len(),
{
    let whole = text.push(c);
    reveal_with_fuel(encode_utf8, 2);
    let first = encode_scalar(whole[0] as u32);
    assert(encode_utf8(whole) == first + encode_utf8(whole.drop_first()));
    if text.len() == 0 {
        assert(whole.drop_first().len() == 0);
        assert(encode_utf8(whole) =~= encode_utf8(text) + encode_scalar(c as u32));
    } else {
        assert(whole.drop_first() =~= text.drop_first().push(c));
        lemma_encode_push(text.drop_first(), c);
        assert(encode_utf8(text) == first + encode_utf8(text.drop_first()));
        assert(encode_utf8(whole) =~= encode_utf8(text) + encode_scalar(c as u32));
    }
}

/// The width of a text is the number of bytes of its encoding.
pub proof fn lemma_text_width(text: Seq<char>)
    ensures
        text_width(text) == encode_utf8(text).len(),
    decreases text.len(),
{
    if text.len() > 0 {
        lemma_text_width(text.drop_last());
        lemma_utf8_width(text.last());
        lemma_encode_push(text.drop_last(), text.last());
        assert(text =~= text.drop_last().push(text.last()));
    }
}

/// The line of a character is the number of line feeds in front of it.
pub proof fn lemma_line_of(text: Seq<char>, at: int)
    requires
        0 <= at <= text.len(),
    ensures
        line_of(text, at) == text.take(at).filter(|c: char| c == '\n').len(),
    decreases at,
{
    let feed = |c: char| c == '\n';
    if at == 0 {
        reveal(Seq::filter);
        assert(text.take(0) =~= Seq::empty());
    } else {
        lemma_line_of(text, at - 1);
        assert(text.take(at) =~= text.take(at - 1).push(text[at - 1]));
        text.take(at - 1).lemma_filter_push(text[at - 1], feed);
    }
}

/// The column of a character is the number of bytes of what is between it and
/// the line feed in front of it, or the start of the text.
pub proof fn lemma_column_of(text: Seq<char>, start: int, at: int)
    requires
        0 <= start <= at <= text.len(),
        start == 0 || text[start - 1] == '\n',
        !text.subrange(start, at).contains('\n'),
    ensures
        column_of(text, at) == encode_utf8(text.subrange(start, at)).len(),
    decreases at - start,
{
    let line = text.subrange(start, at);
    lemma_text_width(line);
    if start < at {
        let less = text.subrange(start, at - 1);
        assert forall|i: int| 0 <= i < less.len() implies (#[trigger] less[i]) != '\n' by {
            assert(less[i] == line[i]);
            assert(line.contains(line[i]));
        }
        lemma_column_of(text, start, at - 1);
        lemma_text_width(less);
        assert(line.drop_last() =~= less);
        assert(line.last() == text[at - 1]);
        assert(line.contains(line.last()));
    }
}

proof fn lemma_skipped_lines(text: Seq<char>, from: int, lines: nat)
    requires
        0 <= from <= text.len(),
    ensures
        ({
            let at = skip_lines(text, from, lines);
            &&& from <= at <= text.len()
            &&& line_of(text, at) <= line_of(text, from) + lines
            &&& line_of(text, at) < line_of(text, from) + lines ==> at == text.len()
            &&& lines > 0 && line_of(text, at) == line_of(text, from) + lines ==> at > 0
                && text[at - 1] == '\n'
        }),
    decreases text.len() - from,
{
    if lines > 0 && from < text.len() {
        if text[from] == '\n' {
            lemma_skipped_lines(text, from + 1, (lines - 1) as nat);
        } else {
            lemma_skipped_lines(text, from + 1, lines);
        }
    }
}

proof fn lemma_skipped_columns(text: Seq<char>, from: int, columns: nat)
    requires
        0 <= from <= text.len(),
    ensures
        ({
            let at = skip_columns(text, from, columns);
            &&& from <= at <= text.len()
            &&& line_of(text, at) == line_of(text, from)
            &&& column_of(text, at) <= column_of(text, from) + columns
            &&& at == text.len() || text[at] == '\n' || column_of(text, at) + utf8_width(text[at])
                > column_of(text, from) + columns
        }),
    decreases text.len() - from,
{
    if from < text.len() && text[from] != '\n' && utf8_width(text[from]) <= columns {
        lemma_skipped_columns(text, from + 1, (columns - utf8_width(text[from])) as nat);
    }
}

/// The place of a position is the last one on its line that is not behind its
/// column. A line that the text does not have stands for the end of the text.
pub proof fn lemma_place_of(text: Seq<char>, position: Position)
    ensures
        ({
            let at = offset_of(text, position);
            &&& 0 <= at <= text.len()
            &&& line_of(text, text.len() as int) < position.line ==> at == text.len()
            &&& line_of(text, text.len() as int) >= position.line ==> {
                &&& line_of(text, at) == position.line
                &&& column_of(text, at) <= position.character
                &&& at == text.len() || text[at] == '\n' || column_of(text, at) + utf8_width(
                    text[at],
                ) > position.character
            }
        }),
{
    let lines = position.line as nat;
    let start = skip_lines(text, 0, lines);
    lemma_skipped_lines(text, 0, lines);
    lemma_skipped_columns(text, start, position.character as nat);
    lemma_line_mono(text, start, text.len() as int);
}

} // verus!
