//! What the name of a file tells about it.

use crate::text::to_chars;
use crate::url;
use vstd::prelude::*;
use vstd::string::*;

verus! {

/// The index of the last `c` in `s`, or -1 where there is none.
pub open spec fn last_index(s: Seq<char>, c: char) -> int
    decreases s.len(),
{
    if s.len() == 0 {
        -1
    } else if s.last() == c {
        s.len() - 1
    } else {
        last_index(s.drop_last(), c)
    }
}

/// What follows the last dot of the last part of `path`. A name that only
/// starts with a dot has no extension.
pub open spec fn path_extension(path: Seq<char>) -> Option<Seq<char>> {
    let name = path.skip(last_index(path, '/') + 1);
    let dot = last_index(name, '.');
    if dot > 0 {
        Some(name.skip(dot + 1))
    } else {
        None
    }
}

/// The extension of the file at `uri`.
pub open spec fn uri_extension(uri: Seq<char>) -> Option<Seq<char>> {
    match url::url_path(uri) {
        Some(path) => path_extension(path),
        None => None,
    }
}

/// Whether the file at `uri` is one of those that are indexed.
pub open spec fn is_source_uri(uri: Seq<char>) -> bool {
    match uri_extension(uri) {
        Some(extension) => extension == "dts"@ || extension == "dtsi"@ || extension == "h"@,
        None => false,
    }
}

/// Whether the file at `uri` is a C header.
pub open spec fn is_header_uri(uri: Seq<char>) -> bool {
    uri_extension(uri) == Some("h"@)
}

fn find_last(chars: &Vec<char>, from: usize, c: char) -> (r: Option<usize>)
    requires
        from <= chars.len(),
    ensures
        match r {
            Some(at) => from <= at < chars.len() && last_index(chars@.skip(from as int), c) == at
                - from,
            None => last_index(chars@.skip(from as int), c) == -1,
        },
{
    let ghost s = chars@.skip(from as int);
    let mut to: usize = chars.len();
    assert(s.take(to - from) == s);
    while to > from
        invariant
            from <= to <= chars.len(),
            s == chars@.skip(from as int),
            last_index(s, c) == last_index(s.take(to - from), c),
        decreases to,
    {
        assert(s.take(to - from).drop_last() == s.take(to - from - 1));
        if chars[to - 1] == c {
            return Some(to - 1);
        }
        to -= 1;
    }
    None
}

/// The extension in `path`.
pub fn extension_of_path(path: &str) -> (r: Option<String>)
    ensures
        r.deep_view() == path_extension(path@),
{
    let chars = to_chars(path);
    assert(path@.skip(0) == path@);
    let name: usize = match find_last(&chars, 0, '/') {
        Some(at) => at + 1,
        None => 0,
    };
    match find_last(&chars, name, '.') {
        Some(dot) if dot > name => {
            assert(path@.skip(name as int).skip(dot - name + 1) == path@.subrange(
                dot + 1,
                chars.len() as int,
            ));
            Some(path.substring_char(dot + 1, chars.len()).to_owned())
        },
        _ => None,
    }
}

/// Tells whether the extension of the file at `uri` is one of `extensions`.
pub fn extension_one_of(uri: &str, extensions: &[&str]) -> (r: bool)
    ensures
        r == exists|k: int|
            0 <= k < extensions@.len() && uri_extension(uri@) == Some((#[trigger] extensions@[k])@),
{
    let extension = match url::path(uri) {
        Some(path) => extension_of_path(path.as_str()),
        None => None,
    };
    match extension {
        Some(found) => {
            let mut k: usize = 0;
            while k < extensions.len()
                invariant
                    k <= extensions@.len(),
                    uri_extension(uri@) == Some(found@),
                    forall|j: int| 0 <= j < k ==> found@ != (#[trigger] extensions@[j])@,
                decreases extensions@.len() - k,
            {
                if found == extensions[k].to_owned() {
                    return true;
                }
                k += 1;
            }
            false
        },
        None => false,
    }
}

/// Tells whether the file at `uri` is one of those that are indexed.
pub fn is_source(uri: &str) -> (r: bool)
    ensures
        r == is_source_uri(uri@),
{
    let extensions = ["dts", "dtsi", "h"];
    proof {
        assert(extensions@[0]@ == "dts"@);
        assert(extensions@[1]@ == "dtsi"@);
        assert(extensions@[2]@ == "h"@);
    }
    extension_one_of(uri, &extensions)
}

/// Tells whether the file at `uri` is a C header.
pub fn is_header(uri: &str) -> (r: bool)
    ensures
        r == is_header_uri(uri@),
{
    let extensions = ["h"];
    proof {
        assert(extensions@[0]@ == "h"@);
    }
    extension_one_of(uri, &extensions)
}

} // verus!
